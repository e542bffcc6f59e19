//! Generated identifiers: the random replacement names assigned to entries.

use vstd::prelude::*;

verus! {

/// Characters that a generated identifier may contain: lowercase hex digits
/// and hyphens.  Neither `/` nor `.` is among them, so an identifier never
/// adds a path separator or an extension.
pub open spec fn is_id_char(c: char) -> bool {
    c == '-' || ('0' <= c && c <= '9') || ('a' <= c && c <= 'f')
}

/// A well-formed identifier: nonempty, made of identifier characters only.
pub open spec fn id_wf(s: Seq<char>) -> bool {
    &&& s.len() > 0
    &&& forall|i: int| 0 <= i < s.len() ==> is_id_char(#[trigger] s[i])
}

pub proof fn lemma_id_chars_free(s: Seq<char>)
    requires
        id_wf(s),
    ensures
        forall|i: int| 0 <= i < s.len() ==> s[i] != '/',
        forall|i: int| 0 <= i < s.len() ==> s[i] != '.',
{
    assert forall|i: int| 0 <= i < s.len() implies s[i] != '/' && s[i] != '.' by {
        assert(is_id_char(s[i]));
    }
}

/// Relies on `uuid::Uuid::new_v4` and the `Display` form of `Uuid`: a fresh
/// random identifier, printed as 36 characters of lowercase hex digits and
/// hyphens.  The value is random; nothing beyond its shape is promised.
#[verifier::external_body]
pub fn fresh_identifier() -> (r: String)
    ensures
        r@.len() == 36,
        id_wf(r@),
{
    uuid::Uuid::new_v4().to_string()
}

} // verus!
