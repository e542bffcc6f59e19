//! Relative paths and the computation of masked (identifier) names.
//!
//! A relative path is a `String`; `/` separates its segments.  The final
//! segment is the entry's name; a file's name may carry an extension, the
//! part after its last `.`.

use vstd::prelude::*;
use vstd::string::*;
use crate::ident::id_wf;
use crate::ident::lemma_id_chars_free;

verus! {

/// Index of the last occurrence of `c` in `s`, or `-1` if `c` does not occur.
pub open spec fn last_pos(s: Seq<char>, c: char) -> int
    decreases s.len(),
{
    if s.len() == 0 {
        -1
    } else if s.last() == c {
        s.len() - 1
    } else {
        last_pos(s.drop_last(), c)
    }
}

pub proof fn lemma_last_pos(s: Seq<char>, c: char)
    ensures
        -1 <= last_pos(s, c) < s.len(),
        last_pos(s, c) >= 0 ==> s[last_pos(s, c)] == c,
        forall|i: int| last_pos(s, c) < i < s.len() ==> s[i] != c,
    decreases s.len(),
{
    if s.len() > 0 && s.last() != c {
        lemma_last_pos(s.drop_last(), c);
        assert(forall|i: int| last_pos(s, c) < i < s.len() - 1 ==> s[i] == s.drop_last()[i]);
    }
}

/// Appending characters none of which is `c` does not move the last `c`.
pub proof fn lemma_last_pos_append_free(a: Seq<char>, b: Seq<char>, c: char)
    requires
        forall|i: int| 0 <= i < b.len() ==> b[i] != c,
    ensures
        last_pos(a + b, c) == last_pos(a, c),
    decreases b.len(),
{
    if b.len() == 0 {
        assert(a + b =~= a);
    } else {
        assert((a + b).last() == b.last());
        assert((a + b).drop_last() =~= a + b.drop_last());
        lemma_last_pos_append_free(a, b.drop_last(), c);
    }
}

/// The leading part of `p` up to and including its last `/`; empty when `p`
/// has no separator.
pub open spec fn dir_prefix(p: Seq<char>) -> Seq<char> {
    p.take(last_pos(p, '/') + 1)
}

/// The final segment of `p`: everything after its last `/`.
pub open spec fn base_name(p: Seq<char>) -> Seq<char> {
    p.skip(last_pos(p, '/') + 1)
}

/// A name has an extension when a `.` stands strictly inside it, with a
/// nonempty stem before the last `.` and a nonempty extension after it.
pub open spec fn has_ext(name: Seq<char>) -> bool {
    1 <= last_pos(name, '.') < name.len() - 1
}

/// The extension of a name: everything after its last `.`.
pub open spec fn ext_of(name: Seq<char>) -> Seq<char> {
    name.skip(last_pos(name, '.') + 1)
}

/// The masked form of an entry's name: the identifier, and for a file with an
/// extension the extension is kept.
pub open spec fn masked_name(name: Seq<char>, id: Seq<char>, is_dir: bool) -> Seq<char> {
    if !is_dir && has_ext(name) {
        id + seq!['.'] + ext_of(name)
    } else {
        id
    }
}

/// The on-disk relative path of an entry after its name is masked: the
/// directory part is untouched, the final segment becomes the masked name.
pub open spec fn masked_path(p: Seq<char>, id: Seq<char>, is_dir: bool) -> Seq<char> {
    dir_prefix(p) + masked_name(base_name(p), id, is_dir)
}

/// `a` is a proper ancestor directory of `b`: `a` followed by `/` begins `b`.
pub open spec fn ancestor_of(a: Seq<char>, b: Seq<char>) -> bool {
    a.len() < b.len() && b.take(a.len() as int) == a && b[a.len() as int] == '/'
}

/// What one on-disk rename of `from` onto `to` does to the path `p`: the
/// renamed entry itself and everything under it move along; every other
/// path stays where it is.
pub open spec fn moved(p: Seq<char>, from: Seq<char>, to: Seq<char>) -> Seq<char> {
    if p == from {
        to
    } else if ancestor_of(from, p) {
        to + p.skip(from.len() as int)
    } else {
        p
    }
}

/// A rename changes an entry's name only: the masked path parses back into
/// the directory part of the original path, unchanged, with the masked name
/// as its final segment.
pub proof fn lemma_masked_path_parts(p: Seq<char>, id: Seq<char>, is_dir: bool)
    requires
        id_wf(id),
    ensures
        dir_prefix(masked_path(p, id, is_dir)) == dir_prefix(p),
        base_name(masked_path(p, id, is_dir)) == masked_name(base_name(p), id, is_dir),
{
    let ls = last_pos(p, '/');
    let pre = dir_prefix(p);
    let name = base_name(p);
    let tail = masked_name(name, id, is_dir);
    let m = masked_path(p, id, is_dir);
    lemma_last_pos(p, '/');
    lemma_last_pos(name, '.');
    lemma_id_chars_free(id);
    assert forall|i: int| 0 <= i < tail.len() implies tail[i] != '/' by {
        if !is_dir && has_ext(name) {
            let d = last_pos(name, '.');
            if i < id.len() {
                assert(tail[i] == id[i]);
            } else if i == id.len() {
                assert(tail[i] == '.');
            } else {
                assert(tail[i] == name[d + 1 + (i - id.len() - 1)]);
                assert(name[d + 1 + (i - id.len() - 1)] == p[ls + 1 + d + 1 + (i - id.len()
                    - 1)]);
            }
        } else {
            assert(tail[i] == id[i]);
        }
    }
    lemma_last_pos_append_free(pre, tail, '/');
    if ls >= 0 {
        assert(pre.last() == p[ls]);
        assert(last_pos(pre, '/') == ls);
    } else {
        assert(pre =~= Seq::<char>::empty());
    }
    assert(last_pos(m, '/') == ls);
    assert(dir_prefix(m) =~= pre);
    assert(base_name(m) =~= tail);
}

/// A file keeps its extension when its name is masked: the masked path's
/// final segment has an extension, and it is the original one.
pub proof fn lemma_extension_preserved(p: Seq<char>, id: Seq<char>)
    requires
        id_wf(id),
        has_ext(base_name(p)),
    ensures
        has_ext(base_name(masked_path(p, id, false))),
        ext_of(base_name(masked_path(p, id, false))) == ext_of(base_name(p)),
{
    let name = base_name(p);
    let d = last_pos(name, '.');
    let e = ext_of(name);
    let tail = id + seq!['.'] + e;
    let m = masked_path(p, id, false);
    lemma_last_pos(name, '.');
    lemma_id_chars_free(id);
    lemma_masked_path_parts(p, id, false);
    assert(base_name(m) == tail);
    assert forall|i: int| 0 <= i < e.len() implies e[i] != '.' by {
        assert(e[i] == name[d + 1 + i]);
    }
    lemma_last_pos_append_free(id + seq!['.'], e, '.');
    assert(tail =~= (id + seq!['.']) + e);
    assert((id + seq!['.']).last() == '.');
    assert(last_pos(id + seq!['.'], '.') == id.len());
    assert(last_pos(tail, '.') == id.len());
    assert(has_ext(tail));
    assert(ext_of(tail) =~= e);
}

/// Index of the last occurrence of `c` in `s`, if any.
fn find_last(s: &str, c: char) -> (r: Option<usize>)
    ensures
        r matches Some(i) ==> i == last_pos(s@, c),
        r is None ==> last_pos(s@, c) == -1,
{
    let n = s.unicode_len();
    let mut i = n;
    proof {
        assert(s@.take(n as int) =~= s@);
    }
    while i > 0
        invariant
            i <= n,
            n == s@.len(),
            last_pos(s@, c) == last_pos(s@.take(i as int), c),
        decreases i,
    {
        let ch = s.get_char(i - 1);
        proof {
            assert(s@.take(i as int).last() == s@[i - 1]);
        }
        if ch == c {
            return Some(i - 1);
        }
        proof {
            assert(s@.take(i as int).drop_last() =~= s@.take(i - 1));
        }
        i = i - 1;
    }
    proof {
        assert(s@.take(0) =~= Seq::<char>::empty());
    }
    None
}

/// The on-disk name an entry gets when its name is replaced by `id`: the
/// directory part of `p` is kept, the final segment becomes `id`, and a
/// file's extension is carried over.
pub fn rename_target(p: &str, id: &str, is_dir: bool) -> (r: String)
    ensures
        r@ == masked_path(p@, id@, is_dir),
{
    let n = p.unicode_len();
    proof {
        lemma_last_pos(p@, '/');
    }
    let start: usize = match find_last(p, '/') {
        Some(i) => i + 1,
        None => 0,
    };
    let mut out = String::from_str(p.substring_char(0, start));
    out.append(id);
    let name = p.substring_char(start, n);
    proof {
        assert(name@ =~= base_name(p@));
    }
    if !is_dir {
        if let Some(d) = find_last(name, '.') {
            let name_len = name.unicode_len();
            proof {
                lemma_last_pos(name@, '.');
            }
            if d >= 1 && d + 1 < name_len {
                out.append(name.substring_char(d, name_len));
                proof {
                    assert(name@.subrange(d as int, name_len as int) =~= seq!['.'] + ext_of(
                        name@,
                    ));
                }
            }
        }
    }
    proof {
        assert(p@.subrange(0, start as int) == dir_prefix(p@));
    }
    out
}

/// `rel` placed under the directory `root`, joined with `/`.
pub fn join_under(root: &str, rel: &str) -> (r: String)
    ensures
        r@ == root@ + seq!['/'] + rel@,
{
    let mut out = String::from_str(root);
    out.append("/");
    out.append(rel);
    proof {
        reveal_strlit("/");
        assert(root@ + ("/")@ + rel@ =~= root@ + seq!['/'] + rel@);
    }
    out
}

} // verus!
