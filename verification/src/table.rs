//! The mapping table: the persisted association between relative paths and
//! generated identifiers, and its serialized form.

use vstd::prelude::*;

verus! {

/// A fatal condition of the mapping store.
#[derive(Clone, Copy, Debug, PartialEq, Eq, Structural)]
pub enum StoreError {
    /// The store path exists but is not a regular file.
    Config,
    /// The store's content is not a well-formed table.
    Parse,
}

/// The table a sequence of key/value pairs denotes: pairs are inserted left
/// to right, a later key overriding an earlier one.
pub open spec fn map_of(ps: Seq<(String, String)>) -> Map<Seq<char>, Seq<char>>
    decreases ps.len(),
{
    if ps.len() == 0 {
        Map::empty()
    } else {
        map_of(ps.drop_last()).insert(ps.last().0@, ps.last().1@)
    }
}

/// Keys are pairwise distinct.
pub open spec fn keys_distinct(ps: Seq<(String, String)>) -> bool {
    forall|i: int, j: int|
        0 <= i < j < ps.len() ==> (#[trigger] ps[i]).0@ != (#[trigger] ps[j]).0@
}

pub proof fn lemma_map_of_contains(ps: Seq<(String, String)>, k: Seq<char>)
    ensures
        map_of(ps).contains_key(k) <==> exists|i: int| 0 <= i < ps.len() && (#[trigger] ps[i]).0@ == k,
    decreases ps.len(),
{
    if ps.len() > 0 {
        lemma_map_of_contains(ps.drop_last(), k);
        if map_of(ps).contains_key(k) && ps.last().0@ != k {
            let i = choose|i: int| 0 <= i < ps.len() - 1 && (#[trigger] ps.drop_last()[i]).0@ == k;
            assert(ps[i].0@ == k);
        }
        if exists|i: int| 0 <= i < ps.len() && (#[trigger] ps[i]).0@ == k {
            let i = choose|i: int| 0 <= i < ps.len() && (#[trigger] ps[i]).0@ == k;
            if i < ps.len() - 1 {
                assert(ps.drop_last()[i].0@ == k);
            }
        }
    }
}

pub proof fn lemma_map_of_index(ps: Seq<(String, String)>, i: int)
    requires
        keys_distinct(ps),
        0 <= i < ps.len(),
    ensures
        map_of(ps).contains_key(ps[i].0@),
        map_of(ps)[ps[i].0@] == ps[i].1@,
    decreases ps.len(),
{
    if i == ps.len() - 1 {
        lemma_map_of_contains(ps.drop_last(), ps[i].0@);
    } else {
        lemma_map_of_index(ps.drop_last(), i);
        assert(ps.drop_last()[i] == ps[i]);
        assert(ps.last().0@ != ps[i].0@);
    }
}

/// What `toml::from_str` makes of a text: the table it denotes, or nothing
/// when the text is not a well-formed table with a string value under every
/// key.
pub uninterp spec fn toml_table_of(s: Seq<char>) -> Option<Map<Seq<char>, Seq<char>>>;

/// The TOML text that `toml::to_string_pretty` prints for a table of string
/// values.
pub uninterp spec fn toml_text_of(m: Map<Seq<char>, Seq<char>>) -> Seq<char>;

/// Relies on `toml::from_str`: parses the text as a TOML table with a string
/// value under every key.  The keys of a parsed table are unique, and empty
/// text parses as the empty table.
#[verifier::external_body]
fn toml_parse(s: &str) -> (r: Option<Vec<(String, String)>>)
    ensures
        r matches Some(v) ==> toml_table_of(s@) == Some(map_of(v@)) && keys_distinct(v@),
        r is None ==> toml_table_of(s@) is None,
        r is None ==> s@.len() > 0,
        r matches Some(v) ==> (s@.len() == 0 ==> v@.len() == 0),
{
    match toml::from_str::<std::collections::BTreeMap<String, String>>(s) {
        Ok(m) => Some(m.into_iter().collect()),
        Err(_) => None,
    }
}

/// Relies on `toml::to_string_pretty`: prints a table of string values as
/// TOML text.  The text depends on the table alone (keys are printed in
/// sorted order), and `toml::from_str` parses it back to the same table.
/// Serialization cannot fail for a map of strings: the writer has an
/// encoding for every key and value, falling back to escaped basic strings.
#[verifier::external_body]
fn toml_show(pairs: &Vec<(String, String)>) -> (r: Option<String>)
    ensures
        r is Some,
        r matches Some(t) ==> t@ == toml_text_of(map_of(pairs@)),
        r matches Some(t) ==> toml_table_of(t@) == Some(map_of(pairs@)),
{
    let m: std::collections::BTreeMap<String, String> = pairs.iter().cloned().collect();
    toml::to_string_pretty(&m).ok()
}

/// The mapping from a relative path (an entry's logical identity) to the
/// generated identifier that replaces its name on disk.
#[derive(Debug)]
pub struct MappingTable {
    pairs: Vec<(String, String)>,
}

impl MappingTable {
    /// The table as a mathematical map.
    pub closed spec fn view(self) -> Map<Seq<char>, Seq<char>> {
        map_of(self.pairs@)
    }

    /// The pairs in the table's own order.
    pub closed spec fn pairs_seq(self) -> Seq<(String, String)> {
        self.pairs@
    }

    pub closed spec fn wf(self) -> bool {
        keys_distinct(self.pairs@)
    }

    /// The empty table.
    pub fn new() -> (t: MappingTable)
        ensures
            t.wf(),
            t@ == Map::<Seq<char>, Seq<char>>::empty(),
            t.pairs_seq().len() == 0,
    {
        MappingTable { pairs: Vec::new() }
    }

    pub fn len(&self) -> (n: usize)
        ensures
            n == self.pairs_seq().len(),
    {
        self.pairs.len()
    }

    pub fn key_at(&self, i: usize) -> (k: &String)
        requires
            i < self.pairs_seq().len(),
        ensures
            k@ == self.pairs_seq()[i as int].0@,
    {
        &self.pairs[i].0
    }

    pub fn val_at(&self, i: usize) -> (v: &String)
        requires
            i < self.pairs_seq().len(),
        ensures
            v@ == self.pairs_seq()[i as int].1@,
    {
        &self.pairs[i].1
    }

    pub fn contains_key(&self, key: &String) -> (r: bool)
        ensures
            r == self@.contains_key(key@),
    {
        proof {
            lemma_map_of_contains(self.pairs@, key@);
        }
        let n = self.pairs.len();
        let mut i: usize = 0;
        while i < n
            invariant
                i <= n,
                n == self.pairs@.len(),
                forall|j: int| 0 <= j < i ==> (#[trigger] self.pairs@[j]).0@ != key@,
            decreases n - i,
        {
            if self.pairs[i].0 == *key {
                proof {
                    lemma_map_of_contains(self.pairs@, key@);
                    assert((self.pairs@[i as int]).0@ == key@);
                }
                return true;
            }
            i = i + 1;
        }
        false
    }

    /// The identifier recorded for `key`, if any.
    pub fn get(&self, key: &String) -> (r: Option<&String>)
        requires
            self.wf(),
        ensures
            r matches Some(v) ==> self@.contains_key(key@) && self@[key@] == v@,
            r is None ==> !self@.contains_key(key@),
    {
        proof {
            lemma_map_of_contains(self.pairs@, key@);
        }
        let n = self.pairs.len();
        let mut i: usize = 0;
        while i < n
            invariant
                i <= n,
                n == self.pairs@.len(),
                self.wf(),
                forall|j: int| 0 <= j < i ==> (#[trigger] self.pairs@[j]).0@ != key@,
            decreases n - i,
        {
            if self.pairs[i].0 == *key {
                proof {
                    lemma_map_of_index(self.pairs@, i as int);
                }
                return Some(&self.pairs[i].1);
            }
            i = i + 1;
        }
        None
    }

    /// Records `key -> val`.  The key must be new: table keys stay unique.
    pub fn insert(&mut self, key: String, val: String)
        requires
            old(self).wf(),
            !old(self)@.contains_key(key@),
        ensures
            final(self).wf(),
            final(self)@ == old(self)@.insert(key@, val@),
            final(self).pairs_seq() == old(self).pairs_seq().push((key, val)),
    {
        proof {
            lemma_map_of_contains(self.pairs@, key@);
        }
        self.pairs.push((key, val));
        proof {
            assert(self.pairs@.drop_last() =~= old(self).pairs@);
        }
    }

    /// Parses the store's content.  An empty content — an absent or freshly
    /// created store file — is the empty table; a content that is not a
    /// well-formed table is a `Parse` error, and nothing else is.
    pub fn from_toml(s: &str) -> (r: Result<MappingTable, StoreError>)
        ensures
            r matches Ok(t) ==> toml_table_of(s@) == Some(t@) && t.wf(),
            r matches Err(e) ==> e == StoreError::Parse && toml_table_of(s@) is None,
            s@.len() == 0 ==> (r matches Ok(t) && t@ == Map::<Seq<char>, Seq<char>>::empty()
                && t.pairs_seq().len() == 0),
    {
        match toml_parse(s) {
            Some(v) => Ok(MappingTable { pairs: v }),
            None => Err(StoreError::Parse),
        }
    }

    /// Serializes the table for persisting; the store file is overwritten
    /// with exactly this text.  Serialization always succeeds, and parsing
    /// the text back yields this table.
    pub fn to_toml(&self) -> (r: Option<String>)
        ensures
            r is Some,
            r matches Some(t) ==> t@ == toml_text_of(self@) && toml_table_of(t@) == Some(self@),
    {
        toml_show(&self.pairs)
    }

    /// Adds every pair of `other`; the two tables' keys must be disjoint,
    /// as a forward pass's delta is of the paths the loaded table lacks.
    pub fn merge_from(&mut self, other: MappingTable)
        requires
            old(self).wf(),
            other.wf(),
            forall|k: Seq<char>|
                !(old(self)@.contains_key(k) && #[trigger] other@.contains_key(k)),
        ensures
            final(self).wf(),
            final(self)@ == old(self)@.union_prefer_right(other@),
    {
        let n = other.pairs.len();
        let mut i: usize = 0;
        while i < n
            invariant
                i <= n,
                n == other.pairs@.len(),
                other.wf(),
                self.wf(),
                forall|k: Seq<char>|
                    !(old(self)@.contains_key(k) && #[trigger] other@.contains_key(k)),
                self@ == old(self)@.union_prefer_right(map_of(other.pairs@.take(i as int))),
            decreases n - i,
        {
            let k = other.pairs[i].0.clone();
            let v = other.pairs[i].1.clone();
            proof {
                lemma_map_of_index(other.pairs@, i as int);
                assert(k@ == (other.pairs@[i as int]).0@);
                assert(other@.contains_key(k@));
                assert(!old(self)@.contains_key(k@));
                lemma_map_of_contains(other.pairs@.take(i as int), k@);
                if map_of(other.pairs@.take(i as int)).contains_key(k@) {
                    let j = choose|j: int|
                        0 <= j < i && (#[trigger] other.pairs@.take(i as int)[j]).0@ == k@;
                    assert((other.pairs@[j]).0@ == (other.pairs@[i as int]).0@);
                }
                assert(!self@.contains_key(k@));
            }
            self.insert(k, v);
            proof {
                assert(other.pairs@.take(i + 1).drop_last() =~= other.pairs@.take(i as int));
                assert(self@ =~= old(self)@.union_prefer_right(
                    map_of(other.pairs@.take(i + 1)),
                ));
            }
            i = i + 1;
        }
        proof {
            assert(other.pairs@.take(n as int) =~= other.pairs@);
        }
    }
}

} // verus!
