//! The ordering scheduler: the policy, shared by both passes, that sequences
//! a tree's worth of renames so that every individual rename observes a
//! filesystem state in which its source path is still valid.
//!
//! Forward pass: files first, in discovery order, then directories from
//! deepest to shallowest — when a directory's turn comes, everything under
//! it has already been renamed, so no later rename's source runs through it.
//! Reverse pass: directories from shallowest to deepest, then files — an
//! entry's restored source path runs through the already-restored names of
//! all of its ancestors.

use vstd::prelude::*;
use vstd::multiset::Multiset;
use crate::entry::Entry;
use crate::entry::entry_wf;
use crate::paths::ancestor_of;
use crate::table::MappingTable;

verus! {

/// The entries a forward pass still has to process: those whose relative
/// path is not yet a key of the table, in discovery order.
pub open spec fn kept(entries: Seq<Entry>, m: Map<Seq<char>, Seq<char>>) -> Seq<Entry>
    decreases entries.len(),
{
    if entries.len() == 0 {
        Seq::empty()
    } else if !m.contains_key(entries.first().rel_path@) {
        seq![entries.first()] + kept(entries.drop_first(), m)
    } else {
        kept(entries.drop_first(), m)
    }
}

/// The file entries, in order.
pub open spec fn files_of(s: Seq<Entry>) -> Seq<Entry>
    decreases s.len(),
{
    if s.len() == 0 {
        Seq::empty()
    } else if !s.first().is_dir {
        seq![s.first()] + files_of(s.drop_first())
    } else {
        files_of(s.drop_first())
    }
}

/// The directory entries, in order.
pub open spec fn dirs_of(s: Seq<Entry>) -> Seq<Entry>
    decreases s.len(),
{
    if s.len() == 0 {
        Seq::empty()
    } else if s.first().is_dir {
        seq![s.first()] + dirs_of(s.drop_first())
    } else {
        dirs_of(s.drop_first())
    }
}

pub open spec fn sorted_asc(s: Seq<Entry>) -> bool {
    forall|i: int, j: int| 0 <= i < j < s.len() ==> (#[trigger] s[i]).depth <= (#[trigger] s[j]).depth
}

pub open spec fn sorted_desc(s: Seq<Entry>) -> bool {
    forall|i: int, j: int| 0 <= i < j < s.len() ==> (#[trigger] s[i]).depth >= (#[trigger] s[j]).depth
}

pub open spec fn all_wf(s: Seq<Entry>) -> bool {
    forall|i: int| 0 <= i < s.len() ==> entry_wf(#[trigger] s[i])
}

/// No two entries share a relative path.
pub open spec fn paths_distinct(s: Seq<Entry>) -> bool {
    forall|i: int, j: int|
        0 <= i < j < s.len() ==> (#[trigger] s[i]).rel_path@ != (#[trigger] s[j]).rel_path@
}

/// In a well-formed tree, an entry that is an ancestor of another is a
/// directory.
pub open spec fn tree_wf(s: Seq<Entry>) -> bool {
    forall|i: int, j: int|
        0 <= i < s.len() && 0 <= j < s.len() && ancestor_of(
            (#[trigger] s[i]).rel_path@,
            (#[trigger] s[j]).rel_path@,
        ) ==> s[i].is_dir
}

/// The forward rename order: the files of `k` first, in their given order,
/// then all of `k`'s directories, deepest first.
pub open spec fn forward_ordered(plan: Seq<Entry>, k: Seq<Entry>) -> bool {
    let fl = files_of(k).len() as int;
    &&& plan.len() == k.len()
    &&& plan.take(fl) == files_of(k)
    &&& plan.skip(fl).to_multiset() == dirs_of(k).to_multiset()
    &&& forall|i: int| fl <= i < plan.len() ==> (#[trigger] plan[i]).is_dir
    &&& sorted_desc(plan.skip(fl))
}

/// The reverse rename order: all of `k`'s directories first, shallowest
/// first, then the files of `k` in their given order.
pub open spec fn reverse_ordered(plan: Seq<Entry>, k: Seq<Entry>) -> bool {
    let dl = dirs_of(k).len() as int;
    &&& plan.len() == k.len()
    &&& plan.skip(dl) == files_of(k)
    &&& plan.take(dl).to_multiset() == dirs_of(k).to_multiset()
    &&& forall|i: int| 0 <= i < dl ==> (#[trigger] plan[i]).is_dir
    &&& sorted_asc(plan.take(dl))
}

/// Every entry of `files_of(s)` is an entry of `s`, and a file.
pub proof fn lemma_files_of(s: Seq<Entry>)
    ensures
        forall|i: int|
            0 <= i < files_of(s).len() ==> s.contains(#[trigger] files_of(s)[i])
                && !files_of(s)[i].is_dir,
    decreases s.len(),
{
    if s.len() > 0 {
        lemma_files_of(s.drop_first());
        assert forall|i: int|
            0 <= i < files_of(s).len() implies s.contains(#[trigger] files_of(s)[i])
                && !files_of(s)[i].is_dir by {
            let x = files_of(s)[i];
            if !s.first().is_dir && i == 0 {
                assert(s[0] == x);
            } else {
                let r = files_of(s.drop_first());
                if !s.first().is_dir {
                    assert(x == r[i - 1]);
                } else {
                    assert(x == r[i]);
                }
                assert(s.drop_first().contains(x));
                let j = choose|j: int| 0 <= j < s.drop_first().len() && s.drop_first()[j] == x;
                assert(s[j + 1] == x);
            }
        }
    }
}

/// Every entry of `dirs_of(s)` is an entry of `s`, and a directory.
pub proof fn lemma_dirs_of(s: Seq<Entry>)
    ensures
        forall|i: int|
            0 <= i < dirs_of(s).len() ==> s.contains(#[trigger] dirs_of(s)[i])
                && dirs_of(s)[i].is_dir,
    decreases s.len(),
{
    if s.len() > 0 {
        lemma_dirs_of(s.drop_first());
        assert forall|i: int|
            0 <= i < dirs_of(s).len() implies s.contains(#[trigger] dirs_of(s)[i])
                && dirs_of(s)[i].is_dir by {
            let x = dirs_of(s)[i];
            if s.first().is_dir && i == 0 {
                assert(s[0] == x);
            } else {
                let r = dirs_of(s.drop_first());
                if s.first().is_dir {
                    assert(x == r[i - 1]);
                } else {
                    assert(x == r[i]);
                }
                assert(s.drop_first().contains(x));
                let j = choose|j: int| 0 <= j < s.drop_first().len() && s.drop_first()[j] == x;
                assert(s[j + 1] == x);
            }
        }
    }
}

/// Every entry of `kept(s, m)` is an entry of `s`, not under a key of `m`.
pub proof fn lemma_kept(s: Seq<Entry>, m: Map<Seq<char>, Seq<char>>)
    ensures
        forall|i: int|
            0 <= i < kept(s, m).len() ==> s.contains(#[trigger] kept(s, m)[i])
                && !m.contains_key(kept(s, m)[i].rel_path@),
    decreases s.len(),
{
    if s.len() > 0 {
        lemma_kept(s.drop_first(), m);
        assert forall|i: int|
            0 <= i < kept(s, m).len() implies s.contains(#[trigger] kept(s, m)[i])
                && !m.contains_key(kept(s, m)[i].rel_path@) by {
            let x = kept(s, m)[i];
            if !m.contains_key(s.first().rel_path@) && i == 0 {
                assert(s[0] == x);
            } else {
                let r = kept(s.drop_first(), m);
                if !m.contains_key(s.first().rel_path@) {
                    assert(x == r[i - 1]);
                } else {
                    assert(x == r[i]);
                }
                assert(s.drop_first().contains(x));
                let j = choose|j: int| 0 <= j < s.drop_first().len() && s.drop_first()[j] == x;
                assert(s[j + 1] == x);
            }
        }
    }
}

/// A sequence's files and directories together make up the whole of it.
pub proof fn lemma_partition_len(s: Seq<Entry>)
    ensures
        files_of(s).len() + dirs_of(s).len() == s.len(),
    decreases s.len(),
{
    if s.len() > 0 {
        lemma_partition_len(s.drop_first());
    }
}

/// A subsequence of entries with pairwise distinct paths keeps them
/// pairwise distinct.
pub proof fn lemma_distinct_drop_first(s: Seq<Entry>)
    requires
        paths_distinct(s),
        s.len() > 0,
    ensures
        paths_distinct(s.drop_first()),
{
    assert(forall|j: int| 0 <= j < s.drop_first().len() ==> s.drop_first()[j] == #[trigger] s[j + 1]);
}

pub proof fn lemma_files_of_distinct(s: Seq<Entry>)
    requires
        paths_distinct(s),
    ensures
        paths_distinct(files_of(s)),
    decreases s.len(),
{
    if s.len() > 0 {
        lemma_distinct_drop_first(s);
        lemma_files_of_distinct(s.drop_first());
        lemma_files_of(s.drop_first());
        if !s.first().is_dir {
            let f = files_of(s);
            assert forall|i: int, j: int|
                0 <= i < j < f.len() implies (#[trigger] f[i]).rel_path@ != (
            #[trigger] f[j]).rel_path@ by {
                if i == 0 {
                    let x = f[j];
                    assert(files_of(s.drop_first()).contains(x));
                    let a = choose|a: int|
                        0 <= a < s.drop_first().len() && s.drop_first()[a] == x;
                    assert(s[a + 1] == x);
                    assert(s[0].rel_path@ != s[a + 1].rel_path@);
                } else {
                    assert(f[i] == files_of(s.drop_first())[i - 1]);
                    assert(f[j] == files_of(s.drop_first())[j - 1]);
                }
            }
        }
    }
}

pub proof fn lemma_dirs_of_distinct(s: Seq<Entry>)
    requires
        paths_distinct(s),
    ensures
        paths_distinct(dirs_of(s)),
    decreases s.len(),
{
    if s.len() > 0 {
        lemma_distinct_drop_first(s);
        lemma_dirs_of_distinct(s.drop_first());
        lemma_dirs_of(s.drop_first());
        if s.first().is_dir {
            let f = dirs_of(s);
            assert forall|i: int, j: int|
                0 <= i < j < f.len() implies (#[trigger] f[i]).rel_path@ != (
            #[trigger] f[j]).rel_path@ by {
                if i == 0 {
                    let x = f[j];
                    assert(dirs_of(s.drop_first()).contains(x));
                    let a = choose|a: int|
                        0 <= a < s.drop_first().len() && s.drop_first()[a] == x;
                    assert(s[a + 1] == x);
                    assert(s[0].rel_path@ != s[a + 1].rel_path@);
                } else {
                    assert(f[i] == dirs_of(s.drop_first())[i - 1]);
                    assert(f[j] == dirs_of(s.drop_first())[j - 1]);
                }
            }
        }
    }
}

pub proof fn lemma_kept_distinct(s: Seq<Entry>, m: Map<Seq<char>, Seq<char>>)
    requires
        paths_distinct(s),
    ensures
        paths_distinct(kept(s, m)),
    decreases s.len(),
{
    if s.len() > 0 {
        lemma_distinct_drop_first(s);
        lemma_kept_distinct(s.drop_first(), m);
        lemma_kept(s.drop_first(), m);
        if !m.contains_key(s.first().rel_path@) {
            let f = kept(s, m);
            assert forall|i: int, j: int|
                0 <= i < j < f.len() implies (#[trigger] f[i]).rel_path@ != (
            #[trigger] f[j]).rel_path@ by {
                if i == 0 {
                    let x = f[j];
                    assert(kept(s.drop_first(), m).contains(x));
                    let a = choose|a: int|
                        0 <= a < s.drop_first().len() && s.drop_first()[a] == x;
                    assert(s[a + 1] == x);
                    assert(s[0].rel_path@ != s[a + 1].rel_path@);
                } else {
                    assert(f[i] == kept(s.drop_first(), m)[i - 1]);
                    assert(f[j] == kept(s.drop_first(), m)[j - 1]);
                }
            }
        }
    }
}

/// Path-distinctness survives any reordering.
pub proof fn lemma_distinct_permutation(a: Seq<Entry>, b: Seq<Entry>)
    requires
        a.to_multiset() == b.to_multiset(),
        paths_distinct(a),
    ensures
        paths_distinct(b),
{
    broadcast use vstd::seq_lib::group_to_multiset_ensures;

    assert forall|i: int, j: int|
        0 <= i < j < b.len() implies (#[trigger] b[i]).rel_path@ != (#[trigger] b[j]).rel_path@ by {
        assert(forall|p: int, q: int|
            0 <= p < q < a.len() ==> #[trigger] a[p] != #[trigger] a[q] || a[p].rel_path@
                != a[q].rel_path@);
        assert(a.no_duplicates());
        a.lemma_multiset_has_no_duplicates();
        b.lemma_multiset_has_no_duplicates_conv();
        if b[i].rel_path@ == b[j].rel_path@ {
            let x = b[i];
            let y = b[j];
            assert(b.contains(x) && b.contains(y));
            assert(b.to_multiset().count(x) > 0 && b.to_multiset().count(y) > 0);
            assert(a.to_multiset().count(x) > 0 && a.to_multiset().count(y) > 0);
            assert(a.contains(x) && a.contains(y));
            let p = choose|p: int| 0 <= p < a.len() && a[p] == x;
            let q = choose|q: int| 0 <= q < a.len() && a[q] == y;
            assert(x != y);
            assert(a[p].rel_path@ != a[q].rel_path@);
        }
    }
}

proof fn lemma_forward_elem(plan: Seq<Entry>, k: Seq<Entry>, i: int)
    requires
        forward_ordered(plan, k),
        0 <= i < plan.len(),
    ensures
        k.contains(plan[i]),
        i < files_of(k).len() ==> !plan[i].is_dir,
{
    broadcast use vstd::seq_lib::group_to_multiset_ensures;

    let fl = files_of(k).len() as int;
    lemma_partition_len(k);
    lemma_files_of(k);
    lemma_dirs_of(k);
    let x = plan[i];
    if i < fl {
        assert(plan.take(fl)[i] == x);
        assert(x == files_of(k)[i]);
    } else {
        assert(plan.skip(fl)[i - fl] == x);
        assert(plan.skip(fl).contains(x));
        assert(plan.skip(fl).to_multiset().count(x) > 0);
        assert(dirs_of(k).to_multiset().count(x) > 0);
        assert(dirs_of(k).contains(x));
    }
}

proof fn lemma_reverse_elem(plan: Seq<Entry>, k: Seq<Entry>, i: int)
    requires
        reverse_ordered(plan, k),
        0 <= i < plan.len(),
    ensures
        k.contains(plan[i]),
        i >= dirs_of(k).len() ==> !plan[i].is_dir,
{
    broadcast use vstd::seq_lib::group_to_multiset_ensures;

    let dl = dirs_of(k).len() as int;
    lemma_partition_len(k);
    lemma_files_of(k);
    lemma_dirs_of(k);
    let x = plan[i];
    if i < dl {
        assert(plan.take(dl)[i] == x);
        assert(plan.take(dl).contains(x));
        assert(plan.take(dl).to_multiset().count(x) > 0);
        assert(dirs_of(k).to_multiset().count(x) > 0);
        assert(dirs_of(k).contains(x));
    } else {
        assert(plan.skip(dl)[i - dl] == x);
        assert(x == files_of(k)[i - dl]);
    }
}

/// Depth-safety of the forward order: no entry is renamed after an ancestor
/// of it has been renamed, so when an entry's turn comes its recorded
/// relative path is still its on-disk path, and the table row written for
/// it carries its pre-rename relative path exactly.
pub proof fn lemma_forward_plan_safe(
    entries: Seq<Entry>,
    m: Map<Seq<char>, Seq<char>>,
    plan: Seq<Entry>,
)
    requires
        forward_ordered(plan, kept(entries, m)),
        all_wf(entries),
        tree_wf(entries),
    ensures
        forall|i: int, j: int|
            0 <= i < j < plan.len() ==> !ancestor_of(
                (#[trigger] plan[i]).rel_path@,
                (#[trigger] plan[j]).rel_path@,
            ),
{
    let k = kept(entries, m);
    let fl = files_of(k).len() as int;
    assert forall|i: int, j: int|
        0 <= i < j < plan.len() implies !ancestor_of(
        (#[trigger] plan[i]).rel_path@,
        (#[trigger] plan[j]).rel_path@,
    ) by {
        if ancestor_of(plan[i].rel_path@, plan[j].rel_path@) {
            lemma_forward_elem(plan, k, i);
            lemma_forward_elem(plan, k, j);
            lemma_kept(entries, m);
            let a = choose|a: int| 0 <= a < k.len() && k[a] == plan[i];
            let b = choose|b: int| 0 <= b < k.len() && k[b] == plan[j];
            assert(entries.contains(k[a]) && entries.contains(k[b]));
            let p = choose|p: int| 0 <= p < entries.len() && entries[p] == plan[i];
            let q = choose|q: int| 0 <= q < entries.len() && entries[q] == plan[j];
            assert(ancestor_of(entries[p].rel_path@, entries[q].rel_path@));
            assert(entries[p].is_dir);
            assert(i >= fl);
            assert(plan.skip(fl)[i - fl] == plan[i]);
            assert(plan.skip(fl)[j - fl] == plan[j]);
            assert(plan[i].depth >= plan[j].depth);
            assert(entry_wf(entries[p]) && entry_wf(entries[q]));
            assert(plan[i].rel_path@.len() < plan[j].rel_path@.len());
            assert(false);
        }
    }
}

/// Depth-safety of the reverse order: no entry is restored before all of
/// its ancestors have been, so the path that joins the restored names of
/// its ancestors with its own identifier is its on-disk path when its turn
/// comes.
pub proof fn lemma_reverse_plan_safe(entries: Seq<Entry>, plan: Seq<Entry>)
    requires
        reverse_ordered(plan, entries),
        all_wf(entries),
        tree_wf(entries),
    ensures
        forall|i: int, j: int|
            0 <= i < j < plan.len() ==> !ancestor_of(
                (#[trigger] plan[j]).rel_path@,
                (#[trigger] plan[i]).rel_path@,
            ),
{
    let dl = dirs_of(entries).len() as int;
    lemma_partition_len(entries);
    assert forall|i: int, j: int|
        0 <= i < j < plan.len() implies !ancestor_of(
        (#[trigger] plan[j]).rel_path@,
        (#[trigger] plan[i]).rel_path@,
    ) by {
        lemma_partition_len(entries);
        if ancestor_of(plan[j].rel_path@, plan[i].rel_path@) {
            lemma_reverse_elem(plan, entries, i);
            lemma_reverse_elem(plan, entries, j);
            let p = choose|p: int| 0 <= p < entries.len() && entries[p] == plan[i];
            let q = choose|q: int| 0 <= q < entries.len() && entries[q] == plan[j];
            assert(ancestor_of(entries[q].rel_path@, entries[p].rel_path@));
            assert(entries[q].is_dir);
            assert(j < dl);
            assert(plan.take(dl)[i] == plan[i]);
            assert(plan.take(dl)[j] == plan[j]);
            assert(plan[i].depth <= plan[j].depth);
            assert(entry_wf(entries[p]) && entry_wf(entries[q]));
            assert(plan[j].rel_path@.len() < plan[i].rel_path@.len());
            assert(false);
        }
    }
}

/// In the forward order, an entry still stands at its recorded relative
/// path when its turn comes: none of the earlier renames — whatever names
/// they moved their entries to — touches it, since an entry's path only
/// moves when the entry itself or an ancestor of it is renamed.
pub proof fn lemma_forward_sources_stay_valid(
    entries: Seq<Entry>,
    m: Map<Seq<char>, Seq<char>>,
    plan: Seq<Entry>,
)
    requires
        forward_ordered(plan, kept(entries, m)),
        all_wf(entries),
        tree_wf(entries),
        paths_distinct(entries),
    ensures
        forall|j: int, i: int, to: Seq<char>|
            0 <= j < i < plan.len() ==> #[trigger] crate::paths::moved(
                plan[i].rel_path@,
                plan[j].rel_path@,
                to,
            ) == plan[i].rel_path@,
{
    let k = kept(entries, m);
    lemma_forward_plan_safe(entries, m, plan);
    lemma_kept_distinct(entries, m);
    assert forall|j: int, i: int, to: Seq<char>|
        0 <= j < i < plan.len() implies #[trigger] crate::paths::moved(
        plan[i].rel_path@,
        plan[j].rel_path@,
        to,
    ) == plan[i].rel_path@ by {
        lemma_forward_elem(plan, k, i);
        lemma_forward_elem(plan, k, j);
        let fl = files_of(k).len() as int;
        lemma_partition_len(k);
        assert(!ancestor_of(plan[j].rel_path@, plan[i].rel_path@));
        if plan[i].rel_path@ == plan[j].rel_path@ {
            let a = choose|a: int| 0 <= a < k.len() && k[a] == plan[i];
            let b = choose|b: int| 0 <= b < k.len() && k[b] == plan[j];
            if plan[i] == plan[j] {
                if i < fl && j < fl {
                    assert(plan.take(fl)[i] == plan[i]);
                    assert(plan.take(fl)[j] == plan[j]);
                    assert(files_of(k)[i].rel_path@ != files_of(k)[j].rel_path@) by {
                        lemma_files_of_distinct(k);
                    }
                } else if i >= fl && j >= fl {
                    broadcast use vstd::seq_lib::group_to_multiset_ensures;

                    lemma_dirs_of_distinct(k);
                    lemma_distinct_permutation(dirs_of(k), plan.skip(fl));
                    assert(plan.skip(fl)[i - fl] == plan[i]);
                    assert(plan.skip(fl)[j - fl] == plan[j]);
                } else {
                    assert(plan.take(fl)[j] == plan[j]);
                    assert(plan[j] == files_of(k)[j]);
                    lemma_files_of(k);
                    assert(!plan[j].is_dir);
                    assert(plan[i].is_dir);
                }
            } else {
                assert(a != b);
                assert(k[a].rel_path@ != k[b].rel_path@);
            }
            assert(false);
        }
    }
}

/// Idempotence of the forward pass: when every entry's relative path is
/// already a key of the table — as it is on a second run with no manual
/// changes in between — nothing is left to schedule, so no entry is renamed
/// a second time.
pub proof fn lemma_second_pass_empty(entries: Seq<Entry>, m: Map<Seq<char>, Seq<char>>)
    requires
        forall|i: int|
            0 <= i < entries.len() ==> m.contains_key((#[trigger] entries[i]).rel_path@),
    ensures
        kept(entries, m).len() == 0,
    decreases entries.len(),
{
    if entries.len() > 0 {
        assert(entries[0] == entries.first());
        assert(forall|j: int|
            0 <= j < entries.drop_first().len() ==> #[trigger] entries.drop_first()[j]
                == entries[j + 1]);
        lemma_second_pass_empty(entries.drop_first(), m);
    }
}

/// Filters the entries a forward pass still has to process: those whose
/// path the table does not yet know, in discovery order.
fn keep_new(entries: Vec<Entry>, existing: &MappingTable) -> (r: Vec<Entry>)
    ensures
        r@ == kept(entries@, existing@),
{
    let ghost orig = entries@;
    let mut src = entries;
    let mut out: Vec<Entry> = Vec::new();
    while src.len() > 0
        invariant
            kept(orig, existing@) == out@ + kept(src@, existing@),
        decreases src.len(),
    {
        let ghost pre = src@;
        let e = src.remove(0);
        proof {
            assert(src@ =~= pre.drop_first());
        }
        if !existing.contains_key(&e.rel_path) {
            out.push(e);
            proof {
                assert(out@ + kept(src@, existing@) =~= out@.drop_last() + (seq![pre.first()]
                    + kept(pre.drop_first(), existing@)));
            }
        }
        proof {
            assert(kept(orig, existing@) =~= out@ + kept(src@, existing@));
        }
    }
    proof {
        assert(kept(src@, existing@) =~= Seq::<Entry>::empty());
        assert(out@ =~= kept(orig, existing@));
    }
    out
}

/// Splits the entries into files and directories, keeping discovery order
/// inside each part.
fn partition_entries(entries: Vec<Entry>) -> (r: (Vec<Entry>, Vec<Entry>))
    ensures
        r.0@ == files_of(entries@),
        r.1@ == dirs_of(entries@),
{
    let ghost orig = entries@;
    let mut src = entries;
    let mut files: Vec<Entry> = Vec::new();
    let mut dirs: Vec<Entry> = Vec::new();
    while src.len() > 0
        invariant
            files_of(orig) == files@ + files_of(src@),
            dirs_of(orig) == dirs@ + dirs_of(src@),
        decreases src.len(),
    {
        let ghost pre = src@;
        let e = src.remove(0);
        proof {
            assert(src@ =~= pre.drop_first());
        }
        if e.is_dir {
            dirs.push(e);
            proof {
                assert(dirs@ + dirs_of(src@) =~= dirs@.drop_last() + (seq![pre.first()]
                    + dirs_of(pre.drop_first())));
            }
        } else {
            files.push(e);
            proof {
                assert(files@ + files_of(src@) =~= files@.drop_last() + (seq![pre.first()]
                    + files_of(pre.drop_first())));
            }
        }
        proof {
            assert(files_of(orig) =~= files@ + files_of(src@));
            assert(dirs_of(orig) =~= dirs@ + dirs_of(src@));
        }
    }
    proof {
        assert(files_of(src@) =~= Seq::<Entry>::empty());
        assert(dirs_of(src@) =~= Seq::<Entry>::empty());
        assert(files@ =~= files_of(orig));
        assert(dirs@ =~= dirs_of(orig));
    }
    (files, dirs)
}

/// Sorts entries by their depth proxy, shallowest first.
fn sort_by_depth(v: Vec<Entry>) -> (r: Vec<Entry>)
    ensures
        r@.to_multiset() == v@.to_multiset(),
        r@.len() == v@.len(),
        sorted_asc(r@),
{
    broadcast use vstd::seq_lib::group_to_multiset_ensures;

    let ghost orig = v@;
    let mut src = v;
    let mut r: Vec<Entry> = Vec::new();
    while src.len() > 0
        invariant
            r@.to_multiset().add(src@.to_multiset()) == orig.to_multiset(),
            r@.len() + src@.len() == orig.len(),
            sorted_asc(r@),
        decreases src.len(),
    {
        broadcast use vstd::seq_lib::group_to_multiset_ensures;

        let ghost pre = src@;
        let e = src.remove(0);
        let mut j = r.len();
        while j > 0 && r[j - 1].depth > e.depth
            invariant
                j <= r@.len(),
                forall|m: int| j <= m < r@.len() ==> (#[trigger] r@[m]).depth > e.depth,
            decreases j,
        {
            j = j - 1;
        }
        let ghost rpre = r@;
        r.insert(j, e);
        proof {
            assert(r@.to_multiset() =~= rpre.to_multiset().insert(e));
            assert(pre[0] == e);
            assert(pre.to_multiset() =~= src@.to_multiset().insert(e));
            assert(r@.to_multiset().add(src@.to_multiset()) =~= orig.to_multiset());
            assert forall|a: int, b: int|
                0 <= a < b < r@.len() implies (#[trigger] r@[a]).depth <= (
            #[trigger] r@[b]).depth by {
                if b < j {
                    assert(r@[a] == rpre[a] && r@[b] == rpre[b]);
                } else if a > j {
                    assert(r@[a] == rpre[a - 1] && r@[b] == rpre[b - 1]);
                } else if b == j {
                    assert(r@[a] == rpre[a]);
                    if j > 0 {
                        assert(rpre[j - 1].depth <= e.depth);
                        assert(rpre[a].depth <= rpre[j - 1].depth);
                    }
                } else if a == j {
                    assert(r@[b] == rpre[b - 1]);
                    assert(rpre[b - 1].depth > e.depth);
                } else {
                    assert(r@[a] == rpre[a] && r@[b] == rpre[b - 1]);
                    assert(rpre[b - 1].depth > e.depth);
                    if j > 0 {
                        assert(rpre[a].depth <= rpre[j - 1].depth);
                        assert(rpre[j - 1].depth <= e.depth);
                    }
                }
            }
        }
    }
    proof {
        assert(src@.to_multiset() =~= Multiset::<Entry>::empty());
        assert(r@.to_multiset() =~= orig.to_multiset());
    }
    r
}

/// Reverses the order of the entries.
fn reverse_entries(v: Vec<Entry>) -> (r: Vec<Entry>)
    ensures
        r@ == v@.reverse(),
{
    let ghost orig = v@;
    let mut src = v;
    let mut r: Vec<Entry> = Vec::new();
    while src.len() > 0
        invariant
            src@ == orig.take(src@.len() as int),
            r@.len() + src@.len() == orig.len(),
            forall|k: int| 0 <= k < r@.len() ==> #[trigger] r@[k] == orig[orig.len() - 1 - k],
        decreases src.len(),
    {
        let ghost pre = src@;
        match src.pop() {
            Some(e) => {
                proof {
                    assert(pre.drop_last() =~= orig.take(pre.len() - 1));
                    assert(e == orig[pre.len() - 1]);
                }
                r.push(e);
            },
            None => {
                proof {
                    assert(false);
                }
            },
        }
    }
    proof {
        assert(r@ =~= orig.reverse());
    }
    r
}

/// Produces the forward pass's rename order for the entries the walk found:
/// the entries the table does not yet know, files first in discovery order,
/// then directories deepest first.
pub fn schedule_forward(entries: Vec<Entry>, existing: &MappingTable) -> (plan: Vec<Entry>)
    ensures
        forward_ordered(plan@, kept(entries@, existing@)),
        paths_distinct(entries@) ==> paths_distinct(plan@),
{
    let ghost orig = entries@;
    let ghost k = kept(entries@, existing@);
    let kept_v = keep_new(entries, existing);
    let (files, dirs) = partition_entries(kept_v);
    let ghost fl = files@.len() as int;
    let dirs_sorted = sort_by_depth(dirs);
    let mut plan = files;
    let mut dirs_desc = reverse_entries(dirs_sorted);
    proof {
        dirs_of(k).lemma_reverse_to_multiset();
        assert(dirs_sorted@.reverse().to_multiset() =~= dirs_of(k).to_multiset()) by {
            dirs_sorted@.lemma_reverse_to_multiset();
        }
    }
    plan.append(&mut dirs_desc);
    proof {
        assert(plan@.take(fl) =~= files_of(k));
        assert(plan@.skip(fl) =~= dirs_sorted@.reverse());
        lemma_partition_len(k);
        assert forall|i: int| fl <= i < plan@.len() implies (#[trigger] plan@[i]).is_dir by {
            broadcast use vstd::seq_lib::group_to_multiset_ensures;

            let x = plan@[i];
            assert(plan@.skip(fl)[i - fl] == x);
            assert(plan@.skip(fl).contains(x));
            assert(plan@.skip(fl).to_multiset().count(x) > 0);
            assert(dirs_of(k).to_multiset().count(x) > 0);
            assert(dirs_of(k).contains(x));
            lemma_dirs_of(k);
            let a = choose|a: int| 0 <= a < dirs_of(k).len() && dirs_of(k)[a] == x;
        }
        assert(sorted_desc(plan@.skip(fl))) by {
            assert(forall|i: int|
                0 <= i < dirs_sorted@.len() ==> #[trigger] dirs_sorted@.reverse()[i]
                    == dirs_sorted@[dirs_sorted@.len() - 1 - i]);
        }
        if paths_distinct(orig) {
            lemma_kept_distinct(orig, existing@);
            lemma_files_of_distinct(k);
            lemma_dirs_of_distinct(k);
            lemma_distinct_permutation(dirs_of(k), plan@.skip(fl));
            lemma_kept(orig, existing@);
            lemma_files_of(k);
            assert forall|i: int, j: int|
                0 <= i < j < plan@.len() implies (#[trigger] plan@[i]).rel_path@ != (
            #[trigger] plan@[j]).rel_path@ by {
                broadcast use vstd::seq_lib::group_to_multiset_ensures;

                if i < fl && j < fl {
                    assert(plan@[i] == files_of(k)[i] && plan@[j] == files_of(k)[j]);
                } else if i >= fl && j >= fl {
                    assert(plan@.skip(fl)[i - fl] == plan@[i]);
                    assert(plan@.skip(fl)[j - fl] == plan@[j]);
                } else {
                    let x = plan@[i];
                    let y = plan@[j];
                    assert(x == files_of(k)[i]);
                    assert(!x.is_dir);
                    assert(y.is_dir);
                    assert(k.contains(x));
                    assert(plan@.skip(fl)[j - fl] == y);
                    assert(plan@.skip(fl).contains(y));
                    assert(plan@.skip(fl).to_multiset().count(y) > 0);
                    assert(dirs_of(k).to_multiset().count(y) > 0);
                    assert(dirs_of(k).contains(y));
                    lemma_dirs_of(k);
                    assert(k.contains(y));
                    let a = choose|a: int| 0 <= a < k.len() && k[a] == x;
                    let b = choose|b: int| 0 <= b < k.len() && k[b] == y;
                    assert(x != y);
                    assert(a != b);
                    assert(k[a].rel_path@ != k[b].rel_path@);
                }
            }
        }
    }
    plan
}

/// Produces the reverse pass's rename order for the entries of the table:
/// directories shallowest first, then files in their given order.
pub fn schedule_reverse(entries: Vec<Entry>) -> (plan: Vec<Entry>)
    ensures
        reverse_ordered(plan@, entries@),
        paths_distinct(entries@) ==> paths_distinct(plan@),
{
    let ghost orig = entries@;
    let (files, dirs) = partition_entries(entries);
    let ghost dl = dirs@.len() as int;
    let mut plan = sort_by_depth(dirs);
    let ghost sorted_seq = plan@;
    let mut files_m = files;
    plan.append(&mut files_m);
    proof {
        lemma_partition_len(orig);
        assert(plan@.skip(dl) =~= files_of(orig));
        assert(plan@.take(dl) =~= sorted_seq);
        assert forall|i: int| 0 <= i < dl implies (#[trigger] plan@[i]).is_dir by {
            broadcast use vstd::seq_lib::group_to_multiset_ensures;

            let x = plan@[i];
            assert(plan@.take(dl)[i] == x);
            assert(plan@.take(dl).contains(x));
            assert(plan@.take(dl).to_multiset().count(x) > 0);
            assert(dirs_of(orig).to_multiset().count(x) > 0);
            assert(dirs_of(orig).contains(x));
            lemma_dirs_of(orig);
            let a = choose|a: int| 0 <= a < dirs_of(orig).len() && dirs_of(orig)[a] == x;
        }
        assert(sorted_asc(plan@.take(dl)));
        if paths_distinct(orig) {
            lemma_files_of_distinct(orig);
            lemma_dirs_of_distinct(orig);
            lemma_distinct_permutation(dirs_of(orig), plan@.take(dl));
            lemma_files_of(orig);
            lemma_dirs_of(orig);
            assert forall|i: int, j: int|
                0 <= i < j < plan@.len() implies (#[trigger] plan@[i]).rel_path@ != (
            #[trigger] plan@[j]).rel_path@ by {
                if i < dl && j < dl {
                    assert(plan@.take(dl)[i] == plan@[i]);
                    assert(plan@.take(dl)[j] == plan@[j]);
                } else if i >= dl && j >= dl {
                    assert(plan@[i] == files_of(orig)[i - dl] && plan@[j] == files_of(orig)[j
                        - dl]);
                } else {
                    broadcast use vstd::seq_lib::group_to_multiset_ensures;

                    let x = plan@[i];
                    let y = plan@[j];
                    assert(plan@.take(dl)[i] == x);
                    assert(plan@.take(dl).contains(x));
                    assert(plan@.take(dl).to_multiset().count(x) > 0);
                    assert(dirs_of(orig).to_multiset().count(x) > 0);
                    assert(dirs_of(orig).contains(x));
                    assert(orig.contains(x));
                    assert(x.is_dir);
                    assert(y == files_of(orig)[j - dl]);
                    assert(!y.is_dir);
                    assert(orig.contains(y));
                    let a = choose|a: int| 0 <= a < orig.len() && orig[a] == x;
                    let b = choose|b: int| 0 <= b < orig.len() && orig[b] == y;
                    assert(x != y);
                    assert(a != b);
                    assert(orig[a].rel_path@ != orig[b].rel_path@);
                }
            }
        }
    }
    plan
}

} // verus!
