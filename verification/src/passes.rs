//! The two passes: what each one renames and what it records.
//!
//! The functions here compute renames; performing them on disk is the
//! caller's part.  A forward pass draws a fresh identifier for every
//! scheduled entry, records `relative path -> identifier`, and emits the
//! rename onto the masked path.  A reverse pass emits, for every entry of
//! the table, the inverse rename, from the masked path back onto the
//! original relative path.  Renames that the caller could not perform are
//! gathered into a residual table.

use vstd::prelude::*;
use crate::entry::Entry;
use crate::ident::fresh_identifier;
use crate::ident::id_wf;
use crate::paths::masked_path;
use crate::paths::rename_target;
use crate::schedule::paths_distinct;
use crate::table::MappingTable;

verus! {

/// One rename to perform on disk; both paths are relative to the root.
pub struct RenameOp {
    pub from: String,
    pub to: String,
}

/// For each scheduled entry, in order: a fresh identifier is drawn, the
/// entry's path is recorded under it in the delta table, and the rename of
/// the entry's relative path onto its masked path is emitted.  The delta's
/// keys are exactly the scheduled paths.
pub fn forward_ops(plan: &Vec<Entry>) -> (r: (Vec<RenameOp>, MappingTable))
    requires
        paths_distinct(plan@),
    ensures
        r.0@.len() == plan@.len(),
        r.1.wf(),
        forall|i: int| 0 <= i < plan@.len() ==> (#[trigger] r.0@[i]).from@ == plan@[i].rel_path@,
        forall|i: int|
            0 <= i < plan@.len() ==> r.1@.contains_key((#[trigger] plan@[i]).rel_path@),
        forall|i: int|
            0 <= i < plan@.len() ==> id_wf(r.1@[(#[trigger] plan@[i]).rel_path@])
                && r.1@[plan@[i].rel_path@].len() == 36,
        forall|i: int|
            0 <= i < plan@.len() ==> (#[trigger] r.0@[i]).to@ == masked_path(
                plan@[i].rel_path@,
                r.1@[plan@[i].rel_path@],
                plan@[i].is_dir,
            ),
        forall|k: Seq<char>|
            r.1@.contains_key(k) ==> exists|i: int|
                0 <= i < plan@.len() && (#[trigger] plan@[i]).rel_path@ == k,
{
    let mut ops: Vec<RenameOp> = Vec::new();
    let mut delta = MappingTable::new();
    let n = plan.len();
    let mut i: usize = 0;
    while i < n
        invariant
            i <= n,
            n == plan@.len(),
            paths_distinct(plan@),
            ops@.len() == i,
            delta.wf(),
            forall|j: int| 0 <= j < i ==> (#[trigger] ops@[j]).from@ == plan@[j].rel_path@,
            forall|j: int|
                0 <= j < i ==> delta@.contains_key((#[trigger] plan@[j]).rel_path@),
            forall|j: int|
                0 <= j < i ==> id_wf(delta@[(#[trigger] plan@[j]).rel_path@])
                    && delta@[plan@[j].rel_path@].len() == 36,
            forall|j: int|
                0 <= j < i ==> (#[trigger] ops@[j]).to@ == masked_path(
                    plan@[j].rel_path@,
                    delta@[plan@[j].rel_path@],
                    plan@[j].is_dir,
                ),
            forall|k: Seq<char>|
                delta@.contains_key(k) ==> exists|j: int|
                    0 <= j < i && (#[trigger] plan@[j]).rel_path@ == k,
        decreases n - i,
    {
        let key = plan[i].rel_path.clone();
        let id = fresh_identifier();
        let to = rename_target(plan[i].rel_path.as_str(), id.as_str(), plan[i].is_dir);
        proof {
            if delta@.contains_key(key@) {
                let j = choose|j: int| 0 <= j < i && (#[trigger] plan@[j]).rel_path@ == key@;
                assert(plan@[j].rel_path@ != plan@[i as int].rel_path@);
                assert(false);
            }
        }
        let from = key.clone();
        delta.insert(key, id);
        ops.push(RenameOp { from, to });
        i = i + 1;
    }
    (ops, delta)
}

/// For each entry of the reverse schedule, in order: the rename that undoes
/// its forward rename, from its masked on-disk path back onto its original
/// relative path, with the identifier the table stores for it.
pub fn reverse_ops(plan: &Vec<Entry>, table: &MappingTable) -> (ops: Vec<RenameOp>)
    requires
        table.wf(),
        forall|i: int|
            0 <= i < plan@.len() ==> table@.contains_key((#[trigger] plan@[i]).rel_path@),
    ensures
        ops@.len() == plan@.len(),
        forall|i: int|
            0 <= i < plan@.len() ==> (#[trigger] ops@[i]).from@ == masked_path(
                plan@[i].rel_path@,
                table@[plan@[i].rel_path@],
                plan@[i].is_dir,
            ),
        forall|i: int| 0 <= i < plan@.len() ==> (#[trigger] ops@[i]).to@ == plan@[i].rel_path@,
{
    let mut ops: Vec<RenameOp> = Vec::new();
    let n = plan.len();
    let mut i: usize = 0;
    while i < n
        invariant
            i <= n,
            n == plan@.len(),
            table.wf(),
            forall|j: int|
                0 <= j < n ==> table@.contains_key((#[trigger] plan@[j]).rel_path@),
            ops@.len() == i,
            forall|j: int|
                0 <= j < i ==> (#[trigger] ops@[j]).from@ == masked_path(
                    plan@[j].rel_path@,
                    table@[plan@[j].rel_path@],
                    plan@[j].is_dir,
                ),
            forall|j: int| 0 <= j < i ==> (#[trigger] ops@[j]).to@ == plan@[j].rel_path@,
        decreases n - i,
    {
        match table.get(&plan[i].rel_path) {
            Some(id) => {
                let from = rename_target(plan[i].rel_path.as_str(), id.as_str(), plan[i].is_dir);
                let to = plan[i].rel_path.clone();
                ops.push(RenameOp { from, to });
            },
            None => {
                proof {
                    assert(false);
                }
            },
        }
        i = i + 1;
    }
    ops
}

/// The rows of the table whose renames could not be performed: `failed[i]`
/// says that the rename of `plan[i]` failed.  The pass goes on past such an
/// entry; its row is surfaced here instead, still under its original
/// relative path.
pub fn residual_table(plan: &Vec<Entry>, table: &MappingTable, failed: &Vec<bool>) -> (r:
    MappingTable)
    requires
        table.wf(),
        paths_distinct(plan@),
        failed@.len() == plan@.len(),
        forall|i: int|
            0 <= i < plan@.len() ==> table@.contains_key((#[trigger] plan@[i]).rel_path@),
    ensures
        r.wf(),
        forall|i: int|
            0 <= i < plan@.len() && failed@[i] ==> r@.contains_key(
                (#[trigger] plan@[i]).rel_path@,
            ) && r@[plan@[i].rel_path@] == table@[plan@[i].rel_path@],
        forall|k: Seq<char>|
            r@.contains_key(k) ==> exists|i: int|
                0 <= i < plan@.len() && failed@[i] && (#[trigger] plan@[i]).rel_path@ == k,
        (forall|i: int| 0 <= i < failed@.len() ==> !failed@[i]) ==> r@
            == Map::<Seq<char>, Seq<char>>::empty() && r.pairs_seq().len() == 0,
{
    let mut r = MappingTable::new();
    let n = plan.len();
    let mut i: usize = 0;
    while i < n
        invariant
            i <= n,
            n == plan@.len(),
            table.wf(),
            paths_distinct(plan@),
            failed@.len() == plan@.len(),
            forall|j: int|
                0 <= j < n ==> table@.contains_key((#[trigger] plan@[j]).rel_path@),
            r.wf(),
            forall|j: int|
                0 <= j < i && failed@[j] ==> r@.contains_key((#[trigger] plan@[j]).rel_path@)
                    && r@[plan@[j].rel_path@] == table@[plan@[j].rel_path@],
            forall|k: Seq<char>|
                r@.contains_key(k) ==> exists|j: int|
                    0 <= j < i && failed@[j] && (#[trigger] plan@[j]).rel_path@ == k,
            (forall|j: int| 0 <= j < i ==> !failed@[j]) ==> r@
                == Map::<Seq<char>, Seq<char>>::empty() && r.pairs_seq().len() == 0,
        decreases n - i,
    {
        if failed[i] {
            match table.get(&plan[i].rel_path) {
                Some(id) => {
                    let key = plan[i].rel_path.clone();
                    let val = id.clone();
                    proof {
                        if r@.contains_key(key@) {
                            let j = choose|j: int|
                                0 <= j < i && failed@[j] && (#[trigger] plan@[j]).rel_path@
                                    == key@;
                            assert(plan@[j].rel_path@ != plan@[i as int].rel_path@);
                            assert(false);
                        }
                    }
                    r.insert(key, val);
                },
                None => {
                    proof {
                        assert(false);
                    }
                },
            }
        }
        i = i + 1;
    }
    r
}

/// Round-trip, entry for entry: with the delta a forward pass recorded, the
/// rename the reverse pass emits for an entry is exactly the inverse of the
/// one the forward pass performed — it moves the masked path back onto the
/// entry's original relative path.
pub proof fn lemma_reverse_inverts_forward(
    plan: Seq<Entry>,
    fwd: Seq<RenameOp>,
    rev: Seq<RenameOp>,
    m: Map<Seq<char>, Seq<char>>,
)
    requires
        fwd.len() == plan.len(),
        rev.len() == plan.len(),
        forall|i: int| 0 <= i < plan.len() ==> (#[trigger] fwd[i]).from@ == plan[i].rel_path@,
        forall|i: int|
            0 <= i < plan.len() ==> (#[trigger] fwd[i]).to@ == masked_path(
                plan[i].rel_path@,
                m[plan[i].rel_path@],
                plan[i].is_dir,
            ),
        forall|i: int|
            0 <= i < plan.len() ==> (#[trigger] rev[i]).from@ == masked_path(
                plan[i].rel_path@,
                m[plan[i].rel_path@],
                plan[i].is_dir,
            ),
        forall|i: int| 0 <= i < plan.len() ==> (#[trigger] rev[i]).to@ == plan[i].rel_path@,
    ensures
        forall|i: int|
            0 <= i < plan.len() ==> (#[trigger] rev[i]).from@ == fwd[i].to@ && rev[i].to@
                == fwd[i].from@,
{
}

} // verus!
