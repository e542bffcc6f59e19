use obfsct::entry::Entry;
use obfsct::passes::forward_ops;
use obfsct::passes::residual_table;
use obfsct::passes::reverse_ops;
use obfsct::passes::RenameOp;
use obfsct::schedule::schedule_forward;
use obfsct::schedule::schedule_reverse;
use obfsct::table::MappingTable;

/// A tree simulated as the set of its relative paths, with a directory flag.
/// Renaming asserts that the source path is present — exactly what the
/// scheduler's ordering has to guarantee — and moves every path under a
/// renamed directory along with it.
fn apply_rename(disk: &mut Vec<(String, bool)>, op: &RenameOp) {
    let from = op.from.as_str();
    let to = op.to.as_str();
    assert!(
        disk.iter().any(|(p, _)| p == from),
        "rename source {from} is not on disk"
    );
    assert!(
        !disk.iter().any(|(p, _)| p == to),
        "rename target {to} already on disk"
    );
    let prefix = format!("{from}/");
    for (p, _) in disk.iter_mut() {
        if p == from {
            *p = to.to_string();
        } else if p.starts_with(&prefix) {
            *p = format!("{to}{}", &p[from.len()..]);
        }
    }
}

fn entry(path: &str, is_dir: bool) -> Entry {
    Entry::new(path.to_string(), is_dir)
}

fn sorted_paths(disk: &Vec<(String, bool)>) -> Vec<String> {
    let mut v: Vec<String> = disk.iter().map(|(p, _)| p.clone()).collect();
    v.sort();
    v
}

#[test]
fn scenario_single_nested_file() {
    // Root contains a/b/c.txt: the table gets 3 entries; on disk, c.txt is
    // renamed before a/b, and a is renamed last among the directories.
    let entries = vec![
        entry("a", true),
        entry("a/b", true),
        entry("a/b/c.txt", false),
    ];
    let empty = MappingTable::new();
    let plan = schedule_forward(entries, &empty);
    let (ops, delta) = forward_ops(&plan);
    assert_eq!(ops.len(), 3);
    assert_eq!(delta.len(), 3);
    assert_eq!(ops[0].from, "a/b/c.txt");
    assert_eq!(ops[1].from, "a/b");
    assert_eq!(ops[2].from, "a");
    assert!(delta.contains_key(&"a".to_string()));
    assert!(delta.contains_key(&"a/b".to_string()));
    assert!(delta.contains_key(&"a/b/c.txt".to_string()));
}

#[test]
fn forward_renames_are_valid_in_order() {
    let mut disk = vec![
        ("a".to_string(), true),
        ("a/b".to_string(), true),
        ("a/b/c.txt".to_string(), false),
        ("a/d.log".to_string(), false),
        ("e".to_string(), true),
        ("e/f.txt".to_string(), false),
    ];
    let entries: Vec<Entry> = disk
        .iter()
        .map(|(p, d)| entry(p, *d))
        .collect();
    let empty = MappingTable::new();
    let plan = schedule_forward(entries, &empty);
    let (ops, _delta) = forward_ops(&plan);
    for op in &ops {
        // apply_rename panics if any source path has been invalidated
        apply_rename(&mut disk, op);
    }
    assert_eq!(disk.len(), 6);
}

#[test]
fn round_trip_restores_every_name() {
    let original = vec![
        ("a".to_string(), true),
        ("a/b".to_string(), true),
        ("a/b/c.txt".to_string(), false),
        ("a/d.log".to_string(), false),
        ("e".to_string(), true),
        ("e/f".to_string(), true),
        ("e/f/g.rs".to_string(), false),
        ("top.txt".to_string(), false),
    ];
    let mut disk = original.clone();
    let entries: Vec<Entry> = disk.iter().map(|(p, d)| entry(p, *d)).collect();
    let empty = MappingTable::new();
    let plan = schedule_forward(entries, &empty);
    let (ops, delta) = forward_ops(&plan);
    for op in &ops {
        apply_rename(&mut disk, op);
    }
    // every original name is gone from disk
    for (p, _) in &original {
        assert!(!disk.iter().any(|(q, _)| q == p));
    }
    // reverse pass: the table's rows, with their original kinds
    let rev_entries: Vec<Entry> = original.iter().map(|(p, d)| entry(p, *d)).collect();
    let rev_plan = schedule_reverse(rev_entries);
    let rev_ops = reverse_ops(&rev_plan, &delta);
    for op in &rev_ops {
        apply_rename(&mut disk, op);
    }
    let mut want: Vec<String> = original.iter().map(|(p, _)| p.clone()).collect();
    want.sort();
    assert_eq!(sorted_paths(&disk), want);
    // and the residual table of a clean reverse pass is empty
    let failed = vec![false; rev_plan.len()];
    let residual = residual_table(&rev_plan, &delta, &failed);
    assert_eq!(residual.len(), 0);
}

#[test]
fn forward_pass_is_idempotent() {
    // A second forward pass over the same tree schedules nothing.
    let entries = vec![
        entry("a", true),
        entry("a/b.txt", false),
    ];
    let empty = MappingTable::new();
    let plan = schedule_forward(entries, &empty);
    let (ops, delta) = forward_ops(&plan);
    assert_eq!(ops.len(), 2);
    let again = vec![
        entry("a", true),
        entry("a/b.txt", false),
    ];
    let second = schedule_forward(again, &delta);
    assert_eq!(second.len(), 0);
    let (second_ops, second_delta) = forward_ops(&second);
    assert_eq!(second_ops.len(), 0);
    assert_eq!(second_delta.len(), 0);
}

#[test]
fn entries_already_in_the_table_are_never_rerenamed() {
    let mut existing = MappingTable::new();
    existing.insert("a/b.txt".to_string(), "old-id".to_string());
    let entries = vec![
        entry("a", true),
        entry("a/b.txt", false),
        entry("a/c.txt", false),
    ];
    let plan = schedule_forward(entries, &existing);
    let (ops, delta) = forward_ops(&plan);
    assert_eq!(ops.len(), 2);
    assert!(!delta.contains_key(&"a/b.txt".to_string()));
    assert!(ops.iter().all(|op| op.from != "a/b.txt"));
    assert!(delta.contains_key(&"a".to_string()));
    assert!(delta.contains_key(&"a/c.txt".to_string()));
}

#[test]
fn recorded_paths_match_pre_rename_paths() {
    // Depth-safety: the table rows of a nested tree carry the pre-rename
    // relative paths exactly, ancestors included.
    let paths = ["x", "x/y", "x/y/z", "x/y/z/w.dat"];
    let entries: Vec<Entry> = paths
        .iter()
        .enumerate()
        .map(|(i, p)| entry(p, i < 3))
        .collect();
    let empty = MappingTable::new();
    let plan = schedule_forward(entries, &empty);
    let (ops, delta) = forward_ops(&plan);
    assert_eq!(ops.len(), 4);
    for p in paths {
        assert!(delta.contains_key(&p.to_string()));
    }
}

#[test]
fn extension_is_preserved() {
    // A file report.PDF keeps its .PDF extension on its generated name.
    let entries = vec![entry("report.PDF", false)];
    let empty = MappingTable::new();
    let plan = schedule_forward(entries, &empty);
    let (ops, delta) = forward_ops(&plan);
    assert_eq!(ops.len(), 1);
    let id = delta.get(&"report.PDF".to_string()).unwrap().clone();
    assert_eq!(ops[0].to, format!("{id}.PDF"));
    assert!(ops[0].to.ends_with(".PDF"));
}

#[test]
fn directories_do_not_keep_extensions() {
    let entries = vec![entry("archive.d", true)];
    let empty = MappingTable::new();
    let plan = schedule_forward(entries, &empty);
    let (ops, delta) = forward_ops(&plan);
    let id = delta.get(&"archive.d".to_string()).unwrap().clone();
    assert_eq!(ops[0].to, id);
}

#[test]
fn nested_file_target_keeps_directory_part() {
    let entries = vec![entry("a/b/c.txt", false)];
    let empty = MappingTable::new();
    let plan = schedule_forward(entries, &empty);
    let (ops, delta) = forward_ops(&plan);
    let id = delta.get(&"a/b/c.txt".to_string()).unwrap().clone();
    assert_eq!(ops[0].to, format!("a/b/{id}.txt"));
}

#[test]
fn generated_identifiers_look_like_identifiers() {
    let entries = vec![entry("file", false)];
    let empty = MappingTable::new();
    let plan = schedule_forward(entries, &empty);
    let (_ops, delta) = forward_ops(&plan);
    let id = delta.get(&"file".to_string()).unwrap();
    assert_eq!(id.len(), 36);
    assert!(id
        .chars()
        .all(|c| c == '-' || c.is_ascii_digit() || ('a'..='f').contains(&c)));
}

#[test]
fn reverse_schedule_restores_shallow_directories_first() {
    let entries = vec![
        entry("a/b/c.txt", false),
        entry("a/b", true),
        entry("a", true),
    ];
    let plan = schedule_reverse(entries);
    assert_eq!(plan[0].rel_path, "a");
    assert_eq!(plan[1].rel_path, "a/b");
    assert_eq!(plan[2].rel_path, "a/b/c.txt");
}

#[test]
fn missing_directory_lands_in_residual_table() {
    // One identifier-named directory was deleted by hand: its rename fails,
    // it is recorded in the residual table, every other entry restores.
    let original = vec![
        ("a".to_string(), true),
        ("a/b.txt".to_string(), false),
        ("gone".to_string(), true),
    ];
    let mut disk = original.clone();
    let entries: Vec<Entry> = disk.iter().map(|(p, d)| entry(p, *d)).collect();
    let empty = MappingTable::new();
    let plan = schedule_forward(entries, &empty);
    let (ops, delta) = forward_ops(&plan);
    for op in &ops {
        apply_rename(&mut disk, op);
    }
    // delete the masked form of "gone" from disk
    let gone_id = delta.get(&"gone".to_string()).unwrap().clone();
    disk.retain(|(p, _)| p != &gone_id);
    // reverse pass; the rename of "gone" fails, the others succeed
    let rev_entries: Vec<Entry> = original.iter().map(|(p, d)| entry(p, *d)).collect();
    let rev_plan = schedule_reverse(rev_entries);
    let rev_ops = reverse_ops(&rev_plan, &delta);
    let mut failed = Vec::new();
    for op in &rev_ops {
        if disk.iter().any(|(p, _)| p == &op.from) {
            apply_rename(&mut disk, op);
            failed.push(false);
        } else {
            failed.push(true);
        }
    }
    let residual = residual_table(&rev_plan, &delta, &failed);
    assert_eq!(residual.len(), 1);
    assert_eq!(
        residual.get(&"gone".to_string()).unwrap(),
        &gone_id
    );
    assert!(disk.iter().any(|(p, _)| p == "a"));
    assert!(disk.iter().any(|(p, _)| p == "a/b.txt"));
}
