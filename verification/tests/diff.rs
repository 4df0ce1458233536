use tidemark::diff::{diff, render_unified, unified_diff, ChangeKind, LineTag};
use tidemark::manifest::{Entry, EntryKind, Manifest};

fn file(path: &str, hash: &str) -> Entry {
    Entry {
        path: path.into(),
        kind: EntryKind::File,
        size: Some(1),
        mode: Some(0o644),
        hash: Some(hash.into()),
        target: None,
        mtime: None,
        content: None,
    }
}

fn man(entries: Vec<Entry>) -> Manifest {
    Manifest::build("/r".into(), "t".into(), entries)
}

#[test]
fn detects_added_and_deleted() {
    let old = man(vec![file("a", "h1")]);
    let new = man(vec![file("a", "h1"), file("b", "h2")]);
    let d = diff(&old, &new);
    assert_eq!(d.added, 1);
    assert_eq!(d.deleted, 0);
    let d2 = diff(&new, &old);
    assert_eq!(d2.deleted, 1);
}

#[test]
fn detects_modified() {
    let old = man(vec![file("a", "h1")]);
    let new = man(vec![file("a", "h2")]);
    let d = diff(&old, &new);
    assert_eq!(d.modified, 1);
    assert_eq!(d.changes[0].old_hash.as_deref(), Some("h1"));
    assert_eq!(d.changes[0].new_hash.as_deref(), Some("h2"));
}

#[test]
fn detects_rename_not_add_delete() {
    let old = man(vec![file("old_name", "samehash")]);
    let new = man(vec![file("new_name", "samehash")]);
    let d = diff(&old, &new);
    assert_eq!(d.renamed, 1, "identical content at new path is a rename");
    assert_eq!(d.added, 0);
    assert_eq!(d.deleted, 0);
    assert_eq!(d.changes[0].from_path.as_deref(), Some("old_name"));
}

#[test]
fn ambiguous_identical_content_is_not_a_rename() {
    // Two deleted + two added files all sharing one hash (e.g. empty files):
    // the pairing is ambiguous, so they must be reported as plain add/delete,
    // never as misleading renames.
    let old = man(vec![file("d1", "EMPTY"), file("d2", "EMPTY")]);
    let new = man(vec![file("a1", "EMPTY"), file("a2", "EMPTY")]);
    let d = diff(&old, &new);
    assert_eq!(
        d.renamed, 0,
        "ambiguous identical-content files must not be renames"
    );
    assert_eq!(d.deleted, 2);
    assert_eq!(d.added, 2);
}

#[test]
fn one_to_many_identical_content_is_not_a_rename() {
    // One deleted, two added with the same hash: still ambiguous.
    let old = man(vec![file("d1", "DUP")]);
    let new = man(vec![file("a1", "DUP"), file("a2", "DUP")]);
    let d = diff(&old, &new);
    assert_eq!(d.renamed, 0);
    assert_eq!(d.deleted, 1);
    assert_eq!(d.added, 2);
}

#[test]
fn no_changes_when_identical() {
    let old = man(vec![file("a", "h1")]);
    let new = man(vec![file("a", "h1")]);
    assert!(diff(&old, &new).is_empty());
}

#[test]
fn mode_only_change_is_modified() {
    let mut e = file("a", "h1");
    let old = man(vec![e.clone()]);
    e.mode = Some(0o755);
    let new = man(vec![e]);
    assert_eq!(diff(&old, &new).modified, 1);
}

#[test]
fn unified_diff_marks_changed_lines() {
    let d = unified_diff("a\nb\nc\n", "a\nB\nc\n", "f.txt");
    assert!(d.contains("-b"));
    assert!(d.contains("+B"));
}

// --- further cases ---

#[test]
fn unified_diff_exact_text() {
    let d = unified_diff("a\nb\nc\n", "a\nB\nc\n", "f.txt");
    assert_eq!(d, "--- f.txt\n+++ f.txt\n a\n-b\n+B\n c\n");
}

#[test]
fn changes_come_sorted_by_path_with_sizes() {
    let mut big = file("m", "h1");
    big.size = Some(10);
    let mut bigger = file("m", "h9");
    bigger.size = Some(25);
    let old = man(vec![file("z", "hz"), big, file("gone", "hg")]);
    let new = man(vec![bigger, file("z", "hz"), file("b", "hb")]);
    let d = diff(&old, &new);
    let paths: Vec<&str> = d.changes.iter().map(|c| c.path.as_str()).collect();
    assert_eq!(paths, vec!["b", "gone", "m"]);
    assert_eq!(d.changes[0].kind, ChangeKind::Added);
    assert_eq!(d.changes[0].size_delta, Some(1));
    assert_eq!(d.changes[1].kind, ChangeKind::Deleted);
    assert_eq!(d.changes[1].size_delta, Some(-1));
    assert_eq!(d.changes[2].kind, ChangeKind::Modified);
    assert_eq!(d.changes[2].size_delta, Some(15));
    assert_eq!((d.added, d.deleted, d.modified, d.renamed), (1, 1, 1, 0));
}

#[test]
fn mtime_and_size_alone_are_not_changes() {
    let mut e = file("a", "h1");
    let old = man(vec![e.clone()]);
    e.mtime = Some("2024-01-01T00:00:00Z".into());
    e.size = Some(99);
    let new = man(vec![e]);
    assert!(diff(&old, &new).is_empty());
}

#[test]
fn rename_keeps_hashes_and_needs_same_mode() {
    let old = man(vec![file("x", "H")]);
    let mut moved = file("y", "H");
    moved.mode = Some(0o755);
    let new = man(vec![moved]);
    let d = diff(&old, &new);
    assert_eq!(d.renamed, 0);
    assert_eq!((d.added, d.deleted), (1, 1));
}

#[test]
fn later_entry_at_same_path_wins() {
    let old = man(vec![file("a", "h1"), file("a", "h2")]);
    let new = man(vec![file("a", "h2")]);
    assert!(diff(&old, &new).is_empty());
}

#[test]
fn recount_follows_the_change_list() {
    let old = man(vec![file("a", "h1")]);
    let new = man(vec![file("a", "h2"), file("b", "hb")]);
    let mut d = diff(&old, &new);
    d.changes.retain(|c| c.kind == ChangeKind::Added);
    d.recount();
    assert_eq!((d.added, d.modified), (1, 0));
}

#[test]
fn reversed_diff_mirrors_the_report() {
    let old = man(vec![file("keep", "k"), file("gone", "g"), file("moved", "m"), file("edit", "1")]);
    let new = man(vec![file("keep", "k"), file("fresh", "f"), file("moved_to", "m"), file("edit", "2")]);
    let fwd = diff(&old, &new);
    let back = diff(&new, &old);
    assert_eq!((fwd.added, fwd.deleted, fwd.modified, fwd.renamed), (1, 1, 1, 1));
    assert_eq!((back.added, back.deleted, back.modified, back.renamed), (1, 1, 1, 1));
    let find = |r: &tidemark::diff::DiffReport, p: &str| {
        r.changes.iter().find(|c| c.path == p).map(|c| (c.kind, c.from_path.clone()))
    };
    assert_eq!(find(&fwd, "fresh"), Some((ChangeKind::Added, None)));
    assert_eq!(find(&back, "fresh"), Some((ChangeKind::Deleted, None)));
    assert_eq!(find(&fwd, "gone"), Some((ChangeKind::Deleted, None)));
    assert_eq!(find(&back, "gone"), Some((ChangeKind::Added, None)));
    assert_eq!(find(&fwd, "moved_to"), Some((ChangeKind::Renamed, Some("moved".to_string()))));
    assert_eq!(find(&back, "moved"), Some((ChangeKind::Renamed, Some("moved_to".to_string()))));
    assert_eq!(find(&back, "edit"), Some((ChangeKind::Modified, None)));
    let e = back.changes.iter().find(|c| c.path == "edit").unwrap();
    assert_eq!((e.old_hash.as_deref(), e.new_hash.as_deref()), (Some("2"), Some("1")));
}

#[test]
fn unified_text_from_line_changes() {
    let changes = vec![
        (LineTag::Equal, "a\n".to_string()),
        (LineTag::Delete, "b\n".to_string()),
        (LineTag::Insert, "B".to_string()),
        (LineTag::Equal, "c\n\n".to_string()),
    ];
    assert_eq!(render_unified(&changes, "f.txt"), "--- f.txt\n+++ f.txt\n a\n-b\n+B\n c\n");
    assert_eq!(render_unified(&Vec::new(), "x"), "--- x\n+++ x\n");
}

#[test]
fn reversed_diff_swaps_counts() {
    let old = man(vec![file("a", "1"), file("b", "2"), file("same", "s"), file("x", "dup")]);
    let new = man(vec![file("c", "3"), file("same", "s2"), file("y", "dup"), file("z", "dup")]);
    let fwd = diff(&old, &new);
    let back = diff(&new, &old);
    assert_eq!((fwd.added, fwd.deleted, fwd.modified, fwd.renamed), (3, 3, 1, 0));
    assert_eq!((back.added, back.deleted, back.modified, back.renamed), (3, 3, 1, 0));
    let old = man(vec![file("a", "1"), file("b", "2")]);
    let new = man(vec![file("c", "3")]);
    let fwd = diff(&old, &new);
    let back = diff(&new, &old);
    assert_eq!((fwd.added, fwd.deleted), (1, 2));
    assert_eq!((back.added, back.deleted), (2, 1));
}
