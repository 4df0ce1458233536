use tidemark::builder::SnapOptions;
use tidemark::walk::{in_own_store, keeps_walked, walk_order, RawEntry, WalkOptions};

fn raw(rel: &str) -> RawEntry<u32> {
    RawEntry { rel: rel.to_string(), abs: 0 }
}

#[test]
fn always_excludes_own_store_and_sorts_by_path() {
    let entries = vec![
        raw("sub/b.txt"),
        raw(".tidemark/snapshots/x.json"),
        raw("real.txt"),
        raw(".tidemark"),
        raw("a.txt"),
        raw(".tidemarkrc"),
    ];
    let order = walk_order(&entries);
    let rels: Vec<&str> = order.iter().map(|&i| entries[i].rel.as_str()).collect();
    assert_eq!(rels, vec![".tidemarkrc", "a.txt", "real.txt", "sub/b.txt"]);
}

#[test]
fn own_store_is_the_directory_and_what_lies_below_it() {
    assert!(in_own_store(".tidemark"));
    assert!(in_own_store(".tidemark/snapshots/x.json"));
    assert!(!in_own_store(".tidemarkignore"));
    assert!(!in_own_store("sub/.tidemark/x"));
}

#[test]
fn walk_order_sorts_by_bytes() {
    let entries = vec![raw("b"), raw("B"), raw("a/z"), raw("a.txt"), raw("é")];
    let order = walk_order(&entries);
    let rels: Vec<&str> = order.iter().map(|&i| entries[i].rel.as_str()).collect();
    assert_eq!(rels, vec!["B", "a.txt", "a/z", "b", "é"]);
}

#[test]
fn default_options_hide_dotfiles_and_honor_ignores() {
    let w = WalkOptions::default();
    assert!(!w.hidden);
    assert!(w.use_ignore);
    assert!(w.extra_ignores.is_empty());
    let s = SnapOptions::default();
    assert!(s.store_content);
    assert!(!s.walk.hidden);
}

#[test]
fn walked_root_directories_and_store_are_not_recorded() {
    assert!(!keeps_walked("", false));
    assert!(!keeps_walked("sub", true));
    assert!(!keeps_walked(".tidemark/snapshots/x.json", false));
    assert!(!keeps_walked(".tidemark", true));
    assert!(keeps_walked("sub/b.txt", false));
    assert!(keeps_walked(".secret", false));
}
