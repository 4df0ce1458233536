use tidemark::hash::hash_bytes;
use tidemark::manifest::{compute_tree_digest, Entry, EntryKind, Manifest, MANIFEST_VERSION};

fn file(path: &str, hash: &str) -> Entry {
    Entry {
        path: path.into(),
        kind: EntryKind::File,
        size: Some(1),
        mode: Some(0o644),
        hash: Some(hash.into()),
        target: None,
        mtime: None,
        content: None,
    }
}

#[test]
fn digest_is_order_independent() {
    let a = Manifest::build("/r".into(), "t1".into(), vec![file("b", "h2"), file("a", "h1")]);
    let b = Manifest::build("/r".into(), "t2".into(), vec![file("a", "h1"), file("b", "h2")]);
    assert_eq!(
        a.tree_digest, b.tree_digest,
        "digest must not depend on input order or created_at"
    );
}

#[test]
fn digest_changes_when_content_changes() {
    let a = Manifest::build("/r".into(), "t".into(), vec![file("a", "h1")]);
    let b = Manifest::build("/r".into(), "t".into(), vec![file("a", "h2")]);
    assert_ne!(a.tree_digest, b.tree_digest);
}

#[test]
fn digest_changes_when_mode_changes() {
    let mut e = file("a", "h1");
    let a = Manifest::build("/r".into(), "t".into(), vec![e.clone()]);
    e.mode = Some(0o755);
    let b = Manifest::build("/r".into(), "t".into(), vec![e]);
    assert_ne!(a.tree_digest, b.tree_digest, "chmod must register as a change");
}

// --- further cases ---

#[test]
fn build_sorts_entries_and_fills_header() {
    let m = Manifest::build("/r".into(), "t".into(), vec![file("c", "h"), file("a", "h"), file("b", "h")]);
    let paths: Vec<&str> = m.entries.iter().map(|e| e.path.as_str()).collect();
    assert_eq!(paths, vec!["a", "b", "c"]);
    assert_eq!(m.entry_count, 3);
    assert_eq!(m.manifest_version, MANIFEST_VERSION);
    assert_eq!(m.kairn_version, "0.1.1");
    assert_eq!(m.root, "/r");
    assert_eq!(m.created_at, "t");
}

#[test]
fn build_sort_is_stable_for_repeated_paths() {
    let m = Manifest::build("/r".into(), "t".into(), vec![file("b", "1"), file("a", "2"), file("b", "3")]);
    let hashes: Vec<&str> = m.entries.iter().map(|e| e.hash.as_deref().unwrap()).collect();
    assert_eq!(hashes, vec!["2", "1", "3"]);
}

#[test]
fn build_sorts_by_bytes_not_locale() {
    let m = Manifest::build("/r".into(), "t".into(), vec![file("b", "h"), file("B", "h"), file("é", "h"), file("a/b", "h"), file("a", "h")]);
    let paths: Vec<&str> = m.entries.iter().map(|e| e.path.as_str()).collect();
    assert_eq!(paths, vec!["B", "a", "a/b", "b", "é"]);
}

#[test]
fn digest_ignores_mtime_size_and_content() {
    let mut e = file("a", "h1");
    let a = Manifest::build("/r".into(), "t".into(), vec![e.clone()]);
    e.mtime = Some("2020-01-01T00:00:00Z".into());
    e.size = Some(1234);
    e.content = Some("x".into());
    let b = Manifest::build("/r".into(), "t".into(), vec![e]);
    assert_eq!(a.tree_digest, b.tree_digest);
}

#[test]
fn digest_is_hash_of_the_recorded_fields() {
    let e = file("a", "h1");
    let mut bytes = Vec::new();
    bytes.extend_from_slice(b"a\0File\0h1\0\0");
    bytes.extend_from_slice(&0o644u32.to_le_bytes());
    bytes.push(0xff);
    assert_eq!(compute_tree_digest(&[e]), hash_bytes(&bytes));
}

#[test]
fn empty_manifest_digest_is_hash_of_nothing() {
    let m = Manifest::build("/r".into(), "t".into(), vec![]);
    assert_eq!(m.tree_digest, hash_bytes(b""));
    assert_eq!(m.entry_count, 0);
}

#[test]
fn manifests_record_the_tool_version() {
    let m = Manifest::build("/r".into(), "t".into(), Vec::new());
    assert_eq!(m.kairn_version, tidemark::manifest::version_text());
    assert_eq!(m.kairn_version, "0.1.1");
    assert_eq!(m.entry_count, 0);
}
