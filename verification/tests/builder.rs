use tidemark::builder::{
    file_entry, inline_content, permission_bits, symlink_entry, timestamp_text, SnapOptions,
    CONTENT_CAP_BYTES,
};
use tidemark::hash::hash_bytes;
use tidemark::manifest::EntryKind;

#[test]
fn builds_entry_with_hash() {
    let e = file_entry("a.txt".into(), 5, Some(0o100644), b"hello", None, true);
    assert_eq!(e.path, "a.txt");
    assert_eq!(e.kind, EntryKind::File);
    assert_eq!(e.size, Some(5));
    assert_eq!(e.mode, Some(0o644));
    assert!(e.hash.as_ref().unwrap().starts_with("blake3:"));
    assert_eq!(e.hash, Some(hash_bytes(b"hello")));
    assert_eq!(e.target, None);
}

#[test]
fn stores_text_content_by_default() {
    let opts = SnapOptions::default();
    let e = file_entry("a.txt".into(), 12, None, b"line1\nline2\n", None, opts.store_content);
    assert_eq!(e.content.as_deref(), Some("line1\nline2\n"));
}

#[test]
fn skips_content_when_disabled() {
    assert_eq!(inline_content(b"hi", false), None);
    assert_eq!(inline_content(b"hi", true).as_deref(), Some("hi"));
}

#[test]
fn skips_content_for_binary_files() {
    let bytes = [0u8, 159, 146, 150];
    let e = file_entry("b.bin".into(), 4, None, &bytes, None, true);
    assert_eq!(e.content, None);
    assert!(e.hash.as_ref().unwrap().starts_with("blake3:"));
}

#[test]
fn skips_content_for_large_files() {
    let big = "x".repeat(CONTENT_CAP_BYTES + 1);
    assert_eq!(inline_content(big.as_bytes(), true), None);
    let at_cap = "x".repeat(CONTENT_CAP_BYTES);
    assert_eq!(inline_content(at_cap.as_bytes(), true).as_deref(), Some(at_cap.as_str()));
}

#[test]
fn mode_keeps_permission_bits_only() {
    assert_eq!(permission_bits(0o100755), 0o755);
    assert_eq!(permission_bits(0o104755), 0o4755);
    assert_eq!(permission_bits(0o120777), 0o777);
}

#[test]
fn symlink_entry_records_target_with_forward_slashes() {
    let e = symlink_entry("l".into(), Some(0o120777), "dir\\sub\\f.txt", Some("t".into()));
    assert_eq!(e.kind, EntryKind::Symlink);
    assert_eq!(e.target.as_deref(), Some("dir/sub/f.txt"));
    assert_eq!(e.hash, None);
    assert_eq!(e.size, None);
    assert_eq!(e.mode, Some(0o777));
    assert_eq!(e.mtime.as_deref(), Some("t"));
    assert_eq!(e.content, None);
}

#[test]
fn timestamps_are_rfc3339_utc() {
    assert_eq!(timestamp_text(0, 0).as_deref(), Some("1970-01-01T00:00:00Z"));
    assert_eq!(timestamp_text(123456789, 0).as_deref(), Some("1973-11-29T21:33:09Z"));
    assert_eq!(timestamp_text(i64::MAX, 0), None);
}
