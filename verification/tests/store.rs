use tidemark::error::ErrorKind;
use tidemark::hash::hash_bytes;
use tidemark::store::{join, SaveAction, Store, StoreItem};

fn item(label: &str, created_at: &str) -> StoreItem {
    StoreItem {
        label: label.to_string(),
        created_at: created_at.to_string(),
        entry_count: 1,
        tree_digest: hash_bytes(label.as_bytes()),
    }
}

#[test]
fn rejects_path_traversal_label() {
    let d = hash_bytes(b"h1");
    let err = Store::save_action("../evil", false, None, &d).unwrap_err();
    assert_eq!(err.kind, ErrorKind::InvalidInput);
    assert_eq!(err.message, "invalid label: \"../evil\"");
}

#[test]
fn save_same_tree_is_idempotent() {
    let d = hash_bytes(b"h1");
    assert_eq!(Store::save_action("x", false, None, &d).unwrap(), SaveAction::Write);
    assert_eq!(Store::save_action("x", false, Some(&d), &d).unwrap(), SaveAction::Keep);
}

#[test]
fn save_different_tree_conflicts() {
    let d1 = hash_bytes(b"h1");
    let d2 = hash_bytes(b"h2");
    let err = Store::save_action("x", false, Some(&d1), &d2).unwrap_err();
    assert_eq!(err.kind, ErrorKind::Conflict);
    assert_eq!(
        err.message,
        "label \"x\" exists with a different tree (use --force to overwrite)"
    );
    assert_eq!(Store::save_action("x", true, Some(&d1), &d2).unwrap(), SaveAction::Write);
}

#[test]
fn load_missing_is_not_found() {
    let e = Store::label_not_found("nope");
    assert_eq!(e.kind, ErrorKind::NotFound);
    assert_eq!(e.message, "no snapshot labeled \"nope\"");
}

#[test]
fn labels_must_be_plain_names() {
    for bad in ["", "a/b", "a\\b", "..", "x..y", "tab\there", "bell\u{7}", "c1\u{85}"] {
        let e = Store::validate_label(bad).unwrap_err();
        assert_eq!(e.kind, ErrorKind::InvalidInput, "{bad:?}");
    }
    for good in ["before", "v1.2", ".hidden", "snap-2024_01", "ünïcode"] {
        assert!(Store::validate_label(good).is_ok(), "{good:?}");
    }
}

#[test]
fn store_paths_nest_under_the_base() {
    let s = Store::at("/work");
    assert_eq!(s.root(), "/work/.tidemark");
    assert_eq!(s.snap_dir(), "/work/.tidemark/snapshots");
    assert_eq!(s.path_for("before"), "/work/.tidemark/snapshots/before.json");
    assert_eq!(join("a/", "b"), "a/b");
}

#[test]
fn file_names_give_labels_only_for_json() {
    assert_eq!(Store::label_from_file_name("before.json").as_deref(), Some("before"));
    assert_eq!(Store::label_from_file_name("v1.2.json").as_deref(), Some("v1.2"));
    assert_eq!(Store::label_from_file_name("notes.txt"), None);
    assert_eq!(Store::label_from_file_name("README"), None);
    assert_eq!(Store::label_from_file_name(".json"), None);
    assert_eq!(Store::label_from_file_name("x.json.bak"), None);
}

#[test]
fn items_sort_oldest_first_and_latest_is_last() {
    let items = vec![
        item("c", "2024-03-01T00:00:00Z"),
        item("a", "2024-01-01T00:00:00Z"),
        item("b", "2024-03-01T00:00:00Z"),
    ];
    let sorted = Store::sort_items(&items);
    let labels: Vec<&str> = sorted.iter().map(|i| i.label.as_str()).collect();
    assert_eq!(labels, vec!["a", "c", "b"]);
    assert_eq!(Store::latest(&sorted).as_deref(), Some("b"));
    assert_eq!(Store::latest(&Vec::new()), None);
}

#[test]
fn stored_file_name_reads_back_as_its_label() {
    let s = Store::at("base");
    for label in ["before", "v1.2", ".hidden", "a b"] {
        assert!(Store::validate_label(label).is_ok());
        let path = s.path_for(label);
        let name = path.rsplit('/').next().unwrap();
        assert_eq!(Store::label_from_file_name(name).as_deref(), Some(label));
    }
}
