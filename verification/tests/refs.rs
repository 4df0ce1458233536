use tidemark::refs::{bare_ref_choice, resolve, BareRefSource, RefTarget};

#[test]
fn at_names_the_current_tree() {
    assert!(matches!(resolve("@"), RefTarget::CurrentTree));
}

#[test]
fn path_like_ref_is_a_manifest_file() {
    match resolve("out/snap.tidemark") {
        RefTarget::ManifestFile(p) => assert_eq!(p, "out/snap.tidemark"),
        other => panic!("unexpected {other:?}"),
    }
    match resolve("dir\\snap.tidemark") {
        RefTarget::ManifestFile(p) => assert_eq!(p, "dir\\snap.tidemark"),
        other => panic!("unexpected {other:?}"),
    }
}

#[test]
fn bare_name_is_a_label_first() {
    match resolve("before") {
        RefTarget::Label(l) => assert_eq!(l, "before"),
        other => panic!("unexpected {other:?}"),
    }
    match resolve("snap.tidemark") {
        RefTarget::Label(l) => assert_eq!(l, "snap.tidemark"),
        other => panic!("unexpected {other:?}"),
    }
}

#[test]
fn bare_name_prefers_store_label_over_cwd_file() {
    assert_eq!(bare_ref_choice("before", true, true, true), BareRefSource::StoredLabel);
    assert_eq!(bare_ref_choice("before", true, true, false), BareRefSource::StoredLabel);
}

#[test]
fn unreadable_stored_label_keeps_its_own_error() {
    // The store holds `before.json` but it does not parse; a same-named file
    // in the current directory must not stand in for it.
    assert_eq!(bare_ref_choice("before", true, false, true), BareRefSource::LabelError);
}

#[test]
fn missing_label_falls_back_to_a_cwd_file() {
    assert_eq!(bare_ref_choice("snap.tidemark", false, false, true), BareRefSource::CurrentDirFile);
    assert_eq!(bare_ref_choice("snap.tidemark", false, false, false), BareRefSource::LabelError);
    // A name the store cannot hold is never a stored label.
    assert_eq!(bare_ref_choice("a..b", true, false, true), BareRefSource::CurrentDirFile);
}
