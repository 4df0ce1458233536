use tidemark::cli::{
    apply_only, attach_content, change_symbol, check_rm, content_of, diff_exit_code,
    matches_kind, parse_error_message, plan_snap, resolve_diff_refs, snap_opts,
};
use tidemark::diff::{diff, ChangeKind};
use tidemark::error::ErrorKind;
use tidemark::hash::hash_bytes;
use tidemark::manifest::{Entry, EntryKind, Manifest};
use tidemark::output::Format;

fn text_file(path: &str, text: &str) -> Entry {
    Entry {
        path: path.into(),
        kind: EntryKind::File,
        size: Some(text.len() as u64),
        mode: Some(0o644),
        hash: Some(hash_bytes(text.as_bytes())),
        target: None,
        mtime: None,
        content: Some(text.into()),
    }
}

fn man(entries: Vec<Entry>) -> Manifest {
    Manifest::build("/r".into(), "t".into(), entries)
}

#[test]
fn content_diff_shows_old_and_new_lines() {
    let old = man(vec![text_file("a.txt", "alpha\nbeta\ngamma\n"), text_file("k.txt", "k")]);
    let new = man(vec![text_file("a.txt", "alpha\nBETA\ngamma\n"), text_file("n.txt", "n")]);
    let mut report = diff(&old, &new);
    attach_content(&mut report, &old, &new);
    let m = report.changes.iter().find(|c| c.kind == ChangeKind::Modified).unwrap();
    let preview = m.content_preview.as_deref().unwrap();
    assert!(preview.contains("-beta"), "{preview}");
    assert!(preview.contains("+BETA"), "{preview}");
    assert_eq!(preview, "--- a.txt\n+++ a.txt\n alpha\n-beta\n+BETA\n gamma\n");
    for c in &report.changes {
        if c.kind != ChangeKind::Modified {
            assert_eq!(c.content_preview, None);
        }
    }
}

#[test]
fn content_preview_notes_missing_text() {
    let mut a = text_file("a.txt", "one\n");
    a.content = None;
    let old = man(vec![a]);
    let new = man(vec![text_file("a.txt", "two\n")]);
    let mut report = diff(&old, &new);
    attach_content(&mut report, &old, &new);
    assert_eq!(
        report.changes[0].content_preview.as_deref(),
        Some("<content unavailable (binary, too large, or --no-content)>")
    );
    assert_eq!(report.modified, 1);
}

#[test]
fn content_of_reads_the_first_entry_at_a_path() {
    let m = man(vec![text_file("a.txt", "x"), text_file("b.txt", "y")]);
    assert_eq!(content_of(&m, "b.txt").map(|s| s.as_str()), Some("y"));
    assert_eq!(content_of(&m, "c.txt"), None);
}

#[test]
fn only_filter_keeps_listed_kinds_and_recounts() {
    let old = man(vec![text_file("keep.txt", "k"), text_file("changed", "1")]);
    let new = man(vec![
        text_file("keep.txt", "k"),
        text_file("changed", "2"),
        text_file("added.txt", "a"),
    ]);
    let mut report = diff(&old, &new);
    assert_eq!(report.changes.len(), 2);
    apply_only(&mut report, &vec![ChangeKind::Added]);
    assert_eq!(report.changes.len(), 1);
    assert_eq!(report.changes[0].kind, ChangeKind::Added);
    assert_eq!(report.changes[0].path, "added.txt");
    assert_eq!((report.added, report.modified, report.deleted, report.renamed), (1, 0, 0, 0));
    apply_only(&mut report, &Vec::new());
    assert_eq!(report.changes.len(), 1);
    assert!(matches_kind(&ChangeKind::Renamed, &ChangeKind::Renamed));
    assert!(!matches_kind(&ChangeKind::Added, &ChangeKind::Deleted));
}

#[test]
fn diff_refs_default_to_latest_against_current_tree() {
    let (a, b) = resolve_diff_refs(None, None, Some("before".into())).unwrap();
    assert_eq!((a.as_str(), b.as_str()), ("before", "@"));
    let e = resolve_diff_refs(None, Some("x".into()), None).unwrap_err();
    assert_eq!(e.kind, ErrorKind::NotFound);
    assert_eq!(e.message, "no stored snapshots; run `tidemark snap <label>` first");
    let (a, b) = resolve_diff_refs(Some("x".into()), None, None).unwrap();
    assert_eq!((a.as_str(), b.as_str()), ("x", "@"));
    let (a, b) = resolve_diff_refs(Some("x".into()), Some("y".into()), None).unwrap();
    assert_eq!((a.as_str(), b.as_str()), ("x", "y"));
}

#[test]
fn snap_plan_follows_label_file_and_format() {
    let p = plan_snap(false, None, Format::Json);
    assert!(p.manifest_to_stdout && !p.save_label && p.summary.is_none());
    let p = plan_snap(false, None, Format::Table);
    assert!(!p.manifest_to_stdout && p.summary == Some(false));
    let p = plan_snap(true, None, Format::Json);
    assert!(p.save_label && !p.manifest_to_stdout && p.summary == Some(true));
    let p = plan_snap(true, Some("-"), Format::Table);
    assert!(p.save_label && p.manifest_to_stdout && p.write_file.is_none() && p.summary.is_none());
    let p = plan_snap(false, Some("out.tidemark"), Format::Json);
    assert_eq!(p.write_file.as_deref(), Some("out.tidemark"));
    assert!(!p.manifest_to_stdout && p.summary == Some(true));
}

#[test]
fn exit_code_flag_signals_changes() {
    assert_eq!(diff_exit_code(true, 3), 1);
    assert_eq!(diff_exit_code(true, 0), 0);
    assert_eq!(diff_exit_code(false, 3), 0);
}

#[test]
fn rm_requires_yes_when_noninteractive() {
    let e = check_rm(1, false, false).unwrap_err();
    assert_eq!(e.kind, ErrorKind::InvalidInput);
    assert_eq!(e.message, "refusing to delete without --yes in non-interactive mode");
    assert!(check_rm(1, true, false).is_ok());
    assert!(check_rm(2, false, true).is_ok());
    assert_eq!(check_rm(0, true, true).unwrap_err().message, "no labels given");
}

#[test]
fn parse_errors_report_their_first_line() {
    let rendered = "error: unrecognized subcommand 'definitely-not-a-real-subcommand-xyz'\n\nUsage: tidemark [OPTIONS]\n";
    assert_eq!(
        parse_error_message(rendered),
        "unrecognized subcommand 'definitely-not-a-real-subcommand-xyz'"
    );
    assert_eq!(parse_error_message(""), "invalid arguments");
    assert_eq!(parse_error_message("error: error: twice\r\nrest"), "twice");
    assert_eq!(parse_error_message("plain"), "plain");
}

#[test]
fn table_marks_by_kind() {
    assert_eq!(change_symbol("added"), "+");
    assert_eq!(change_symbol("deleted"), "-");
    assert_eq!(change_symbol("modified"), "~");
    assert_eq!(change_symbol("renamed"), "\u{2192}");
    assert_eq!(change_symbol("other"), "?");
}

#[test]
fn snap_options_from_flags() {
    let o = snap_opts(true, true, vec!["*.log".into()], false);
    assert!(o.walk.hidden);
    assert!(!o.walk.use_ignore);
    assert_eq!(o.walk.extra_ignores, vec!["*.log".to_string()]);
    assert!(!o.store_content);
}
