//! Decisions of the command line: options, refs to diff, what a snapshot
//! command writes, exit codes, filters and content previews. Parsing the
//! arguments and doing the I/O is the caller's part.

use vstd::prelude::*;
use crate::builder::SnapOptions;
use crate::diff::{
    Change, ChangeKind, ChangeView, DiffReport, changes_view, count_kind, kind_is, unified_diff, unified_text,
};
use crate::error::{ErrorKind, KairnError};
use crate::manifest::{Entry, EntryView, Manifest, copy_opt_string, entries_view, opt_text};
use crate::output::Format;
use crate::text::{push_char, same_text, string_of};
use crate::walk::WalkOptions;

verus! {

/// The snapshot options a command line asks for.
pub fn snap_opts(hidden: bool, no_ignore: bool, ignore: Vec<String>, store_content: bool) -> (o: SnapOptions)
    ensures
        o.walk.hidden == hidden,
        o.walk.use_ignore == !no_ignore,
        o.walk.extra_ignores@ == ignore@,
        o.store_content == store_content,
{
    SnapOptions {
        walk: WalkOptions { hidden, use_ignore: !no_ignore, extra_ignores: ignore },
        store_content,
    }
}

/// The two refs a diff compares. Without refs: the latest stored snapshot
/// against the current tree; with one: it against the current tree.
/// `latest` is the latest stored label (only consulted without refs).
pub fn resolve_diff_refs(a: Option<String>, b: Option<String>, latest: Option<String>) -> (r: Result<(String, String), KairnError>)
    ensures
        match a {
            None => match latest {
                Some(l) => (r matches Ok((x, y)) && x@ == l@ && y@ == "@"@),
                None => (r matches Err(e) && e.kind == ErrorKind::NotFound
                    && e.message@ == "no stored snapshots; run `tidemark snap <label>` first"@),
            },
            Some(a) => match b {
                None => (r matches Ok((x, y)) && x@ == a@ && y@ == "@"@),
                Some(b) => (r matches Ok((x, y)) && x@ == a@ && y@ == b@),
            },
        },
{
    match a {
        None => match latest {
            Some(l) => Ok((l, string_of("@"))),
            None => Err(
                KairnError::not_found(
                    string_of("no stored snapshots; run `tidemark snap <label>` first"),
                ),
            ),
        },
        Some(a) => match b {
            None => Ok((a, string_of("@"))),
            Some(b) => Ok((a, b)),
        },
    }
}

/// What a snapshot command writes, in this order.
#[derive(Debug, Clone)]
pub struct SnapPlan {
    /// Store the manifest under the label.
    pub save_label: bool,
    /// Write the manifest (pretty JSON) to this file.
    pub write_file: Option<String>,
    /// Print the manifest (pretty JSON) on stdout.
    pub manifest_to_stdout: bool,
    /// Print a summary, and whether it reports something as created.
    pub summary: Option<bool>,
}

/// The output file name that means stdout.
pub open spec fn is_stdout_name(f: Seq<char>) -> bool {
    f == "-"@
}

/// Decide what a snapshot command writes. A label stores the snapshot; `-o -`
/// prints the manifest, `-o FILE` writes it; with neither label nor file and
/// JSON output the manifest goes to stdout. A summary follows unless the
/// manifest went to stdout.
pub fn plan_snap(has_label: bool, output_file: Option<&str>, fmt: Format) -> (p: SnapPlan)
    ensures
        p.save_label == has_label,
        match output_file {
            Some(f) => if is_stdout_name(f@) {
                p.write_file is None && p.manifest_to_stdout && p.summary is None
            } else {
                (p.write_file matches Some(w) && w@ == f@) && !p.manifest_to_stdout && p.summary
                    == Some(true)
            },
            None => p.write_file is None && if !has_label && fmt == Format::Json {
                p.manifest_to_stdout && p.summary is None
            } else {
                !p.manifest_to_stdout && p.summary == Some(has_label)
            },
        },
{
    match output_file {
        Some(f) => {
            if same_text(f, "-") {
                SnapPlan { save_label: has_label, write_file: None, manifest_to_stdout: true, summary: None }
            } else {
                SnapPlan {
                    save_label: has_label,
                    write_file: Some(string_of(f)),
                    manifest_to_stdout: false,
                    summary: Some(true),
                }
            }
        },
        None => {
            if !has_label && fmt == Format::Json {
                SnapPlan { save_label: false, write_file: None, manifest_to_stdout: true, summary: None }
            } else {
                SnapPlan {
                    save_label: has_label,
                    write_file: None,
                    manifest_to_stdout: false,
                    summary: Some(has_label),
                }
            }
        },
    }
}

/// The exit code of a diff: with `--exit-code`, 1 when changes were found and
/// 0 when none; without it, 0.
pub fn diff_exit_code(exit_code_flag: bool, total: usize) -> (code: i32)
    ensures
        code == if exit_code_flag && total > 0 {
            1i32
        } else {
            0i32
        },
{
    if exit_code_flag && total > 0 {
        1
    } else {
        0
    }
}

/// Whether a removal may go ahead: some label must be given, and a
/// non-interactive run must confirm with `--yes`.
pub fn check_rm(n_labels: usize, yes: bool, stdin_is_tty: bool) -> (r: Result<(), KairnError>)
    ensures
        n_labels == 0 ==> (r matches Err(e) && e.kind == ErrorKind::InvalidInput
            && e.message@ == "no labels given"@),
        n_labels > 0 && !yes && !stdin_is_tty ==> (r matches Err(e) && e.kind == ErrorKind::InvalidInput
            && e.message@ == "refusing to delete without --yes in non-interactive mode"@),
        n_labels > 0 && (yes || stdin_is_tty) ==> r is Ok,
{
    if n_labels == 0 {
        return Err(KairnError::invalid(string_of("no labels given")));
    }
    if !yes && !stdin_is_tty {
        return Err(
            KairnError::invalid(string_of("refusing to delete without --yes in non-interactive mode")),
        );
    }
    Ok(())
}

/// The first line of `s` as `str::lines` gives it (a `\r` before the first
/// `\n` is dropped), or nothing when `s` is empty.
pub open spec fn first_line(s: Seq<char>) -> Option<Seq<char>> {
    if s.len() == 0 {
        None
    } else if s.contains('\n') {
        let k = choose|k: int| 0 <= k < s.len() && s[k] == '\n' && forall|j: int| 0 <= j < k ==> s[j] != '\n';
        let l = s.take(k);
        if l.len() > 0 && l.last() == '\r' {
            Some(l.drop_last())
        } else {
            Some(l)
        }
    } else {
        Some(s)
    }
}

/// `s` with every leading copy of `p` removed (as `trim_start_matches`).
pub open spec fn trim_leading(s: Seq<char>, p: Seq<char>) -> Seq<char>
    decreases s.len(),
{
    if p.len() > 0 && p.len() <= s.len() && s.take(p.len() as int) == p {
        trim_leading(s.skip(p.len() as int), p)
    } else {
        s
    }
}

/// The message reported for a rejected command line: the first line of the
/// parser's rendered error without its leading `error: `.
pub open spec fn parse_error_text(rendered: Seq<char>) -> Seq<char> {
    match first_line(rendered) {
        Some(l) => trim_leading(l, "error: "@),
        None => trim_leading("invalid arguments"@, "error: "@),
    }
}

fn first_line_of(s: &Vec<char>) -> (r: Option<Vec<char>>)
    ensures
        match first_line(s@) {
            Some(l) => (r matches Some(v) && v@ == l),
            None => r is None,
        },
{
    if s.len() == 0 {
        return None;
    }
    let mut k: usize = 0;
    while k < s.len() && s[k] != '\n'
        invariant
            k <= s@.len(),
            forall|j: int| 0 <= j < k ==> s@[j] != '\n',
        decreases s@.len() - k,
    {
        k = k + 1;
    }
    let mut end = k;
    if k < s.len() && k > 0 && s[k - 1] == '\r' {
        end = k - 1;
    }
    let mut out: Vec<char> = Vec::new();
    let mut i: usize = 0;
    while i < end
        invariant
            end <= k <= s@.len(),
            i <= end,
            out@ == s@.take(i as int),
        decreases end - i,
    {
        out.push(s[i]);
        assert(s@.take(i + 1) =~= s@.take(i as int).push(s@[i as int]));
        i = i + 1;
    }
    proof {
        if k < s@.len() {
            assert(s@.contains('\n'));
            let c = choose|c: int| 0 <= c < s@.len() && s@[c] == '\n' && forall|j: int| 0 <= j < c ==> s@[j] != '\n';
            if c < k {
                assert(s@[c] != '\n');
            } else if c > k {
                assert(s@[k as int] != '\n');
            }
            assert(c == k);
            let l = s@.take(k as int);
            if l.len() > 0 && l.last() == '\r' {
                assert(out@ =~= l.drop_last());
            } else {
                assert(out@ =~= l);
            }
        } else {
            assert(!s@.contains('\n'));
            assert(out@ =~= s@);
        }
    }
    Some(out)
}

fn trim_leading_chars(s: Vec<char>, p: &Vec<char>) -> (r: Vec<char>)
    ensures
        r@ == trim_leading(s@, p@),
    decreases s@.len(),
{
    if p.len() == 0 || p.len() > s.len() {
        return s;
    }
    let mut j: usize = 0;
    while j < p.len()
        invariant
            0 < p@.len() <= s@.len(),
            j <= p@.len(),
            forall|m: int| 0 <= m < j ==> s@[m] == p@[m],
        decreases p@.len() - j,
    {
        if s[j] != p[j] {
            proof {
                assert(s@.take(p@.len() as int)[j as int] != p@[j as int]);
            }
            return s;
        }
        j = j + 1;
    }
    assert(s@.take(p@.len() as int) =~= p@);
    let mut s = s;
    let rest = s.split_off(p.len());
    trim_leading_chars(rest, p)
}

/// The message reported for a rejected command line.
pub fn parse_error_message(rendered: &str) -> (m: String)
    ensures
        m@ == parse_error_text(rendered@),
{
    let cs = crate::text::chars_of(rendered);
    let line = match first_line_of(&cs) {
        Some(l) => l,
        None => crate::text::chars_of("invalid arguments"),
    };
    let prefix = crate::text::chars_of("error: ");
    let trimmed = trim_leading_chars(line, &prefix);
    crate::text::string_from_chars(&trimmed)
}

/// Whether a change kind given with `--only` selects a change of kind `kind`.
pub fn matches_kind(arg: &ChangeKind, kind: &ChangeKind) -> (b: bool)
    ensures
        b == (*arg == *kind),
{
    *arg == *kind
}

/// Keeps the changes whose kind is one of `only`.
pub open spec fn kind_in(only: Seq<ChangeKind>) -> spec_fn(ChangeView) -> bool {
    |c: ChangeView| only.contains(c.kind)
}

fn kind_listed(only: &Vec<ChangeKind>, kind: &ChangeKind) -> (b: bool)
    ensures
        b == only@.contains(*kind),
{
    for i in 0..only.len()
        invariant
            forall|j: int| 0 <= j < i ==> only@[j] != *kind,
    {
        if matches_kind(&only[i], kind) {
            assert(only@[i as int] == *kind);
            return true;
        }
    }
    false
}

impl Change {
    /// A copy of this change.
    pub fn duplicate(&self) -> (r: Change)
        ensures
            r@ == self@,
    {
        Change {
            kind: self.kind,
            path: self.path.clone(),
            from_path: copy_opt_string(&self.from_path),
            old_hash: copy_opt_string(&self.old_hash),
            new_hash: copy_opt_string(&self.new_hash),
            size_delta: self.size_delta,
            content_preview: copy_opt_string(&self.content_preview),
        }
    }
}

/// What a filter keeps comes from the list and meets the predicate.
proof fn lemma_filter_member(s: Seq<ChangeView>, p: spec_fn(ChangeView) -> bool, x: ChangeView)
    requires
        s.filter(p).contains(x),
    ensures
        s.contains(x),
        p(x),
    decreases s.len(),
{
    if s.len() == 0 {
        assert(s.filter(p) =~= Seq::<ChangeView>::empty()) by {
            reveal(Seq::filter);
        }
    } else {
        let r = s.drop_last();
        assert(s =~= r.push(s.last()));
        r.lemma_filter_push(s.last(), p);
        if r.filter(p).contains(x) {
            lemma_filter_member(r, p, x);
            let i = choose|i: int| 0 <= i < r.len() && r[i] == x;
            assert(s[i] == x);
        } else {
            assert(x == s.last());
            assert(s[s.len() - 1] == x);
        }
    }
}

/// How many changes of kind `k` survive the filter: all of them when `k` is
/// listed, none otherwise.
proof fn lemma_only_counts(cs: Seq<ChangeView>, only: Seq<ChangeKind>, k: ChangeKind)
    ensures
        count_kind(cs.filter(kind_in(only)), k) == if exists|j: int| 0 <= j < only.len() && only[j] == k {
            count_kind(cs, k)
        } else {
            0
        },
    decreases cs.len(),
{
    let p = kind_in(only);
    let q = kind_is(k);
    if cs.len() == 0 {
        assert(cs.filter(p) =~= Seq::<ChangeView>::empty()) by {
            reveal(Seq::filter);
        }
        assert(cs.filter(p).filter(q) =~= Seq::<ChangeView>::empty()) by {
            reveal(Seq::filter);
        }
        assert(cs.filter(q) =~= Seq::<ChangeView>::empty()) by {
            reveal(Seq::filter);
        }
    } else {
        let r = cs.drop_last();
        let x = cs.last();
        lemma_only_counts(r, only, k);
        assert(cs =~= r.push(x));
        r.lemma_filter_push(x, p);
        r.lemma_filter_push(x, q);
        r.filter(p).lemma_filter_push(x, q);
        if p(x) && !(exists|j: int| 0 <= j < only.len() && only[j] == k) {
            let j = choose|j: int| 0 <= j < only.len() && only[j] == x.kind;
            assert(x.kind != k);
        }
        if q(x) && (exists|j: int| 0 <= j < only.len() && only[j] == k) {
            let j = choose|j: int| 0 <= j < only.len() && only[j] == k;
            assert(only[j] == x.kind);
            assert(p(x));
        }
    }
}

/// Law: `--only` keeps a change exactly when its kind is one of the listed
/// kinds, wherever in the list it stands; so for every kind, the kept changes
/// of that kind are all of them when it is listed and none otherwise.
pub proof fn law_only_keeps_listed_kinds(cs: Seq<ChangeView>, only: Seq<ChangeKind>)
    ensures
        forall|c: ChangeView|
            #[trigger] cs.filter(kind_in(only)).contains(c) <==> (cs.contains(c) && exists|j: int|
                0 <= j < only.len() && only[j] == c.kind),
        forall|k: ChangeKind|
            #[trigger] count_kind(cs.filter(kind_in(only)), k) == if exists|j: int|
                0 <= j < only.len() && only[j] == k {
                count_kind(cs, k)
            } else {
                0
            },
{
    broadcast use vstd::seq_lib::group_filter_ensures;

    assert forall|c: ChangeView|
        #[trigger] cs.filter(kind_in(only)).contains(c) <==> (cs.contains(c) && exists|j: int|
            0 <= j < only.len() && only[j] == c.kind) by {
        if cs.contains(c) && exists|j: int| 0 <= j < only.len() && only[j] == c.kind {
            let j = choose|j: int| 0 <= j < only.len() && only[j] == c.kind;
            assert(only.contains(c.kind));
            cs.lemma_filter_contains_rev(kind_in(only), c);
        }
        if cs.filter(kind_in(only)).contains(c) {
            lemma_filter_member(cs, kind_in(only), c);
            assert(only.contains(c.kind));
            let j = choose|j: int| 0 <= j < only.len() && only[j] == c.kind;
            assert(0 <= j < only.len() && only[j] == c.kind);
        }
    }
    assert forall|k: ChangeKind| #[trigger] count_kind(cs.filter(kind_in(only)), k) == if exists|j: int|
        0 <= j < only.len() && only[j] == k {
        count_kind(cs, k)
    } else {
        0
    } by {
        lemma_only_counts(cs, only, k);
    }
}

/// Applies an `--only` filter: with kinds given, keeps just the changes of
/// those kinds and recounts; with none, leaves the report as it is.
pub fn apply_only(report: &mut DiffReport, only: &Vec<ChangeKind>)
    requires
        old(report).counts_match(),
    ensures
        only@.len() == 0 ==> changes_view(final(report).changes@) == changes_view(
            old(report).changes@,
        ),
        only@.len() > 0 ==> changes_view(final(report).changes@) == changes_view(
            old(report).changes@,
        ).filter(kind_in(only@)),
        only@.len() > 0 ==> forall|c: ChangeView|
            #[trigger] changes_view(final(report).changes@).contains(c) <==> (changes_view(
                old(report).changes@,
            ).contains(c) && exists|j: int| 0 <= j < only@.len() && only@[j] == c.kind),
        final(report).counts_match(),
{
    if only.len() == 0 {
        return;
    }
    let ghost cs = changes_view(report.changes@);
    let mut kept: Vec<Change> = Vec::new();
    let n = report.changes.len();
    for i in 0..n
        invariant
            n == report.changes@.len(),
            cs == changes_view(report.changes@),
            changes_view(kept@) == cs.take(i as int).filter(kind_in(only@)),
    {
        let keep = kind_listed(only, &report.changes[i].kind);
        proof {
            assert(cs.take(i + 1) =~= cs.take(i as int).push(cs[i as int]));
            cs.take(i as int).lemma_filter_push(cs[i as int], kind_in(only@));
        }
        if keep {
            let ghost before = kept@;
            kept.push(report.changes[i].duplicate());
            assert(changes_view(kept@) =~= changes_view(before).push(cs[i as int]));
        }
    }
    assert(cs.take(n as int) =~= cs);
    proof { law_only_keeps_listed_kinds(cs, only@); }
    report.changes = kept;
    report.recount();
}

/// The first entry of `es` at path `p`, if any.
pub open spec fn first_at(es: Seq<EntryView>, p: Seq<char>) -> Option<EntryView>
    decreases es.len(),
{
    if es.len() == 0 {
        None
    } else if es[0].path == p {
        Some(es[0])
    } else {
        first_at(es.drop_first(), p)
    }
}

/// The inline text content stored for `path` in a manifest: that of the first
/// entry recorded at the path, if it has any.
pub open spec fn stored_content(es: Seq<EntryView>, p: Seq<char>) -> Option<Seq<char>> {
    match first_at(es, p) {
        Some(e) => e.content,
        None => None,
    }
}

proof fn lemma_first_at_prefix(es: Seq<EntryView>, i: int, p: Seq<char>)
    requires
        0 <= i < es.len(),
        es[i].path == p,
        forall|j: int| 0 <= j < i ==> es[j].path != p,
    ensures
        first_at(es, p) == Some(es[i]),
    decreases i,
{
    if i > 0 {
        lemma_first_at_prefix(es.drop_first(), i - 1, p);
    }
}

proof fn lemma_first_at_none(es: Seq<EntryView>, p: Seq<char>)
    requires
        forall|j: int| 0 <= j < es.len() ==> es[j].path != p,
    ensures
        first_at(es, p) is None,
    decreases es.len(),
{
    if es.len() > 0 {
        lemma_first_at_none(es.drop_first(), p);
    }
}

/// Look up the inline text content for `path` in a manifest, if stored.
pub fn content_of<'a>(m: &'a Manifest, path: &str) -> (r: Option<&'a String>)
    ensures
        match r {
            Some(s) => stored_content(entries_view(m.entries@), path@) == Some(s@),
            None => stored_content(entries_view(m.entries@), path@) is None,
        },
{
    let ghost ev = entries_view(m.entries@);
    for i in 0..m.entries.len()
        invariant
            ev == entries_view(m.entries@),
            forall|j: int| 0 <= j < i ==> ev[j].path != path@,
    {
        if same_text(m.entries[i].path.as_str(), path) {
            proof { lemma_first_at_prefix(ev, i as int, path@); }
            return match &m.entries[i].content {
                Some(c) => Some(c),
                None => None,
            };
        }
    }
    proof { lemma_first_at_none(ev, path@); }
    None
}

/// The note shown instead of a line diff when a side has no stored text.
pub open spec fn unavailable_note() -> Seq<char> {
    "<content unavailable (binary, too large, or --no-content)>"@
}

/// The preview attached to a modified change at `path`: a unified line diff
/// of the stored texts, or the note when either side stored none.
pub open spec fn preview_for(o: Seq<EntryView>, n: Seq<EntryView>, path: Seq<char>) -> Seq<char> {
    match (stored_content(o, path), stored_content(n, path)) {
        (Some(a), Some(b)) => unified_text(a, b, path),
        _ => unavailable_note(),
    }
}

/// The change with its preview filled in, when it is a modification.
pub open spec fn with_preview(c: ChangeView, o: Seq<EntryView>, n: Seq<EntryView>) -> ChangeView {
    if c.kind == ChangeKind::Modified {
        ChangeView { content_preview: Some(preview_for(o, n, c.path)), ..c }
    } else {
        c
    }
}

/// Attach a unified content diff to every modified change, from the inline
/// text stored in both manifests; where either side lacks stored content
/// (binary, oversized, or snapped without content) the preview says so.
pub fn attach_content(report: &mut DiffReport, old_m: &Manifest, new_m: &Manifest)
    ensures
        final(report).changes@.len() == old(report).changes@.len(),
        forall|i: int|
            0 <= i < final(report).changes@.len() ==> final(report).changes@[i]@ == with_preview(
                old(report).changes@[i]@,
                entries_view(old_m.entries@),
                entries_view(new_m.entries@),
            ),
        final(report).added == old(report).added,
        final(report).modified == old(report).modified,
        final(report).deleted == old(report).deleted,
        final(report).renamed == old(report).renamed,
{
    let ghost before = report.changes@;
    let mut out: Vec<Change> = Vec::new();
    let n = report.changes.len();
    for i in 0..n
        invariant
            n == report.changes@.len(),
            before == report.changes@,
            out@.len() == i,
            forall|j: int|
                0 <= j < i ==> out@[j]@ == with_preview(
                    before[j]@,
                    entries_view(old_m.entries@),
                    entries_view(new_m.entries@),
                ),
    {
        let mut c = report.changes[i].duplicate();
        if c.kind == ChangeKind::Modified {
            let preview = match (content_of(old_m, c.path.as_str()), content_of(new_m, c.path.as_str())) {
                (Some(a), Some(b)) => unified_diff(a.as_str(), b.as_str(), c.path.as_str()),
                _ => string_of("<content unavailable (binary, too large, or --no-content)>"),
            };
            c.content_preview = Some(preview);
        }
        out.push(c);
    }
    report.changes = out;
}

/// The mark a table row shows for a change kind given by name.
pub open spec fn change_mark(kind: Seq<char>) -> Seq<char> {
    if kind == "added"@ {
        "+"@
    } else if kind == "deleted"@ {
        "-"@
    } else if kind == "modified"@ {
        "~"@
    } else if kind == "renamed"@ {
        "\u{2192}"@
    } else {
        "?"@
    }
}

/// The mark a table row shows for a change kind given by name.
pub fn change_symbol(kind: &str) -> (s: &'static str)
    ensures
        s@ == change_mark(kind@),
{
    if same_text(kind, "added") {
        "+"
    } else if same_text(kind, "deleted") {
        "-"
    } else if same_text(kind, "modified") {
        "~"
    } else if same_text(kind, "renamed") {
        "\u{2192}"
    } else {
        "?"
    }
}

} // verus!
