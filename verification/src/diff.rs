//! Pure diff over two manifests.

use vstd::prelude::*;
use crate::manifest::{
    Entry, EntryKind, EntryView, Manifest, copy_opt_string, entries_view, entry_path, opt_text,
    sort_entries_by_path,
};
use crate::order::{Cmp, compare_text, is_stable_sort_by, key_is, lemma_text_order, sorted_by, text_lt};

verus! {

/// The entries of `es` recorded at path `p`, in their order.
pub open spec fn group(es: Seq<EntryView>, p: Seq<char>) -> Seq<EntryView> {
    es.filter(key_is(entry_path(), p))
}

/// The entry a manifest holds for path `p`: the last one recorded there.
pub open spec fn lookup(es: Seq<EntryView>, p: Seq<char>) -> Option<EntryView> {
    if group(es, p).len() > 0 {
        Some(group(es, p).last())
    } else {
        None
    }
}

/// The paths of `es` strictly ascend.
pub open spec fn strictly_sorted(es: Seq<EntryView>) -> bool {
    forall|i: int, j: int| 0 <= i < j < es.len() ==> text_lt(es[i].path, es[j].path)
}

/// `d` holds, in path order, the entry `es` has for each of its paths.
pub open spec fn is_path_index(d: Seq<EntryView>, es: Seq<EntryView>) -> bool {
    &&& strictly_sorted(d)
    &&& forall|i: int| 0 <= i < d.len() ==> lookup(es, #[trigger] d[i].path) == Some(d[i])
    &&& forall|p: Seq<char>| #[trigger] lookup(es, p) is Some ==> exists|i: int|
        0 <= i < d.len() && d[i].path == p
}

proof fn lemma_group_last_in_sorted(s: Seq<EntryView>, t: int)
    requires
        sorted_by(s, entry_path()),
        0 <= t < s.len(),
        t + 1 == s.len() || s[t + 1].path != s[t].path,
    ensures
        group(s, s[t].path).len() > 0,
        group(s, s[t].path).last() == s[t],
{
    broadcast use vstd::seq_lib::group_filter_ensures;

    lemma_text_order();
    let k = s[t].path;
    let p = key_is(entry_path(), k);
    let pre = s.take(t + 1);
    let post = s.skip(t + 1);
    assert(s =~= pre + post);
    vstd::seq::Seq::filter_distributes_over_add(pre, post, p);
    assert forall|u: int| 0 <= u < post.len() implies !p(post[u]) by {
        assert(post[u] == s[t + 1 + u]);
        if u > 0 {
            assert(!text_lt(s[t + 1 + u].path, s[t + 1].path));
        }
        assert(!text_lt(s[t + 1].path, s[t].path));
        if s[t + 1 + u].path == k {
            assert(text_lt(s[t].path, s[t + 1].path));
        }
    }
    post.lemma_all_neg_filter_empty(p);
    assert(pre =~= s.take(t).push(s[t]));
    s.take(t).lemma_filter_push(s[t], p);
    assert(post.filter(p) =~= Seq::<EntryView>::empty());
    assert(s.filter(p) =~= s.take(t).filter(p).push(s[t]));
}

proof fn lemma_group_end_exists(s: Seq<EntryView>, i: int) -> (t: int)
    requires
        0 <= i < s.len(),
    ensures
        i <= t < s.len(),
        s[t].path == s[i].path,
        t + 1 == s.len() || s[t + 1].path != s[t].path,
    decreases s.len() - i,
{
    if i + 1 == s.len() || s[i + 1].path != s[i].path {
        i
    } else {
        lemma_group_end_exists(s, i + 1)
    }
}

/// The entry recorded last at each path of `entries`, in path order.
pub fn latest_entries(entries: &Vec<Entry>) -> (d: Vec<Entry>)
    ensures
        is_path_index(entries_view(d@), entries_view(entries@)),
{
    let s = sort_entries_by_path(entries);
    let ghost sv = entries_view(s@);
    let ghost ev = entries_view(entries@);
    let mut d: Vec<Entry> = Vec::new();
    let n = s.len();
    let mut t: usize = 0;
    while t < n
        invariant
            t <= n,
            n == s@.len(),
            sv == entries_view(s@),
            is_stable_sort_by(sv, ev, entry_path()),
            strictly_sorted(entries_view(d@)),
            forall|u: int| 0 <= u < d@.len() && t < n ==> text_lt(d@[u]@.path, sv[t as int].path),
            forall|u: int| 0 <= u < d@.len() ==> lookup(ev, #[trigger] d@[u]@.path) == Some(d@[u]@),
            forall|w: int|
                0 <= w < t && (w + 1 == n || sv[w + 1].path != sv[w].path) ==> exists|u: int|
                    0 <= u < d@.len() && d@[u]@.path == #[trigger] sv[w].path,
        decreases n - t,
    {
        proof { lemma_text_order(); }
        let last = t + 1 == n || match compare_text(s[t + 1].path.as_str(), s[t].path.as_str()) {
            Cmp::Equal => false,
            _ => true,
        };
        if last {
            let ghost old_d = entries_view(d@);
            let ghost old_dd = d@;
            d.push(s[t].duplicate());
            proof {
                assert forall|w: int|
                    0 <= w < t + 1 && (w + 1 == n || sv[w + 1].path != sv[w].path) implies exists|
                        u: int,
                    | 0 <= u < d@.len() && d@[u]@.path == #[trigger] sv[w].path by {
                    if w == t {
                        assert(d@[d@.len() - 1]@.path == sv[w].path);
                    } else {
                        let u = choose|u: int|
                            0 <= u < old_dd.len() && old_dd[u]@.path == #[trigger] sv[w].path;
                        assert(d@[u] == old_dd[u]);
                    }
                }
                lemma_group_last_in_sorted(sv, t as int);
                assert(group(sv, sv[t as int].path) == group(ev, sv[t as int].path));
                assert(entries_view(d@) =~= old_d.push(sv[t as int]));
                if t + 1 < n {
                    assert(!text_lt(sv[t + 1].path, sv[t as int].path));
                    assert(text_lt(sv[t as int].path, sv[t + 1].path));
                }
                assert(d@[d@.len() - 1]@.path == sv[t as int].path);
            }
        } else {
            proof {
                assert(sv[t + 1].path == sv[t as int].path);
                assert forall|w: int|
                    0 <= w < t + 1 && (w + 1 == n || sv[w + 1].path != sv[w].path) implies exists|
                        u: int,
                    | 0 <= u < d@.len() && d@[u]@.path == #[trigger] sv[w].path by {
                    assert(w < t);
                }
            }
        }
        t = t + 1;
    }
    proof {
        let dv = entries_view(d@);
        assert forall|i: int| 0 <= i < dv.len() implies lookup(ev, #[trigger] dv[i].path) == Some(
            dv[i],
        ) by {
            assert(dv[i] == d@[i]@);
        }
        assert forall|p: Seq<char>| #[trigger] lookup(ev, p) is Some implies exists|i: int|
            0 <= i < dv.len() && dv[i].path == p by {
            assert(group(sv, p) == group(ev, p));
            let g = group(sv, p);
            broadcast use vstd::seq_lib::group_filter_ensures;
            assert(g.contains(g[0]));
            sv.lemma_filter_contains_rev(key_is(entry_path(), p), g[0]);
            let i0 = choose|i: int| 0 <= i < sv.len() && sv[i] == g[0];
            assert(key_is(entry_path(), p)(g[0]));
            let w = lemma_group_end_exists(sv, i0);
            let u = choose|u: int| 0 <= u < d@.len() && d@[u]@.path == #[trigger] sv[w].path;
            assert(dv[u].path == p);
        }
    }
    d
}

/// The classification of a single change.
#[derive(Debug, Clone, Copy, PartialEq, Eq, Structural)]
pub enum ChangeKind {
    Added,
    Modified,
    Deleted,
    Renamed,
}

/// One change between two manifests.
#[derive(Debug, Clone)]
pub struct Change {
    pub kind: ChangeKind,
    pub path: String,
    pub from_path: Option<String>,
    pub old_hash: Option<String>,
    pub new_hash: Option<String>,
    pub size_delta: Option<i64>,
    pub content_preview: Option<String>,
}

/// A change as values.
pub ghost struct ChangeView {
    pub kind: ChangeKind,
    pub path: Seq<char>,
    pub from_path: Option<Seq<char>>,
    pub old_hash: Option<Seq<char>>,
    pub new_hash: Option<Seq<char>>,
    pub size_delta: Option<i64>,
    pub content_preview: Option<Seq<char>>,
}

impl View for Change {
    type V = ChangeView;

    open spec fn view(&self) -> ChangeView {
        ChangeView {
            kind: self.kind,
            path: self.path@,
            from_path: opt_text(self.from_path),
            old_hash: opt_text(self.old_hash),
            new_hash: opt_text(self.new_hash),
            size_delta: self.size_delta,
            content_preview: opt_text(self.content_preview),
        }
    }
}

/// The changes as values.
pub open spec fn changes_view(cs: Seq<Change>) -> Seq<ChangeView> {
    cs.map_values(|c: Change| c@)
}

/// An entry counts as modified when its content hash, mode, symlink target or
/// kind differ; size and mtime never count.
pub open spec fn entry_changed(a: EntryView, b: EntryView) -> bool {
    a.hash != b.hash || a.mode != b.mode || a.target != b.target || a.kind != b.kind
}

/// `p` is in the new manifest only.
pub open spec fn is_added(o: Seq<EntryView>, n: Seq<EntryView>, p: Seq<char>) -> bool {
    lookup(n, p) is Some && lookup(o, p) is None
}

/// `p` is in the old manifest only.
pub open spec fn is_deleted(o: Seq<EntryView>, n: Seq<EntryView>, p: Seq<char>) -> bool {
    lookup(o, p) is Some && lookup(n, p) is None
}

/// `p` is in both manifests and its entry changed.
pub open spec fn is_modified(o: Seq<EntryView>, n: Seq<EntryView>, p: Seq<char>) -> bool {
    &&& lookup(o, p) is Some
    &&& lookup(n, p) is Some
    &&& entry_changed(lookup(o, p)->0, lookup(n, p)->0)
}

/// What a rename must preserve: content hash, mode and kind.
pub ghost struct Signature {
    pub hash: Seq<char>,
    pub mode: Option<u32>,
    pub kind: EntryKind,
}

/// The signature of an entry; entries without a content hash have none.
pub open spec fn signature(e: EntryView) -> Option<Signature> {
    match e.hash {
        Some(h) => Some(Signature { hash: h, mode: e.mode, kind: e.kind }),
        None => None,
    }
}

pub open spec fn added_with(o: Seq<EntryView>, n: Seq<EntryView>, s: Signature, p: Seq<char>) -> bool {
    is_added(o, n, p) && signature(lookup(n, p)->0) == Some(s)
}

pub open spec fn deleted_with(o: Seq<EntryView>, n: Seq<EntryView>, s: Signature, p: Seq<char>) -> bool {
    is_deleted(o, n, p) && signature(lookup(o, p)->0) == Some(s)
}

/// Deleted `d` and added `a` form a rename: they share a signature, and no
/// other deleted path and no other added path has it (an ambiguous pairing is
/// left as plain deletions and additions).
pub open spec fn is_rename(o: Seq<EntryView>, n: Seq<EntryView>, d: Seq<char>, a: Seq<char>) -> bool {
    &&& is_added(o, n, a)
    &&& signature(lookup(n, a)->0) is Some
    &&& deleted_with(o, n, signature(lookup(n, a)->0)->0, d)
    &&& forall|q: Seq<char>|
        #[trigger] deleted_with(o, n, signature(lookup(n, a)->0)->0, q) ==> q == d
    &&& forall|q: Seq<char>|
        #[trigger] added_with(o, n, signature(lookup(n, a)->0)->0, q) ==> q == a
}

/// The change reported for path `p`, if any.
pub open spec fn expected_change(o: Seq<EntryView>, n: Seq<EntryView>, p: Seq<char>) -> Option<
    ChangeView,
> {
    if is_added(o, n, p) {
        let ne = lookup(n, p)->0;
        if exists|d: Seq<char>| is_rename(o, n, d, p) {
            let d = choose|d: Seq<char>| is_rename(o, n, d, p);
            Some(
                ChangeView {
                    kind: ChangeKind::Renamed,
                    path: p,
                    from_path: Some(d),
                    old_hash: (lookup(o, d)->0).hash,
                    new_hash: ne.hash,
                    size_delta: None,
                    content_preview: None,
                },
            )
        } else {
            Some(
                ChangeView {
                    kind: ChangeKind::Added,
                    path: p,
                    from_path: None,
                    old_hash: None,
                    new_hash: ne.hash,
                    size_delta: match ne.size {
                        Some(sz) => Some(sz as i64),
                        None => None,
                    },
                    content_preview: None,
                },
            )
        }
    } else if is_deleted(o, n, p) {
        let oe = lookup(o, p)->0;
        if exists|a: Seq<char>| is_rename(o, n, p, a) {
            None
        } else {
            Some(
                ChangeView {
                    kind: ChangeKind::Deleted,
                    path: p,
                    from_path: None,
                    old_hash: oe.hash,
                    new_hash: None,
                    size_delta: match oe.size {
                        Some(sz) => Some(0i64.wrapping_sub(sz as i64)),
                        None => None,
                    },
                    content_preview: None,
                },
            )
        }
    } else if is_modified(o, n, p) {
        let oe = lookup(o, p)->0;
        let ne = lookup(n, p)->0;
        Some(
            ChangeView {
                kind: ChangeKind::Modified,
                path: p,
                from_path: None,
                old_hash: oe.hash,
                new_hash: ne.hash,
                size_delta: match (oe.size, ne.size) {
                    (Some(os), Some(ns)) => Some((ns as i64).wrapping_sub(os as i64)),
                    _ => None,
                },
                content_preview: None,
            },
        )
    } else {
        None
    }
}

/// `cs` reports, in strictly ascending path order, exactly the changes
/// expected from `o` to `n`.
pub open spec fn is_diff_of(cs: Seq<ChangeView>, o: Seq<EntryView>, n: Seq<EntryView>) -> bool {
    &&& forall|i: int, j: int| 0 <= i < j < cs.len() ==> text_lt(cs[i].path, cs[j].path)
    &&& forall|i: int| 0 <= i < cs.len() ==> expected_change(o, n, #[trigger] cs[i].path) == Some(cs[i])
    &&& forall|p: Seq<char>| #[trigger] expected_change(o, n, p) is Some ==> exists|i: int|
        0 <= i < cs.len() && cs[i].path == p
}


/// One step of the walk over two path indexes: a path only in the new
/// index, only in the old one, or in both with a changed entry.
#[derive(Clone, Copy)]
enum Step {
    Add(usize),
    Del(usize),
    Mod(usize, usize),
}

/// The outcome of walking two path indexes.
struct Walk {
    steps: Vec<Step>,
    added: Vec<usize>,
    deleted: Vec<usize>,
}

spec fn step_path(od: Seq<EntryView>, nd: Seq<EntryView>, st: Step) -> Seq<char> {
    match st {
        Step::Add(x) => nd[x as int].path,
        Step::Del(y) => od[y as int].path,
        Step::Mod(_y, x) => nd[x as int].path,
    }
}

spec fn has_path(es: Seq<EntryView>, p: Seq<char>) -> bool {
    exists|y: int| 0 <= y < es.len() && es[y].path == p
}

spec fn step_ok(od: Seq<EntryView>, nd: Seq<EntryView>, st: Step) -> bool {
    match st {
        Step::Add(x) => x < nd.len() && !has_path(od, nd[x as int].path),
        Step::Del(y) => y < od.len() && !has_path(nd, od[y as int].path),
        Step::Mod(y, x) => {
            &&& y < od.len()
            &&& x < nd.len()
            &&& od[y as int].path == nd[x as int].path
            &&& entry_changed(od[y as int], nd[x as int])
        },
    }
}

spec fn covers_adds(ov: Seq<EntryView>, nv: Seq<EntryView>, steps: Seq<Step>) -> bool {
    forall|x: int|
        0 <= x < nv.len() && !has_path(ov, #[trigger] nv[x].path) ==> exists|t: int|
            0 <= t < steps.len() && steps[t] == Step::Add(x as usize)
}

spec fn covers_dels(ov: Seq<EntryView>, nv: Seq<EntryView>, steps: Seq<Step>) -> bool {
    forall|y: int|
        0 <= y < ov.len() && !has_path(nv, #[trigger] ov[y].path) ==> exists|t: int|
            0 <= t < steps.len() && steps[t] == Step::Del(y as usize)
}

spec fn strictly_increasing(v: Seq<usize>) -> bool {
    forall|i: int, j: int| 0 <= i < j < v.len() ==> v[i] < v[j]
}

/// Whether two entries differ in what counts as a change.
fn entries_differ(a: &Entry, b: &Entry) -> (r: bool)
    ensures
        r == entry_changed(a@, b@),
{
    let same_hash = match (&a.hash, &b.hash) {
        (Some(x), Some(y)) => *x == *y,
        (None, None) => true,
        _ => false,
    };
    let same_target = match (&a.target, &b.target) {
        (Some(x), Some(y)) => *x == *y,
        (None, None) => true,
        _ => false,
    };
    !same_hash || a.mode != b.mode || !same_target || a.kind != b.kind
}

/// Walks two path indexes in step, listing in path order the paths found in
/// one only and the paths whose entry changed; also lists the new-only and
/// the old-only positions.
fn classify(od: &Vec<Entry>, nd: &Vec<Entry>) -> (r: Walk)
    requires
        strictly_sorted(entries_view(od@)),
        strictly_sorted(entries_view(nd@)),
    ensures
        forall|i: int, j: int|
            0 <= i < j < r.steps@.len() ==> text_lt(
                step_path(entries_view(od@), entries_view(nd@), r.steps@[i]),
                step_path(entries_view(od@), entries_view(nd@), r.steps@[j]),
            ),
        forall|t: int|
            0 <= t < r.steps@.len() ==> step_ok(entries_view(od@), entries_view(nd@), #[trigger] r.steps@[t]),
        covers_adds(entries_view(od@), entries_view(nd@), r.steps@),
        covers_dels(entries_view(od@), entries_view(nd@), r.steps@),
        forall|y: int, x: int|
            0 <= y < od@.len() && 0 <= x < nd@.len() && #[trigger] entries_view(od@)[y].path
                == #[trigger] entries_view(nd@)[x].path && entry_changed(
                entries_view(od@)[y],
                entries_view(nd@)[x],
            ) ==> exists|t: int| 0 <= t < r.steps@.len() && r.steps@[t] == Step::Mod(y as usize, x as usize),
        strictly_increasing(r.added@),
        forall|t: int|
            0 <= t < r.added@.len() ==> r.added@[t] < nd@.len() && !has_path(
                entries_view(od@),
                entries_view(nd@)[#[trigger] r.added@[t] as int].path,
            ),
        forall|x: int|
            0 <= x < nd@.len() && !has_path(entries_view(od@), #[trigger] entries_view(nd@)[x].path)
                ==> exists|t: int| 0 <= t < r.added@.len() && r.added@[t] == x,
        strictly_increasing(r.deleted@),
        forall|t: int|
            0 <= t < r.deleted@.len() ==> r.deleted@[t] < od@.len() && !has_path(
                entries_view(nd@),
                entries_view(od@)[#[trigger] r.deleted@[t] as int].path,
            ),
        forall|y: int|
            0 <= y < od@.len() && !has_path(entries_view(nd@), #[trigger] entries_view(od@)[y].path)
                ==> exists|t: int| 0 <= t < r.deleted@.len() && r.deleted@[t] == y,
{
    let ghost ov = entries_view(od@);
    let ghost nv = entries_view(nd@);
    let mut steps: Vec<Step> = Vec::new();
    let mut added: Vec<usize> = Vec::new();
    let mut deleted: Vec<usize> = Vec::new();
    let mut i: usize = 0;
    let mut j: usize = 0;
    while i < nd.len() || j < od.len()
        invariant
            ov == entries_view(od@),
            nv == entries_view(nd@),
            strictly_sorted(ov),
            strictly_sorted(nv),
            i <= nv.len(),
            j <= ov.len(),
            forall|a: int, b: int|
                0 <= a < b < steps@.len() ==> text_lt(
                    step_path(ov, nv, steps@[a]),
                    step_path(ov, nv, steps@[b]),
                ),
            forall|t: int| 0 <= t < steps@.len() ==> step_ok(ov, nv, #[trigger] steps@[t]),
            forall|t: int|
                0 <= t < steps@.len() && i < nv.len() ==> text_lt(
                    step_path(ov, nv, #[trigger] steps@[t]),
                    nv[i as int].path,
                ),
            forall|t: int|
                0 <= t < steps@.len() && j < ov.len() ==> text_lt(
                    step_path(ov, nv, #[trigger] steps@[t]),
                    ov[j as int].path,
                ),
            forall|y: int| 0 <= y < j && i < nv.len() ==> text_lt(ov[y].path, nv[i as int].path),
            forall|x: int| 0 <= x < i && j < ov.len() ==> text_lt(nv[x].path, ov[j as int].path),
            forall|x: int|
                0 <= x < i && !has_path(ov, #[trigger] nv[x].path) ==> exists|t: int|
                    0 <= t < steps@.len() && steps@[t] == Step::Add(x as usize),
            forall|y: int|
                0 <= y < j && !has_path(nv, #[trigger] ov[y].path) ==> exists|t: int|
                    0 <= t < steps@.len() && steps@[t] == Step::Del(y as usize),
            forall|y: int, x: int|
                0 <= y < ov.len() && 0 <= x < i && #[trigger] ov[y].path == #[trigger] nv[x].path
                    && entry_changed(ov[y], nv[x]) ==> exists|t: int|
                    0 <= t < steps@.len() && steps@[t] == Step::Mod(y as usize, x as usize),
            strictly_increasing(added@),
            forall|t: int| 0 <= t < added@.len() ==> added@[t] < i,
            forall|t: int|
                0 <= t < added@.len() ==> !has_path(ov, nv[#[trigger] added@[t] as int].path),
            forall|x: int|
                0 <= x < i && !has_path(ov, #[trigger] nv[x].path) ==> exists|t: int|
                    0 <= t < added@.len() && added@[t] == x,
            strictly_increasing(deleted@),
            forall|t: int| 0 <= t < deleted@.len() ==> deleted@[t] < j,
            forall|t: int|
                0 <= t < deleted@.len() ==> !has_path(nv, ov[#[trigger] deleted@[t] as int].path),
            forall|y: int|
                0 <= y < j && !has_path(nv, #[trigger] ov[y].path) ==> exists|t: int|
                    0 <= t < deleted@.len() && deleted@[t] == y,
        decreases nv.len() + ov.len() - i - j,
    {
        proof { lemma_text_order(); }
        let c = if i == nd.len() {
            Cmp::Greater
        } else if j == od.len() {
            Cmp::Less
        } else {
            compare_text(nd[i].path.as_str(), od[j].path.as_str())
        };
        let ghost old_steps = steps@;
        let ghost old_added = added@;
        let ghost old_deleted = deleted@;
        match c {
            Cmp::Less => {
                // the new path is in no old position
                proof {
                    assert forall|y: int| 0 <= y < ov.len() implies ov[y].path != nv[i as int].path by {
                        if y < j {
                            assert(text_lt(ov[y].path, nv[i as int].path));
                        } else if y > j {
                            assert(text_lt(ov[j as int].path, ov[y].path));
                        }
                    }
                }
                steps.push(Step::Add(i));
                added.push(i);
                proof {
                    assert forall|x: int|
                        0 <= x < i + 1 && !has_path(ov, #[trigger] nv[x].path) implies exists|t: int|
                        0 <= t < steps@.len() && steps@[t] == Step::Add(x as usize) by {
                        if x == i {
                            assert(steps@[steps@.len() - 1] == Step::Add(x as usize));
                        } else {
                            let t = choose|t: int|
                                0 <= t < old_steps.len() && old_steps[t] == Step::Add(x as usize);
                            assert(steps@[t] == old_steps[t]);
                        }
                    }
                    assert forall|x: int|
                        0 <= x < i + 1 && !has_path(ov, #[trigger] nv[x].path) implies exists|t: int|
                        0 <= t < added@.len() && added@[t] == x by {
                        if x == i {
                            assert(added@[added@.len() - 1] == x);
                        } else {
                            let t = choose|t: int| 0 <= t < old_added.len() && old_added[t] == x;
                            assert(added@[t] == old_added[t]);
                        }
                    }
                    assert forall|y: int| 0 <= y < j && #[trigger] steps@.len() > 0 && !has_path(
                        nv,
                        ov[y].path,
                    ) implies exists|t: int|
                        0 <= t < steps@.len() && steps@[t] == Step::Del(y as usize) by {
                        let t = choose|t: int|
                            0 <= t < old_steps.len() && old_steps[t] == Step::Del(y as usize);
                        assert(steps@[t] == old_steps[t]);
                    }
                    assert forall|y: int, x: int|
                        0 <= y < ov.len() && 0 <= x < i + 1 && #[trigger] ov[y].path
                            == #[trigger] nv[x].path && entry_changed(ov[y], nv[x]) implies exists|
                        t: int,
                    | 0 <= t < steps@.len() && steps@[t] == Step::Mod(y as usize, x as usize) by {
                        if x == i {
                            assert(has_path(ov, nv[x].path));
                        } else {
                            let t = choose|t: int|
                                0 <= t < old_steps.len() && old_steps[t] == Step::Mod(
                                    y as usize,
                                    x as usize,
                                );
                            assert(steps@[t] == old_steps[t]);
                        }
                    }
                    if i + 1 < nv.len() {
                        assert(text_lt(nv[i as int].path, nv[i + 1].path));
                    }
                }
                i = i + 1;
            },
            Cmp::Greater => {
                proof {
                    assert forall|x: int| 0 <= x < nv.len() implies nv[x].path != ov[j as int].path by {
                        if x < i {
                            assert(text_lt(nv[x].path, ov[j as int].path));
                        } else if x > i {
                            assert(text_lt(nv[i as int].path, nv[x].path));
                        }
                    }
                }
                steps.push(Step::Del(j));
                deleted.push(j);
                proof {
                    assert forall|y: int|
                        0 <= y < j + 1 && !has_path(nv, #[trigger] ov[y].path) implies exists|t: int|
                        0 <= t < steps@.len() && steps@[t] == Step::Del(y as usize) by {
                        if y == j {
                            assert(steps@[steps@.len() - 1] == Step::Del(y as usize));
                        } else {
                            let t = choose|t: int|
                                0 <= t < old_steps.len() && old_steps[t] == Step::Del(y as usize);
                            assert(steps@[t] == old_steps[t]);
                        }
                    }
                    assert forall|y: int|
                        0 <= y < j + 1 && !has_path(nv, #[trigger] ov[y].path) implies exists|t: int|
                        0 <= t < deleted@.len() && deleted@[t] == y by {
                        if y == j {
                            assert(deleted@[deleted@.len() - 1] == y);
                        } else {
                            let t = choose|t: int| 0 <= t < old_deleted.len() && old_deleted[t] == y;
                            assert(deleted@[t] == old_deleted[t]);
                        }
                    }
                    assert forall|x: int|
                        0 <= x < i && !has_path(ov, #[trigger] nv[x].path) implies exists|t: int|
                        0 <= t < steps@.len() && steps@[t] == Step::Add(x as usize) by {
                        let t = choose|t: int|
                            0 <= t < old_steps.len() && old_steps[t] == Step::Add(x as usize);
                        assert(steps@[t] == old_steps[t]);
                    }
                    assert forall|y: int, x: int|
                        0 <= y < ov.len() && 0 <= x < i && #[trigger] ov[y].path
                            == #[trigger] nv[x].path && entry_changed(ov[y], nv[x]) implies exists|
                        t: int,
                    | 0 <= t < steps@.len() && steps@[t] == Step::Mod(y as usize, x as usize) by {
                        let t = choose|t: int|
                            0 <= t < old_steps.len() && old_steps[t] == Step::Mod(
                                y as usize,
                                x as usize,
                            );
                        assert(steps@[t] == old_steps[t]);
                    }
                    if j + 1 < ov.len() {
                        assert(text_lt(ov[j as int].path, ov[j + 1].path));
                    }
                }
                j = j + 1;
            },
            Cmp::Equal => {
                let changed = entries_differ(&od[j], &nd[i]);
                if changed {
                    steps.push(Step::Mod(j, i));
                }
                proof {
                    assert(has_path(ov, nv[i as int].path));
                    assert(has_path(nv, ov[j as int].path));
                    assert forall|x: int|
                        0 <= x < i + 1 && !has_path(ov, #[trigger] nv[x].path) implies exists|t: int|
                        0 <= t < steps@.len() && steps@[t] == Step::Add(x as usize) by {
                        let t = choose|t: int|
                            0 <= t < old_steps.len() && old_steps[t] == Step::Add(x as usize);
                        assert(steps@[t] == old_steps[t]);
                    }
                    assert forall|y: int|
                        0 <= y < j + 1 && !has_path(nv, #[trigger] ov[y].path) implies exists|t: int|
                        0 <= t < steps@.len() && steps@[t] == Step::Del(y as usize) by {
                        let t = choose|t: int|
                            0 <= t < old_steps.len() && old_steps[t] == Step::Del(y as usize);
                        assert(steps@[t] == old_steps[t]);
                    }
                    assert forall|y: int, x: int|
                        0 <= y < ov.len() && 0 <= x < i + 1 && #[trigger] ov[y].path
                            == #[trigger] nv[x].path && entry_changed(ov[y], nv[x]) implies exists|
                        t: int,
                    | 0 <= t < steps@.len() && steps@[t] == Step::Mod(y as usize, x as usize) by {
                        if x == i {
                            if y < j {
                                assert(text_lt(ov[y].path, nv[i as int].path));
                            } else if y > j {
                                assert(text_lt(ov[j as int].path, ov[y].path));
                            }
                            assert(y == j);
                            assert(steps@[steps@.len() - 1] == Step::Mod(y as usize, x as usize));
                        } else {
                            let t = choose|t: int|
                                0 <= t < old_steps.len() && old_steps[t] == Step::Mod(
                                    y as usize,
                                    x as usize,
                                );
                            assert(steps@[t] == old_steps[t]);
                        }
                    }
                    if i + 1 < nv.len() {
                        assert(text_lt(nv[i as int].path, nv[i + 1].path));
                    }
                    if j + 1 < ov.len() {
                        assert(text_lt(ov[j as int].path, ov[j + 1].path));
                    }
                }
                i = i + 1;
                j = j + 1;
            },
        }
    }
    proof {
        assert forall|x: int|
            0 <= x < nv.len() && !has_path(ov, #[trigger] nv[x].path) implies exists|t: int|
            0 <= t < steps@.len() && steps@[t] == Step::Add(x as usize) by {
            assert(x < i);
        }
        assert(covers_adds(ov, nv, steps@));
        assert forall|y: int|
            0 <= y < ov.len() && !has_path(nv, #[trigger] ov[y].path) implies exists|t: int|
            0 <= t < steps@.len() && steps@[t] == Step::Del(y as usize) by {
            assert(y < j);
        }
        assert(covers_dels(ov, nv, steps@));
    }
    Walk { steps, added, deleted }
}


spec fn sig_at(ev: Seq<EntryView>, list: Seq<usize>, s: Signature, t: int) -> bool {
    signature(ev[list[t] as int]) == Some(s)
}

#[verifier::opaque]
spec fn not_sole(ev: Seq<EntryView>, list: Seq<usize>, s: Signature) -> bool {
    forall|t: int|
        0 <= t < list.len() && sig_at(ev, list, s, t) ==> exists|u: int|
            0 <= u < list.len() && u != t && sig_at(ev, list, s, u)
}

/// The one position of `list` whose entry has signature (`hash`, `mode`,
/// `kind`), if exactly one has it.
fn sole_match(es: &Vec<Entry>, list: &Vec<usize>, hash: &String, mode: Option<u32>, kind: EntryKind) -> (r: Option<usize>)
    requires
        forall|t: int| 0 <= t < list@.len() ==> list@[t] < es@.len(),
    ensures
        ({
            let s = Signature { hash: hash@, mode: mode, kind: kind };
            let ev = entries_view(es@);
            match r {
                Some(t) => {
                    &&& t < list@.len()
                    &&& sig_at(ev, list@, s, t as int)
                    &&& forall|u: int| 0 <= u < list@.len() && sig_at(ev, list@, s, u) ==> u == t
                },
                None => not_sole(ev, list@, s),
            }
        }),
{
    let ghost s = Signature { hash: hash@, mode: mode, kind: kind };
    let ghost ev = entries_view(es@);
    let mut found: Option<usize> = None;
    for t in 0..list.len()
        invariant
            forall|t: int| 0 <= t < list@.len() ==> list@[t] < es@.len(),
            s == (Signature { hash: hash@, mode: mode, kind: kind }),
            ev == entries_view(es@),
            match found {
                Some(f) => f < t && sig_at(ev, list@, s, f as int) && forall|u: int|
                    0 <= u < t && sig_at(ev, list@, s, u) ==> u == f,
                None => forall|u: int| 0 <= u < t ==> !sig_at(ev, list@, s, u),
            },
    {
        let e = &es[list[t]];
        let m = match &e.hash {
            Some(h) => *h == *hash && e.mode == mode && e.kind == kind,
            None => false,
        };
        assert(m == sig_at(ev, list@, s, t as int));
        if m {
            match found {
                Some(f) => {
                    assert(not_sole(ev, list@, s)) by {
                        reveal(not_sole);
                        assert forall|w: int|
                            0 <= w < list@.len() && sig_at(ev, list@, s, w) implies exists|u: int|
                            0 <= u < list@.len() && u != w && sig_at(ev, list@, s, u) by {
                            if w == t {
                                assert(sig_at(ev, list@, s, f as int));
                            } else {
                                assert(sig_at(ev, list@, s, t as int));
                            }
                        }
                    }
                    return None;
                },
                None => {
                    found = Some(t);
                },
            }
        }
    }
    assert(found is None ==> not_sole(ev, list@, s)) by {
        reveal(not_sole);
    }
    found
}

/// The facts the diff works from: the path index of each manifest, and the
/// positions of the paths found only in the new one and only in the old one.
#[verifier::opaque]
spec fn diff_ctx(
    o: Seq<EntryView>,
    n: Seq<EntryView>,
    ov: Seq<EntryView>,
    nv: Seq<EntryView>,
    added: Seq<usize>,
    deleted: Seq<usize>,
) -> bool {
    &&& is_path_index(ov, o)
    &&& is_path_index(nv, n)
    &&& strictly_increasing(added)
    &&& forall|t: int|
        0 <= t < added.len() ==> added[t] < nv.len() && !has_path(ov, nv[#[trigger] added[t] as int].path)
    &&& forall|x: int|
        0 <= x < nv.len() && !has_path(ov, #[trigger] nv[x].path) ==> exists|t: int|
            0 <= t < added.len() && added[t] == x
    &&& strictly_increasing(deleted)
    &&& forall|t: int|
        0 <= t < deleted.len() ==> deleted[t] < ov.len() && !has_path(
            nv,
            ov[#[trigger] deleted[t] as int].path,
        )
    &&& forall|y: int|
        0 <= y < ov.len() && !has_path(nv, #[trigger] ov[y].path) ==> exists|t: int|
            0 <= t < deleted.len() && deleted[t] == y
}

proof fn lemma_ctx_facts(
    o: Seq<EntryView>,
    n: Seq<EntryView>,
    ov: Seq<EntryView>,
    nv: Seq<EntryView>,
    added: Seq<usize>,
    deleted: Seq<usize>,
)
    requires
        diff_ctx(o, n, ov, nv, added, deleted),
    ensures
        is_path_index(ov, o),
        is_path_index(nv, n),
        strictly_increasing(added),
        strictly_increasing(deleted),
        forall|t: int| 0 <= t < added.len() ==> added[t] < nv.len(),
        forall|t: int| 0 <= t < deleted.len() ==> deleted[t] < ov.len(),
{
    reveal(diff_ctx);
}

proof fn lemma_index_lookup(es: Seq<EntryView>, d: Seq<EntryView>, p: Seq<char>)
    requires
        is_path_index(d, es),
    ensures
        has_path(d, p) <==> lookup(es, p) is Some,
        forall|i: int| 0 <= i < d.len() && d[i].path == p ==> lookup(es, p) == Some(d[i]),
{
    if lookup(es, p) is Some {
        let i = choose|i: int| 0 <= i < d.len() && d[i].path == p;
        assert(has_path(d, p));
    }
    if has_path(d, p) {
        let i = choose|i: int| 0 <= i < d.len() && d[i].path == p;
        assert(lookup(es, d[i].path) == Some(d[i]));
    }
}

proof fn lemma_strict_positions_distinct(d: Seq<EntryView>, a: int, b: int)
    requires
        strictly_sorted(d),
        0 <= a < d.len(),
        0 <= b < d.len(),
        a != b,
    ensures
        d[a].path != d[b].path,
{
    lemma_text_order();
    if a < b {
        assert(text_lt(d[a].path, d[b].path));
    } else {
        assert(text_lt(d[b].path, d[a].path));
    }
}

/// The paths added with signature `s` are the added positions whose entry has it.
proof fn lemma_added_with(
    o: Seq<EntryView>,
    n: Seq<EntryView>,
    ov: Seq<EntryView>,
    nv: Seq<EntryView>,
    added: Seq<usize>,
    deleted: Seq<usize>,
    s: Signature,
    p: Seq<char>,
)
    requires
        diff_ctx(o, n, ov, nv, added, deleted),
    ensures
        added_with(o, n, s, p) <==> exists|t: int|
            0 <= t < added.len() && nv[added[t] as int].path == p && sig_at(nv, added, s, t),
{
    reveal(diff_ctx);
    lemma_index_lookup(o, ov, p);
    lemma_index_lookup(n, nv, p);
    if added_with(o, n, s, p) {
        let x = choose|x: int| 0 <= x < nv.len() && nv[x].path == p;
        assert(!has_path(ov, nv[x].path));
        let t = choose|t: int| 0 <= t < added.len() && added[t] == x;
        assert(nv[added[t] as int].path == p && sig_at(nv, added, s, t));
    }
    if exists|t: int| 0 <= t < added.len() && nv[added[t] as int].path == p && sig_at(nv, added, s, t) {
        let t = choose|t: int|
            0 <= t < added.len() && nv[added[t] as int].path == p && sig_at(nv, added, s, t);
        assert(!has_path(ov, nv[added[t] as int].path));
    }
}

/// The paths deleted with signature `s` are the deleted positions whose entry has it.
proof fn lemma_deleted_with(
    o: Seq<EntryView>,
    n: Seq<EntryView>,
    ov: Seq<EntryView>,
    nv: Seq<EntryView>,
    added: Seq<usize>,
    deleted: Seq<usize>,
    s: Signature,
    p: Seq<char>,
)
    requires
        diff_ctx(o, n, ov, nv, added, deleted),
    ensures
        deleted_with(o, n, s, p) <==> exists|t: int|
            0 <= t < deleted.len() && ov[deleted[t] as int].path == p && sig_at(ov, deleted, s, t),
{
    reveal(diff_ctx);
    lemma_index_lookup(o, ov, p);
    lemma_index_lookup(n, nv, p);
    if deleted_with(o, n, s, p) {
        let y = choose|y: int| 0 <= y < ov.len() && ov[y].path == p;
        assert(!has_path(nv, ov[y].path));
        let t = choose|t: int| 0 <= t < deleted.len() && deleted[t] == y;
        assert(ov[deleted[t] as int].path == p && sig_at(ov, deleted, s, t));
    }
    if exists|t: int|
        0 <= t < deleted.len() && ov[deleted[t] as int].path == p && sig_at(ov, deleted, s, t) {
        let t = choose|t: int|
            0 <= t < deleted.len() && ov[deleted[t] as int].path == p && sig_at(ov, deleted, s, t);
        assert(!has_path(nv, ov[deleted[t] as int].path));
    }
}


proof fn lemma_not_sole_other(ev: Seq<EntryView>, list: Seq<usize>, s: Signature, t: int)
    requires
        not_sole(ev, list, s),
        0 <= t < list.len(),
        sig_at(ev, list, s, t),
    ensures
        exists|u: int| 0 <= u < list.len() && u != t && sig_at(ev, list, s, u),
{
    reveal(not_sole);
}

spec fn sole_at(ev: Seq<EntryView>, list: Seq<usize>, s: Signature, t: int) -> bool {
    &&& 0 <= t < list.len()
    &&& sig_at(ev, list, s, t)
    &&& forall|u: int| 0 <= u < list.len() && sig_at(ev, list, s, u) ==> u == t
}

/// When more than one deleted path (or none) has signature `s`, no path with
/// that signature is renamed.
proof fn lemma_no_rename_deleted_side(
    o: Seq<EntryView>,
    n: Seq<EntryView>,
    ov: Seq<EntryView>,
    nv: Seq<EntryView>,
    added: Seq<usize>,
    deleted: Seq<usize>,
    s: Signature,
    d: Seq<char>,
    a: Seq<char>,
)
    requires
        diff_ctx(o, n, ov, nv, added, deleted),
        not_sole(ov, deleted, s),
        signature(lookup(n, a)->0) == Some(s),
    ensures
        !is_rename(o, n, d, a),
{
    lemma_ctx_facts(o, n, ov, nv, added, deleted);
    if is_rename(o, n, d, a) {
        assert(deleted_with(o, n, s, d));
        lemma_deleted_with(o, n, ov, nv, added, deleted, s, d);
        let t = choose|t: int|
            0 <= t < deleted.len() && ov[deleted[t] as int].path == d && sig_at(ov, deleted, s, t);
        lemma_not_sole_other(ov, deleted, s, t);
        let u = choose|u: int| 0 <= u < deleted.len() && u != t && sig_at(ov, deleted, s, u);
        let q = ov[deleted[u] as int].path;
        lemma_deleted_with(o, n, ov, nv, added, deleted, s, q);
        assert(deleted[t] != deleted[u]);
        lemma_strict_positions_distinct(ov, deleted[t] as int, deleted[u] as int);
        assert(deleted_with(o, n, s, q));
        assert(q == d);
    }
}

/// When more than one added path (or none) has signature `s`, no path with
/// that signature is renamed.
proof fn lemma_no_rename_added_side(
    o: Seq<EntryView>,
    n: Seq<EntryView>,
    ov: Seq<EntryView>,
    nv: Seq<EntryView>,
    added: Seq<usize>,
    deleted: Seq<usize>,
    s: Signature,
    d: Seq<char>,
    a: Seq<char>,
)
    requires
        diff_ctx(o, n, ov, nv, added, deleted),
        not_sole(nv, added, s),
        signature(lookup(n, a)->0) == Some(s),
    ensures
        !is_rename(o, n, d, a),
{
    lemma_ctx_facts(o, n, ov, nv, added, deleted);
    if is_rename(o, n, d, a) {
        assert(added_with(o, n, s, a));
        lemma_added_with(o, n, ov, nv, added, deleted, s, a);
        let t = choose|t: int|
            0 <= t < added.len() && nv[added[t] as int].path == a && sig_at(nv, added, s, t);
        lemma_not_sole_other(nv, added, s, t);
        let u = choose|u: int| 0 <= u < added.len() && u != t && sig_at(nv, added, s, u);
        let q = nv[added[u] as int].path;
        lemma_added_with(o, n, ov, nv, added, deleted, s, q);
        assert(added[t] != added[u]);
        lemma_strict_positions_distinct(nv, added[t] as int, added[u] as int);
        assert(added_with(o, n, s, q));
        assert(q == a);
    }
}

/// When exactly one deleted and exactly one added path have signature `s`,
/// they form a rename, and no other path pairs with either.
proof fn lemma_rename_pair(
    o: Seq<EntryView>,
    n: Seq<EntryView>,
    ov: Seq<EntryView>,
    nv: Seq<EntryView>,
    added: Seq<usize>,
    deleted: Seq<usize>,
    s: Signature,
    td: int,
    ta: int,
)
    requires
        diff_ctx(o, n, ov, nv, added, deleted),
        sole_at(ov, deleted, s, td),
        sole_at(nv, added, s, ta),
    ensures
        is_rename(o, n, ov[deleted[td] as int].path, nv[added[ta] as int].path),
        forall|d: Seq<char>|
            is_rename(o, n, d, nv[added[ta] as int].path) ==> d == ov[deleted[td] as int].path,
        lookup(o, ov[deleted[td] as int].path) == Some(ov[deleted[td] as int]),
        lookup(n, nv[added[ta] as int].path) == Some(nv[added[ta] as int]),
{
    let d = ov[deleted[td] as int].path;
    let a = nv[added[ta] as int].path;
    lemma_ctx_facts(o, n, ov, nv, added, deleted);
    lemma_deleted_with(o, n, ov, nv, added, deleted, s, d);
    lemma_added_with(o, n, ov, nv, added, deleted, s, a);
    lemma_index_lookup(o, ov, d);
    lemma_index_lookup(n, nv, a);
    assert forall|q: Seq<char>| #[trigger] deleted_with(o, n, s, q) implies q == d by {
        lemma_deleted_with(o, n, ov, nv, added, deleted, s, q);
    }
    assert forall|q: Seq<char>| #[trigger] added_with(o, n, s, q) implies q == a by {
        lemma_added_with(o, n, ov, nv, added, deleted, s, q);
    }
    assert(signature(lookup(n, a)->0) == Some(s));
}

/// A copy of the text, wrapped.
fn some_copy(s: &String) -> (r: Option<String>)
    ensures
        opt_text(r) == Some(s@),
{
    Some(s.clone())
}

spec fn opt_change_view(c: Option<Change>) -> Option<ChangeView> {
    match c {
        Some(c) => Some(c@),
        None => None,
    }
}

/// The change reported for the path of a walk step.
fn change_for_step(
    Ghost(o): Ghost<Seq<EntryView>>,
    Ghost(n): Ghost<Seq<EntryView>>,
    od: &Vec<Entry>,
    nd: &Vec<Entry>,
    added: &Vec<usize>,
    deleted: &Vec<usize>,
    st: Step,
) -> (r: Option<Change>)
    requires
        diff_ctx(o, n, entries_view(od@), entries_view(nd@), added@, deleted@),
        step_ok(entries_view(od@), entries_view(nd@), st),
    ensures
        opt_change_view(r) == expected_change(
            o,
            n,
            step_path(entries_view(od@), entries_view(nd@), st),
        ),
        r is Some ==> (r->0)@.path == step_path(entries_view(od@), entries_view(nd@), st),
{
    let ghost ov = entries_view(od@);
    let ghost nv = entries_view(nd@);
    proof {
        lemma_ctx_facts(o, n, ov, nv, added@, deleted@);
    }
    match st {
        Step::Add(x) => {
            let ne = &nd[x];
            let ghost p = nv[x as int].path;
            proof {
                lemma_index_lookup(n, nv, p);
                lemma_index_lookup(o, ov, p);
                assert(lookup(n, p) == Some(nv[x as int]));
                assert(is_added(o, n, p));
            }
            let partner: Option<usize> = match &ne.hash {
                None => {
                    proof {
                        assert forall|d: Seq<char>| !is_rename(o, n, d, p) by {}
                    }
                    None
                },
                Some(h) => {
                    let ghost s = Signature { hash: h@, mode: ne.mode, kind: ne.kind };
                    match sole_match(od, deleted, h, ne.mode, ne.kind) {
                        None => {
                            proof {
                                assert forall|d: Seq<char>| !is_rename(o, n, d, p) by {
                                    lemma_no_rename_deleted_side(o, n, ov, nv, added@, deleted@, s, d, p);
                                }
                            }
                            None
                        },
                        Some(td) => {
                            match sole_match(nd, added, h, ne.mode, ne.kind) {
                                None => {
                                    proof {
                                        assert forall|d: Seq<char>| !is_rename(o, n, d, p) by {
                                            lemma_no_rename_added_side(o, n, ov, nv, added@, deleted@, s, d, p);
                                        }
                                    }
                                    None
                                },
                                Some(ta) => {
                                    proof {
                                        lemma_rename_pair(o, n, ov, nv, added@, deleted@, s, td as int, ta as int);
                                        lemma_added_with(o, n, ov, nv, added@, deleted@, s, p);
                                        assert(added_with(o, n, s, p));
                                        let tx = choose|t: int|
                                            0 <= t < added@.len() && nv[added@[t] as int].path == p
                                                && sig_at(nv, added@, s, t);
                                        assert(tx == ta);
                                        assert(nv[added@[ta as int] as int].path == p);
                                    }
                                    Some(deleted[td])
                                },
                            }
                        },
                    }
                },
            };
            match partner {
                Some(y) => {
                    let de = &od[y];
                    let c = Change {
                        kind: ChangeKind::Renamed,
                        path: ne.path.clone(),
                        from_path: some_copy(&de.path),
                        old_hash: copy_opt_string(&de.hash),
                        new_hash: copy_opt_string(&ne.hash),
                        size_delta: None,
                        content_preview: None,
                    };
                    proof {
                        let d = ov[y as int].path;
                        assert(is_rename(o, n, d, p));
                        let dc = choose|dc: Seq<char>| is_rename(o, n, dc, p);
                        assert(dc == d);
                        assert(c@ == expected_change(o, n, p)->0);
                    }
                    Some(c)
                },
                None => {
                    let size_delta = match ne.size {
                        Some(sz) => Some(sz as i64),
                        None => None,
                    };
                    let c = Change {
                        kind: ChangeKind::Added,
                        path: ne.path.clone(),
                        from_path: None,
                        old_hash: None,
                        new_hash: copy_opt_string(&ne.hash),
                        size_delta,
                        content_preview: None,
                    };
                    proof {
                        assert(!exists|d: Seq<char>| is_rename(o, n, d, p));
                        assert(c@ == expected_change(o, n, p)->0);
                    }
                    Some(c)
                },
            }
        },
        Step::Del(y) => {
            let oe = &od[y];
            let ghost p = ov[y as int].path;
            proof {
                lemma_index_lookup(n, nv, p);
                lemma_index_lookup(o, ov, p);
                assert(lookup(o, p) == Some(ov[y as int]));
                assert(is_deleted(o, n, p));
                assert(!is_added(o, n, p));
            }
            let suppressed = match &oe.hash {
                None => {
                    proof {
                        assert forall|a: Seq<char>| !is_rename(o, n, p, a) by {}
                    }
                    false
                },
                Some(h) => {
                    let ghost s = Signature { hash: h@, mode: oe.mode, kind: oe.kind };
                    proof {
                        lemma_deleted_with(o, n, ov, nv, added@, deleted@, s, p);
                        assert(deleted_with(o, n, s, p));
                    }
                    match sole_match(od, deleted, h, oe.mode, oe.kind) {
                        None => {
                            proof {
                                assert forall|a: Seq<char>| !#[trigger] is_rename(o, n, p, a) by {
                                    if is_rename(o, n, p, a) {
                                        assert(signature(lookup(n, a)->0) == Some(s));
                                        lemma_no_rename_deleted_side(o, n, ov, nv, added@, deleted@, s, p, a);
                                    }
                                }
                            }
                            false
                        },
                        Some(td) => {
                            match sole_match(nd, added, h, oe.mode, oe.kind) {
                                None => {
                                    proof {
                                        assert forall|a: Seq<char>| !#[trigger] is_rename(o, n, p, a) by {
                                            if is_rename(o, n, p, a) {
                                                assert(signature(lookup(n, a)->0) == Some(s));
                                                lemma_no_rename_added_side(o, n, ov, nv, added@, deleted@, s, p, a);
                                            }
                                        }
                                    }
                                    false
                                },
                                Some(ta) => {
                                    proof {
                                        lemma_rename_pair(o, n, ov, nv, added@, deleted@, s, td as int, ta as int);
                                        let ty = choose|t: int|
                                            0 <= t < deleted@.len() && ov[deleted@[t] as int].path == p
                                                && sig_at(ov, deleted@, s, t);
                                        assert(ty == td);
                                        assert(is_rename(o, n, p, nv[added@[ta as int] as int].path));
                                    }
                                    true
                                },
                            }
                        },
                    }
                },
            };
            if suppressed {
                None
            } else {
                let size_delta = match oe.size {
                    Some(sz) => Some(0i64.wrapping_sub(sz as i64)),
                    None => None,
                };
                let c = Change {
                    kind: ChangeKind::Deleted,
                    path: oe.path.clone(),
                    from_path: None,
                    old_hash: copy_opt_string(&oe.hash),
                    new_hash: None,
                    size_delta,
                    content_preview: None,
                };
                proof {
                    assert(!exists|a: Seq<char>| is_rename(o, n, p, a));
                    assert(c@ == expected_change(o, n, p)->0);
                }
                Some(c)
            }
        },
        Step::Mod(y, x) => {
            let oe = &od[y];
            let ne = &nd[x];
            let ghost p = nv[x as int].path;
            proof {
                lemma_index_lookup(n, nv, p);
                lemma_index_lookup(o, ov, p);
                assert(lookup(n, p) == Some(nv[x as int]));
                assert(lookup(o, p) == Some(ov[y as int]));
            }
            let size_delta = match (oe.size, ne.size) {
                (Some(os), Some(ns)) => Some((ns as i64).wrapping_sub(os as i64)),
                _ => None,
            };
            let c = Change {
                kind: ChangeKind::Modified,
                path: ne.path.clone(),
                from_path: None,
                old_hash: copy_opt_string(&oe.hash),
                new_hash: copy_opt_string(&ne.hash),
                size_delta,
                content_preview: None,
            };
            proof {
                assert(c@ == expected_change(o, n, p)->0);
            }
            Some(c)
        },
    }
}


/// Selects the changes of kind `k`.
pub open spec fn kind_is(k: ChangeKind) -> spec_fn(ChangeView) -> bool {
    |c: ChangeView| c.kind == k
}

/// How many changes of kind `k` there are.
pub open spec fn count_kind(cs: Seq<ChangeView>, k: ChangeKind) -> nat {
    cs.filter(kind_is(k)).len()
}

/// The full delta between two manifests with summary counts.
#[derive(Debug, Clone)]
pub struct DiffReport {
    pub changes: Vec<Change>,
    pub added: usize,
    pub modified: usize,
    pub deleted: usize,
    pub renamed: usize,
}

impl DiffReport {
    /// The summary counts agree with the change list.
    pub open spec fn counts_match(&self) -> bool {
        let cs = changes_view(self.changes@);
        &&& self.added == count_kind(cs, ChangeKind::Added)
        &&& self.modified == count_kind(cs, ChangeKind::Modified)
        &&& self.deleted == count_kind(cs, ChangeKind::Deleted)
        &&& self.renamed == count_kind(cs, ChangeKind::Renamed)
    }

    /// Whether there is no change at all.
    pub fn is_empty(&self) -> (b: bool)
        ensures
            b <==> self.changes@.len() == 0,
    {
        self.changes.len() == 0
    }

    /// Recompute the summary counts from `self.changes`. Call after mutating
    /// `changes` (e.g. applying a kind filter) so the counts always match the
    /// change list.
    pub fn recount(&mut self)
        ensures
            final(self).changes@ == old(self).changes@,
            final(self).counts_match(),
    {
        let mut added: usize = 0;
        let mut modified: usize = 0;
        let mut deleted: usize = 0;
        let mut renamed: usize = 0;
        let ghost cs = changes_view(self.changes@);
        let n = self.changes.len();
        for i in 0..n
            invariant
                n == self.changes@.len(),
                cs == changes_view(self.changes@),
                added == count_kind(cs.take(i as int), ChangeKind::Added),
                modified == count_kind(cs.take(i as int), ChangeKind::Modified),
                deleted == count_kind(cs.take(i as int), ChangeKind::Deleted),
                renamed == count_kind(cs.take(i as int), ChangeKind::Renamed),
                added + modified + deleted + renamed <= i,
        {
            let k = self.changes[i].kind;
            proof {
                let pre = cs.take(i as int);
                assert(cs.take(i + 1) =~= pre.push(cs[i as int]));
                pre.lemma_filter_push(cs[i as int], kind_is(ChangeKind::Added));
                pre.lemma_filter_push(cs[i as int], kind_is(ChangeKind::Modified));
                pre.lemma_filter_push(cs[i as int], kind_is(ChangeKind::Deleted));
                pre.lemma_filter_push(cs[i as int], kind_is(ChangeKind::Renamed));
            }
            match k {
                ChangeKind::Added => added = added + 1,
                ChangeKind::Modified => modified = modified + 1,
                ChangeKind::Deleted => deleted = deleted + 1,
                ChangeKind::Renamed => renamed = renamed + 1,
            }
        }
        assert(cs.take(n as int) =~= cs);
        self.added = added;
        self.modified = modified;
        self.deleted = deleted;
        self.renamed = renamed;
    }
}

/// Compute the delta from `old` to `new`. A deletion and an addition that
/// share content hash, mode and kind form a rename when that pairing is
/// unambiguous.
pub fn diff(old: &Manifest, new: &Manifest) -> (r: DiffReport)
    ensures
        is_diff_of(changes_view(r.changes@), entries_view(old.entries@), entries_view(new.entries@)),
        r.counts_match(),
{
    let ghost o = entries_view(old.entries@);
    let ghost n = entries_view(new.entries@);
    let od = latest_entries(&old.entries);
    let nd = latest_entries(&new.entries);
    let ghost ov = entries_view(od@);
    let ghost nv = entries_view(nd@);
    let w = classify(&od, &nd);
    proof {
        reveal(diff_ctx);
        assert(diff_ctx(o, n, ov, nv, w.added@, w.deleted@));
    }
    let mut changes: Vec<Change> = Vec::new();
    let mut t: usize = 0;
    while t < w.steps.len()
        invariant
            o == entries_view(old.entries@),
            n == entries_view(new.entries@),
            ov == entries_view(od@),
            nv == entries_view(nd@),
            diff_ctx(o, n, ov, nv, w.added@, w.deleted@),
            t <= w.steps@.len(),
            forall|a: int, b: int|
                0 <= a < b < w.steps@.len() ==> text_lt(
                    step_path(ov, nv, w.steps@[a]),
                    step_path(ov, nv, w.steps@[b]),
                ),
            forall|a: int| 0 <= a < w.steps@.len() ==> step_ok(ov, nv, #[trigger] w.steps@[a]),
            forall|a: int, b: int|
                0 <= a < b < changes@.len() ==> text_lt(changes@[a]@.path, changes@[b]@.path),
            forall|u: int|
                0 <= u < changes@.len() ==> expected_change(o, n, #[trigger] changes@[u]@.path)
                    == Some(changes@[u]@),
            forall|u: int|
                0 <= u < changes@.len() && t < w.steps@.len() ==> text_lt(
                    #[trigger] changes@[u]@.path,
                    step_path(ov, nv, w.steps@[t as int]),
                ),
            forall|a: int|
                0 <= a < t && expected_change(o, n, step_path(ov, nv, #[trigger] w.steps@[a])) is Some
                    ==> exists|u: int|
                    0 <= u < changes@.len() && changes@[u]@.path == step_path(ov, nv, w.steps@[a]),
        decreases w.steps@.len() - t,
    {
        proof { lemma_text_order(); }
        let st = w.steps[t];
        let ghost old_changes = changes@;
        let c = change_for_step(Ghost(o), Ghost(n), &od, &nd, &w.added, &w.deleted, st);
        match c {
            Some(c) => {
                changes.push(c);
            },
            None => {},
        }
        proof {
            assert forall|a: int|
                0 <= a < t + 1 && expected_change(o, n, step_path(ov, nv, #[trigger] w.steps@[a]))
                    is Some implies exists|u: int|
                0 <= u < changes@.len() && changes@[u]@.path == step_path(ov, nv, w.steps@[a]) by {
                if a == t {
                    assert(changes@[changes@.len() - 1]@.path == step_path(ov, nv, w.steps@[a]));
                } else {
                    let u = choose|u: int|
                        0 <= u < old_changes.len() && old_changes[u]@.path == step_path(
                            ov,
                            nv,
                            w.steps@[a],
                        );
                    assert(changes@[u] == old_changes[u]);
                }
            }
            if t + 1 < w.steps@.len() {
                assert(text_lt(step_path(ov, nv, w.steps@[t as int]), step_path(ov, nv, w.steps@[t + 1])));
            }
        }
        t = t + 1;
    }
    proof {
        lemma_ctx_facts(o, n, ov, nv, w.added@, w.deleted@);
        let cs = changes_view(changes@);
        assert forall|i: int| 0 <= i < cs.len() implies expected_change(o, n, #[trigger] cs[i].path)
            == Some(cs[i]) by {
            assert(cs[i] == changes@[i]@);
        }
        assert forall|p: Seq<char>| #[trigger] expected_change(o, n, p) is Some implies exists|i: int|
            0 <= i < cs.len() && cs[i].path == p by {
            lemma_index_lookup(o, ov, p);
            lemma_index_lookup(n, nv, p);
            let a = if is_added(o, n, p) {
                let x = choose|x: int| 0 <= x < nv.len() && nv[x].path == p;
                assert(!has_path(ov, nv[x].path));
                assert(covers_adds(ov, nv, w.steps@));
                choose|a: int| 0 <= a < w.steps@.len() && w.steps@[a] == Step::Add(x as usize)
            } else if is_deleted(o, n, p) {
                let y = choose|y: int| 0 <= y < ov.len() && ov[y].path == p;
                assert(!has_path(nv, ov[y].path));
                assert(covers_dels(ov, nv, w.steps@));
                choose|a: int| 0 <= a < w.steps@.len() && w.steps@[a] == Step::Del(y as usize)
            } else {
                assert(is_modified(o, n, p));
                let x = choose|x: int| 0 <= x < nv.len() && nv[x].path == p;
                let y = choose|y: int| 0 <= y < ov.len() && ov[y].path == p;
                assert(entry_changed(ov[y], nv[x]));
                choose|a: int|
                    0 <= a < w.steps@.len() && w.steps@[a] == Step::Mod(y as usize, x as usize)
            };
            assert(step_path(ov, nv, w.steps@[a]) == p);
            let u = choose|u: int|
                0 <= u < changes@.len() && changes@[u]@.path == step_path(ov, nv, w.steps@[a]);
            assert(cs[u].path == p);
        }
    }
    let mut report = DiffReport { changes, added: 0, modified: 0, deleted: 0, renamed: 0 };
    report.recount();
    report
}


/// Law: a manifest diffed against itself reports no change.
pub proof fn law_diff_with_itself_is_empty(es: Seq<EntryView>, cs: Seq<ChangeView>)
    requires
        is_diff_of(cs, es, es),
    ensures
        cs.len() == 0,
{
    if cs.len() > 0 {
        let p = cs[0].path;
        assert(expected_change(es, es, p) == Some(cs[0]));
        assert(!is_added(es, es, p));
        assert(!is_deleted(es, es, p));
        assert(!is_modified(es, es, p));
    }
}

proof fn lemma_lookup_last(es: Seq<EntryView>, p: Seq<char>)
    requires
        es.len() > 0,
    ensures
        lookup(es, p) == if es.last().path == p {
            Some(es.last())
        } else {
            lookup(es.drop_last(), p)
        },
{
    reveal(Seq::filter);
    assert(es.filter(key_is(entry_path(), p)) == if key_is(entry_path(), p)(es.last()) {
        es.drop_last().filter(key_is(entry_path(), p)).push(es.last())
    } else {
        es.drop_last().filter(key_is(entry_path(), p))
    });
}

/// Lists of entries that agree on every tracked field hold, at each path,
/// entries that agree on every tracked field.
proof fn lemma_lookup_tracked(o: Seq<EntryView>, n: Seq<EntryView>, p: Seq<char>)
    requires
        o.len() == n.len(),
        forall|i: int| 0 <= i < o.len() ==> crate::manifest::same_tracked_fields(o[i], n[i]),
    ensures
        lookup(o, p) is Some <==> lookup(n, p) is Some,
        lookup(o, p) is Some ==> crate::manifest::same_tracked_fields(lookup(o, p)->0, lookup(n, p)->0),
    decreases o.len(),
{
    reveal(Seq::filter);
    if o.len() > 0 {
        lemma_lookup_last(o, p);
        lemma_lookup_last(n, p);
        assert(crate::manifest::same_tracked_fields(o.last(), n.last()));
        lemma_lookup_tracked(o.drop_last(), n.drop_last(), p);
    } else {
        assert(o.filter(key_is(entry_path(), p)) =~= Seq::<EntryView>::empty());
        assert(n.filter(key_is(entry_path(), p)) =~= Seq::<EntryView>::empty());
    }
}

/// Law: mtime, size and inline content never make a change. Two manifests
/// whose entries agree on path, kind, content hash, symlink target and mode,
/// one for one, have no difference (so `touch` and rebuilds that leave content
/// alone report nothing).
pub proof fn law_untracked_fields_make_no_change(
    o: Seq<EntryView>,
    n: Seq<EntryView>,
    cs: Seq<ChangeView>,
)
    requires
        o.len() == n.len(),
        forall|i: int| 0 <= i < o.len() ==> crate::manifest::same_tracked_fields(o[i], n[i]),
        is_diff_of(cs, o, n),
    ensures
        cs.len() == 0,
{
    if cs.len() > 0 {
        let p = cs[0].path;
        lemma_lookup_tracked(o, n, p);
        assert(expected_change(o, n, p) == Some(cs[0]));
        assert(!is_added(o, n, p));
        assert(!is_deleted(o, n, p));
        assert(!is_modified(o, n, p));
    }
}

/// Law: a reported rename pairs a deleted path with an added path whose
/// entries share content hash (present on both), mode and kind.
pub proof fn law_rename_keeps_content(o: Seq<EntryView>, n: Seq<EntryView>, cs: Seq<ChangeView>, i: int)
    requires
        is_diff_of(cs, o, n),
        0 <= i < cs.len(),
        cs[i].kind == ChangeKind::Renamed,
    ensures
        cs[i].from_path is Some,
        is_deleted(o, n, cs[i].from_path->0),
        is_added(o, n, cs[i].path),
        cs[i].old_hash is Some,
        cs[i].old_hash == cs[i].new_hash,
        signature(lookup(o, cs[i].from_path->0)->0) == signature(lookup(n, cs[i].path)->0),
{
    let p = cs[i].path;
    assert(expected_change(o, n, p) == Some(cs[i]));
    assert(is_added(o, n, p));
    assert(exists|d: Seq<char>| is_rename(o, n, d, p));
    let d = choose|d: Seq<char>| is_rename(o, n, d, p);
    assert(cs[i].from_path == Some(d));
}

/// Law: when two deleted paths (or two added paths) share a signature, the
/// pairing is ambiguous and neither becomes a rename.
pub proof fn law_ambiguous_content_is_not_a_rename(
    o: Seq<EntryView>,
    n: Seq<EntryView>,
    s: Signature,
    p1: Seq<char>,
    p2: Seq<char>,
    d: Seq<char>,
    a: Seq<char>,
)
    requires
        p1 != p2,
        (deleted_with(o, n, s, p1) && deleted_with(o, n, s, p2)) || (added_with(o, n, s, p1)
            && added_with(o, n, s, p2)),
        signature(lookup(n, a)->0) == Some(s),
    ensures
        !is_rename(o, n, d, a),
{
}


/// A rename read one way is the same rename read the other way.
proof fn lemma_rename_mirror(o: Seq<EntryView>, n: Seq<EntryView>, d: Seq<char>, a: Seq<char>)
    ensures
        is_rename(o, n, d, a) <==> is_rename(n, o, a, d),
{
    if is_rename(o, n, d, a) {
        let s = signature(lookup(n, a)->0)->0;
        assert(signature(lookup(o, d)->0) == Some(s));
        assert forall|q: Seq<char>| #[trigger] deleted_with(n, o, s, q) implies q == a by {
            assert(added_with(o, n, s, q));
        }
        assert forall|q: Seq<char>| #[trigger] added_with(n, o, s, q) implies q == d by {
            assert(deleted_with(o, n, s, q));
        }
    }
    if is_rename(n, o, a, d) {
        let s = signature(lookup(o, d)->0)->0;
        assert(signature(lookup(n, a)->0) == Some(s));
        assert forall|q: Seq<char>| #[trigger] deleted_with(o, n, s, q) implies q == d by {
            assert(added_with(n, o, s, q));
        }
        assert forall|q: Seq<char>| #[trigger] added_with(o, n, s, q) implies q == a by {
            assert(deleted_with(n, o, s, q));
        }
    }
}

/// A rename names one source: any path paired with `a` is `d`.
proof fn lemma_rename_source_unique(o: Seq<EntryView>, n: Seq<EntryView>, d: Seq<char>, x: Seq<char>, a: Seq<char>)
    requires
        is_rename(o, n, d, a),
        is_rename(o, n, x, a),
    ensures
        x == d,
{
    let s = signature(lookup(n, a)->0)->0;
    assert(deleted_with(o, n, s, x));
}

/// What the comparison from `o` to `n` expects in return for a change `c` at
/// `p` from `n` to `o`.
spec fn mirrored(o: Seq<EntryView>, n: Seq<EntryView>, p: Seq<char>, c: ChangeView) -> bool {
    match c.kind {
        ChangeKind::Added => expected_change(o, n, p) matches Some(r) && r.kind == ChangeKind::Deleted
            && r.old_hash == c.new_hash,
        ChangeKind::Deleted => expected_change(o, n, p) matches Some(r) && r.kind == ChangeKind::Added
            && r.new_hash == c.old_hash,
        ChangeKind::Modified => expected_change(o, n, p) matches Some(r) && r.kind
            == ChangeKind::Modified && r.old_hash == c.new_hash && r.new_hash == c.old_hash,
        ChangeKind::Renamed => c.from_path matches Some(d) && expected_change(o, n, d) matches Some(r)
            && r.kind == ChangeKind::Renamed && r.from_path == Some(p) && r.old_hash == c.new_hash
            && r.new_hash == c.old_hash,
    }
}

/// The change expected at a path, and what the reversed comparison expects.
proof fn lemma_expected_mirror(o: Seq<EntryView>, n: Seq<EntryView>, p: Seq<char>)
    ensures
        expected_change(o, n, p) matches Some(c) ==> mirrored(n, o, p, c),
{
    if is_added(o, n, p) {
        assert(is_deleted(n, o, p));
        if exists|d: Seq<char>| is_rename(o, n, d, p) {
            let d = choose|d: Seq<char>| is_rename(o, n, d, p);
            lemma_rename_mirror(o, n, d, p);
            assert(is_added(n, o, d));
            assert(!is_deleted(n, o, d));
            assert(exists|x: Seq<char>| is_rename(n, o, x, d));
            let x = choose|x: Seq<char>| is_rename(n, o, x, d);
            lemma_rename_source_unique(n, o, p, x, d);
        } else {
            if exists|a: Seq<char>| is_rename(n, o, p, a) {
                let a = choose|a: Seq<char>| is_rename(n, o, p, a);
                lemma_rename_mirror(o, n, a, p);
            }
        }
    } else if is_deleted(o, n, p) {
        assert(is_added(n, o, p));
        if !exists|a: Seq<char>| is_rename(o, n, p, a) {
            if exists|d: Seq<char>| is_rename(n, o, d, p) {
                let d = choose|d: Seq<char>| is_rename(n, o, d, p);
                lemma_rename_mirror(o, n, p, d);
            }
        }
    } else if is_modified(o, n, p) {
        assert(!is_added(n, o, p));
        assert(!is_deleted(n, o, p));
        assert(is_modified(n, o, p));
    }
}

/// The renames of `r` mirror those of `d`: each rename from `q` to `p` in
/// `d` is a rename from `p` to `q` in `r`, with the hashes swapped.
pub open spec fn renames_mirrored(d: Seq<ChangeView>, r: Seq<ChangeView>) -> bool {
    forall|i: int|
        0 <= i < d.len() && d[i].kind == ChangeKind::Renamed ==> exists|j: int|
            0 <= j < r.len() && d[i].from_path == Some(r[j].path) && r[j].from_path == Some(
                d[i].path,
            ) && r[j].kind == ChangeKind::Renamed && r[j].old_hash == d[i].new_hash
                && r[j].new_hash == d[i].old_hash
}

/// Law: diffing the other way round mirrors the report. Every addition is a
/// deletion the other way, every deletion an addition, every modification a
/// modification with the hashes swapped, and every rename from `d` to `p` a
/// rename from `p` to `d` (applied to the reversed pair, it gives the
/// converse).
pub proof fn law_reversed_diff_mirrors(
    o: Seq<EntryView>,
    n: Seq<EntryView>,
    cs: Seq<ChangeView>,
    rs: Seq<ChangeView>,
)
    requires
        is_diff_of(cs, o, n),
        is_diff_of(rs, n, o),
    ensures
        forall|i: int|
            0 <= i < cs.len() && cs[i].kind == ChangeKind::Added ==> exists|j: int|
                0 <= j < rs.len() && rs[j].path == cs[i].path && rs[j].kind == ChangeKind::Deleted
                    && rs[j].old_hash == cs[i].new_hash,
        forall|i: int|
            0 <= i < cs.len() && cs[i].kind == ChangeKind::Deleted ==> exists|j: int|
                0 <= j < rs.len() && rs[j].path == cs[i].path && rs[j].kind == ChangeKind::Added
                    && rs[j].new_hash == cs[i].old_hash,
        forall|i: int|
            0 <= i < cs.len() && cs[i].kind == ChangeKind::Modified ==> exists|j: int|
                0 <= j < rs.len() && rs[j].path == cs[i].path && rs[j].kind == ChangeKind::Modified
                    && rs[j].old_hash == cs[i].new_hash && rs[j].new_hash == cs[i].old_hash,
        renames_mirrored(cs, rs),
{
    assert forall|i: int| 0 <= i < cs.len() implies {
        &&& cs[i].kind == ChangeKind::Added ==> exists|j: int|
            0 <= j < rs.len() && rs[j].path == cs[i].path && rs[j].kind == ChangeKind::Deleted
                && rs[j].old_hash == cs[i].new_hash
        &&& cs[i].kind == ChangeKind::Deleted ==> exists|j: int|
            0 <= j < rs.len() && rs[j].path == cs[i].path && rs[j].kind == ChangeKind::Added
                && rs[j].new_hash == cs[i].old_hash
        &&& cs[i].kind == ChangeKind::Modified ==> exists|j: int|
            0 <= j < rs.len() && rs[j].path == cs[i].path && rs[j].kind == ChangeKind::Modified
                && rs[j].old_hash == cs[i].new_hash && rs[j].new_hash == cs[i].old_hash
        &&& cs[i].kind == ChangeKind::Renamed ==> exists|j: int|
            0 <= j < rs.len() && cs[i].from_path == Some(rs[j].path) && rs[j].from_path == Some(
                cs[i].path,
            ) && rs[j].kind == ChangeKind::Renamed && rs[j].old_hash == cs[i].new_hash
                && rs[j].new_hash == cs[i].old_hash
    } by {
        let p = cs[i].path;
        assert(expected_change(o, n, p) == Some(cs[i]));
        lemma_expected_mirror(o, n, p);
        let q = if cs[i].kind == ChangeKind::Renamed {
            cs[i].from_path->0
        } else {
            p
        };
        assert(expected_change(n, o, q) is Some);
        let j = choose|j: int| 0 <= j < rs.len() && rs[j].path == q;
        assert(expected_change(n, o, rs[j].path) == Some(rs[j]));
    }
}


/// The paths at which `cs` reports a change of kind `k`.
pub open spec fn kind_paths(cs: Seq<ChangeView>, k: ChangeKind) -> Set<Seq<char>> {
    Set::new(|p: Seq<char>| exists|i: int| 0 <= i < cs.len() && cs[i].kind == k && cs[i].path == p)
}

/// With no path reported twice, counting a kind counts its paths.
proof fn lemma_count_kind_paths(cs: Seq<ChangeView>, k: ChangeKind)
    requires
        forall|i: int, j: int| 0 <= i < j < cs.len() ==> cs[i].path != cs[j].path,
    ensures
        kind_paths(cs, k).finite(),
        count_kind(cs, k) == kind_paths(cs, k).len(),
    decreases cs.len(),
{
    if cs.len() == 0 {
        assert(kind_paths(cs, k) =~= Set::<Seq<char>>::empty());
        assert(cs.filter(kind_is(k)) =~= Seq::<ChangeView>::empty()) by {
            reveal(Seq::filter);
        }
    } else {
        let r = cs.drop_last();
        let x = cs.last();
        lemma_count_kind_paths(r, k);
        assert(cs =~= r.push(x));
        r.lemma_filter_push(x, kind_is(k));
        if x.kind == k {
            assert(kind_paths(cs, k) =~= kind_paths(r, k).insert(x.path)) by {
                assert forall|p: Seq<char>| kind_paths(r, k).insert(x.path).contains(p) implies #[trigger] kind_paths(cs, k).contains(p) by {
                    if p == x.path {
                        assert(cs[cs.len() - 1].kind == k && cs[cs.len() - 1].path == p);
                    } else {
                        let i = choose|i: int| 0 <= i < r.len() && r[i].kind == k && r[i].path == p;
                        assert(cs[i] == r[i]);
                    }
                }
                assert forall|p: Seq<char>| #[trigger] kind_paths(cs, k).contains(p) implies kind_paths(r, k).insert(x.path).contains(p) by {
                    let i = choose|i: int| 0 <= i < cs.len() && cs[i].kind == k && cs[i].path == p;
                    if i < r.len() {
                        assert(r[i] == cs[i]);
                    }
                }
            }
            assert(!kind_paths(r, k).contains(x.path)) by {
                if kind_paths(r, k).contains(x.path) {
                    let i = choose|i: int| 0 <= i < r.len() && r[i].kind == k && r[i].path == x.path;
                    assert(cs[i].path != cs[cs.len() - 1].path);
                }
            }
        } else {
            assert(kind_paths(cs, k) =~= kind_paths(r, k)) by {
                assert forall|p: Seq<char>| #[trigger] kind_paths(cs, k).contains(p) implies kind_paths(r, k).contains(p) by {
                    let i = choose|i: int| 0 <= i < cs.len() && cs[i].kind == k && cs[i].path == p;
                    assert(i < r.len());
                    assert(r[i] == cs[i]);
                }
                assert forall|p: Seq<char>| #[trigger] kind_paths(r, k).contains(p) implies kind_paths(cs, k).contains(p) by {
                    let i = choose|i: int| 0 <= i < r.len() && r[i].kind == k && r[i].path == p;
                    assert(cs[i] == r[i]);
                }
            }
        }
    }
}

/// A report of a diff names each path once.
proof fn lemma_diff_paths_distinct(cs: Seq<ChangeView>, o: Seq<EntryView>, n: Seq<EntryView>)
    requires
        is_diff_of(cs, o, n),
    ensures
        forall|i: int, j: int| 0 <= i < j < cs.len() ==> cs[i].path != cs[j].path,
{
    assert forall|i: int, j: int| 0 <= i < j < cs.len() implies cs[i].path != cs[j].path by {
        assert(text_lt(cs[i].path, cs[j].path));
        crate::order::lemma_text_lt_irreflexive(cs[i].path);
    }
}

/// A path reported with kind `k` is one whose expected change has kind `k`.
proof fn lemma_kind_paths_expected(cs: Seq<ChangeView>, o: Seq<EntryView>, n: Seq<EntryView>, k: ChangeKind, p: Seq<char>)
    requires
        is_diff_of(cs, o, n),
    ensures
        kind_paths(cs, k).contains(p) <==> (expected_change(o, n, p) matches Some(c) && c.kind == k),
{
    if kind_paths(cs, k).contains(p) {
        let i = choose|i: int| 0 <= i < cs.len() && cs[i].kind == k && cs[i].path == p;
        assert(expected_change(o, n, cs[i].path) == Some(cs[i]));
    }
    if expected_change(o, n, p) matches Some(c) && c.kind == k {
        let i = choose|i: int| 0 <= i < cs.len() && cs[i].path == p;
        assert(expected_change(o, n, cs[i].path) == Some(cs[i]));
        assert(cs[i].kind == k);
    }
}

/// A rename names one target: any path `d` is paired with at most one path.
proof fn lemma_rename_target_unique(o: Seq<EntryView>, n: Seq<EntryView>, d: Seq<char>, a: Seq<char>, x: Seq<char>)
    requires
        is_rename(o, n, d, a),
        is_rename(o, n, d, x),
    ensures
        x == a,
{
    lemma_rename_mirror(o, n, d, a);
    lemma_rename_mirror(o, n, d, x);
    lemma_rename_source_unique(n, o, a, x, d);
}

/// The source of the rename that ends at `p`.
spec fn rename_source(o: Seq<EntryView>, n: Seq<EntryView>) -> spec_fn(Seq<char>) -> Seq<char> {
    |p: Seq<char>| choose|d: Seq<char>| is_rename(o, n, d, p)
}

/// Law: diffing the other way round swaps the summary counts: as many
/// additions one way as deletions the other, and as many modifications and
/// renames both ways.
pub proof fn law_reversed_diff_swaps_counts(
    o: Seq<EntryView>,
    n: Seq<EntryView>,
    cs: Seq<ChangeView>,
    rs: Seq<ChangeView>,
)
    requires
        is_diff_of(cs, o, n),
        is_diff_of(rs, n, o),
    ensures
        count_kind(cs, ChangeKind::Added) == count_kind(rs, ChangeKind::Deleted),
        count_kind(cs, ChangeKind::Deleted) == count_kind(rs, ChangeKind::Added),
        count_kind(cs, ChangeKind::Modified) == count_kind(rs, ChangeKind::Modified),
        count_kind(cs, ChangeKind::Renamed) == count_kind(rs, ChangeKind::Renamed),
{
    lemma_diff_paths_distinct(cs, o, n);
    lemma_diff_paths_distinct(rs, n, o);
    lemma_count_kind_paths(cs, ChangeKind::Added);
    lemma_count_kind_paths(cs, ChangeKind::Deleted);
    lemma_count_kind_paths(cs, ChangeKind::Modified);
    lemma_count_kind_paths(cs, ChangeKind::Renamed);
    lemma_count_kind_paths(rs, ChangeKind::Added);
    lemma_count_kind_paths(rs, ChangeKind::Deleted);
    lemma_count_kind_paths(rs, ChangeKind::Modified);
    lemma_count_kind_paths(rs, ChangeKind::Renamed);
    assert forall|p: Seq<char>| #[trigger] kind_paths(cs, ChangeKind::Added).contains(p)
        <==> kind_paths(rs, ChangeKind::Deleted).contains(p) by {
        lemma_kind_paths_expected(cs, o, n, ChangeKind::Added, p);
        lemma_kind_paths_expected(rs, n, o, ChangeKind::Deleted, p);
        lemma_expected_mirror(o, n, p);
        lemma_expected_mirror(n, o, p);
    }
    assert(kind_paths(cs, ChangeKind::Added) =~= kind_paths(rs, ChangeKind::Deleted));
    assert forall|p: Seq<char>| #[trigger] kind_paths(cs, ChangeKind::Deleted).contains(p)
        <==> kind_paths(rs, ChangeKind::Added).contains(p) by {
        lemma_kind_paths_expected(cs, o, n, ChangeKind::Deleted, p);
        lemma_kind_paths_expected(rs, n, o, ChangeKind::Added, p);
        lemma_expected_mirror(o, n, p);
        lemma_expected_mirror(n, o, p);
    }
    assert(kind_paths(cs, ChangeKind::Deleted) =~= kind_paths(rs, ChangeKind::Added));
    assert forall|p: Seq<char>| #[trigger] kind_paths(cs, ChangeKind::Modified).contains(p)
        <==> kind_paths(rs, ChangeKind::Modified).contains(p) by {
        lemma_kind_paths_expected(cs, o, n, ChangeKind::Modified, p);
        lemma_kind_paths_expected(rs, n, o, ChangeKind::Modified, p);
        lemma_expected_mirror(o, n, p);
        lemma_expected_mirror(n, o, p);
    }
    assert(kind_paths(cs, ChangeKind::Modified) =~= kind_paths(rs, ChangeKind::Modified));
    let x = kind_paths(cs, ChangeKind::Renamed);
    let y = kind_paths(rs, ChangeKind::Renamed);
    let f = rename_source(o, n);
    assert forall|p: Seq<char>| #[trigger] x.contains(p) implies is_rename(o, n, f(p), p) by {
        lemma_kind_paths_expected(cs, o, n, ChangeKind::Renamed, p);
        assert(is_added(o, n, p));
        assert(exists|d: Seq<char>| is_rename(o, n, d, p));
    }
    assert forall|p1: Seq<char>, p2: Seq<char>|
        x.contains(p1) && x.contains(p2) && #[trigger] f(p1) == #[trigger] f(p2) implies p1 == p2 by {
        lemma_rename_target_unique(o, n, f(p1), p1, p2);
    }
    assert forall|d: Seq<char>| #[trigger] y.contains(d) <==> x.map(f).contains(d) by {
        lemma_kind_paths_expected(rs, n, o, ChangeKind::Renamed, d);
        if y.contains(d) {
            lemma_expected_mirror(n, o, d);
            let c = expected_change(n, o, d)->0;
            let p = c.from_path->0;
            lemma_kind_paths_expected(cs, o, n, ChangeKind::Renamed, p);
            assert(x.contains(p));
            lemma_rename_source_unique(o, n, d, f(p), p);
            assert(f(p) == d);
        }
        if x.map(f).contains(d) {
            let p = choose|p: Seq<char>| x.contains(p) && d == f(p);
            lemma_kind_paths_expected(cs, o, n, ChangeKind::Renamed, p);
            lemma_expected_mirror(o, n, p);
            let c = expected_change(o, n, p)->0;
            lemma_rename_source_unique(o, n, c.from_path->0, d, p);
        }
    }
    assert(x.map(f) =~= y);
    vstd::set_lib::lemma_map_size(x, y, f);
}


/// Law, for two reports of `diff`: the report of `m2` against `m1` swaps the
/// added and deleted counts of the report of `m1` against `m2`, keeps the
/// modified and renamed counts, and its renames are those of the other with
/// source and target (and old and new hash) swapped.
pub proof fn law_reversed_reports(m1: Manifest, m2: Manifest, d: DiffReport, r: DiffReport)
    requires
        is_diff_of(changes_view(d.changes@), entries_view(m1.entries@), entries_view(m2.entries@)),
        d.counts_match(),
        is_diff_of(changes_view(r.changes@), entries_view(m2.entries@), entries_view(m1.entries@)),
        r.counts_match(),
    ensures
        r.added == d.deleted,
        r.deleted == d.added,
        r.modified == d.modified,
        r.renamed == d.renamed,
        renames_mirrored(changes_view(d.changes@), changes_view(r.changes@)),
        renames_mirrored(changes_view(r.changes@), changes_view(d.changes@)),
{
    let o = entries_view(m1.entries@);
    let n = entries_view(m2.entries@);
    let dc = changes_view(d.changes@);
    let rc = changes_view(r.changes@);
    assert(r.added == d.deleted && r.deleted == d.added && r.modified == d.modified && r.renamed
        == d.renamed) by {
        law_reversed_diff_swaps_counts(o, n, dc, rc);
    }
    law_reversed_diff_mirrors(o, n, dc, rc);
    law_reversed_diff_mirrors(n, o, rc, dc);
}

/// Law: a path recorded in both manifests is reported as modified exactly
/// when its content hash, mode, symlink target or kind differs between them
/// (size and mtime never count); the change carries the two hashes. When none
/// of those differs, nothing is reported at that path.
pub proof fn law_tracked_change_is_modification(
    o: Seq<EntryView>,
    n: Seq<EntryView>,
    cs: Seq<ChangeView>,
    p: Seq<char>,
)
    requires
        is_diff_of(cs, o, n),
        lookup(o, p) is Some,
        lookup(n, p) is Some,
    ensures
        ((lookup(o, p)->0).hash != (lookup(n, p)->0).hash || (lookup(o, p)->0).mode != (lookup(
            n,
            p,
        )->0).mode || (lookup(o, p)->0).target != (lookup(n, p)->0).target || (lookup(o, p)->0).kind
            != (lookup(n, p)->0).kind) ==> exists|i: int|
            0 <= i < cs.len() && cs[i].path == p && cs[i].kind == ChangeKind::Modified
                && cs[i].old_hash == (lookup(o, p)->0).hash && cs[i].new_hash == (lookup(n, p)->0).hash,
        ((lookup(o, p)->0).hash == (lookup(n, p)->0).hash && (lookup(o, p)->0).mode == (lookup(
            n,
            p,
        )->0).mode && (lookup(o, p)->0).target == (lookup(n, p)->0).target && (lookup(o, p)->0).kind
            == (lookup(n, p)->0).kind) ==> forall|i: int| 0 <= i < cs.len() ==> cs[i].path != p,
{
    assert(!is_added(o, n, p));
    assert(!is_deleted(o, n, p));
    if entry_changed(lookup(o, p)->0, lookup(n, p)->0) {
        assert(is_modified(o, n, p));
        assert(expected_change(o, n, p) is Some);
        let i = choose|i: int| 0 <= i < cs.len() && cs[i].path == p;
        assert(expected_change(o, n, cs[i].path) == Some(cs[i]));
    } else {
        assert forall|i: int| 0 <= i < cs.len() implies cs[i].path != p by {
            assert(expected_change(o, n, cs[i].path) == Some(cs[i]));
        }
    }
}

/// Whether a line of a line diff was removed, inserted, or kept.
#[derive(Debug, Clone, Copy, PartialEq, Eq, Structural)]
pub enum LineTag {
    Delete,
    Insert,
    Equal,
}

/// The line changes that `similar`'s line diff (Myers, no deadline) gives
/// from `old` to `new`: each line with its tag, line end included.
pub uninterp spec fn similar_line_changes(old: Seq<char>, new: Seq<char>) -> Seq<(LineTag, Seq<char>)>;

pub open spec fn line_changes_view(v: Seq<(LineTag, String)>) -> Seq<(LineTag, Seq<char>)> {
    v.map_values(|c: (LineTag, String)| (c.0, c.1@))
}

/// Calls `similar::TextDiff::from_lines(old, new)` and lists what
/// `iter_all_changes` yields, each change as its tag and its line. The
/// contract claims only that this list is a function of the two texts, named
/// `similar_line_changes`; it states nothing of how the lines are matched.
#[verifier::external_body]
fn line_changes(old: &str, new: &str) -> (r: Vec<(LineTag, String)>)
    ensures
        line_changes_view(r@) == similar_line_changes(old@, new@),
{
    let diff = similar::TextDiff::from_lines(old, new);
    let mut out = Vec::new();
    for change in diff.iter_all_changes() {
        let tag = match change.tag() {
            similar::ChangeTag::Delete => LineTag::Delete,
            similar::ChangeTag::Insert => LineTag::Insert,
            similar::ChangeTag::Equal => LineTag::Equal,
        };
        out.push((tag, change.value().to_string()));
    }
    out
}

/// The mark of a line in a unified diff.
pub open spec fn line_sign(t: LineTag) -> char {
    match t {
        LineTag::Delete => '-',
        LineTag::Insert => '+',
        LineTag::Equal => ' ',
    }
}

/// `s` without the line ends at its end.
pub open spec fn trim_line_ends(s: Seq<char>) -> Seq<char>
    decreases s.len(),
{
    if s.len() > 0 && s.last() == '\n' {
        trim_line_ends(s.drop_last())
    } else {
        s
    }
}

/// The lines of a unified diff body: mark, text without its line end, newline.
pub open spec fn diff_lines_text(cs: Seq<(LineTag, Seq<char>)>) -> Seq<char>
    decreases cs.len(),
{
    if cs.len() == 0 {
        Seq::empty()
    } else {
        diff_lines_text(cs.drop_last()) + seq![line_sign(cs.last().0)] + trim_line_ends(cs.last().1)
            + seq!['\n']
    }
}

/// The header of a unified diff for `path`.
pub open spec fn unified_header(path: Seq<char>) -> Seq<char> {
    seq!['-', '-', '-', ' '] + path + seq!['\n', '+', '+', '+', ' '] + path + seq!['\n']
}

/// The unified diff of two texts for display.
pub open spec fn unified_text(old: Seq<char>, new: Seq<char>, path: Seq<char>) -> Seq<char> {
    unified_header(path) + diff_lines_text(similar_line_changes(old, new))
}

proof fn lemma_trim_prefix(s: Seq<char>, k: int)
    requires
        0 <= k <= s.len(),
        forall|i: int| k <= i < s.len() ==> s[i] == '\n',
        k == 0 || s[k - 1] != '\n',
    ensures
        trim_line_ends(s) == s.take(k),
    decreases s.len(),
{
    if s.len() > k {
        assert(s.drop_last().take(k) =~= s.take(k));
        lemma_trim_prefix(s.drop_last(), k);
    } else {
        assert(s.take(k) =~= s);
    }
}

/// Appends `t` without the line ends at its end.
fn push_trimmed(s: &mut String, t: &str)
    ensures
        final(s)@ == old(s)@ + trim_line_ends(t@),
{
    let cs = crate::text::chars_of(t);
    let mut end = cs.len();
    while end > 0 && cs[end - 1] == '\n'
        invariant
            cs@ == t@,
            end <= cs@.len(),
            forall|i: int| end <= i < cs@.len() ==> cs@[i] == '\n',
        decreases end,
    {
        end = end - 1;
    }
    proof { lemma_trim_prefix(t@, end as int); }
    let ghost start = s@;
    for i in 0..end
        invariant
            cs@ == t@,
            end <= cs@.len(),
            s@ == start + t@.take(i as int),
    {
        crate::text::push_char(s, cs[i]);
        assert(t@.take(i + 1) =~= t@.take(i as int).push(t@[i as int]));
    }
}

/// The unified diff text for `path` from a list of line changes: the header,
/// then each line with its mark and without its line end.
pub fn render_unified(changes: &Vec<(LineTag, String)>, path: &str) -> (out: String)
    ensures
        out@ == unified_header(path@) + diff_lines_text(line_changes_view(changes@)),
{
    let ghost cv = line_changes_view(changes@);
    let mut out = String::new();
    crate::text::push_char(&mut out, '-');
    crate::text::push_char(&mut out, '-');
    crate::text::push_char(&mut out, '-');
    crate::text::push_char(&mut out, ' ');
    crate::text::push_str(&mut out, path);
    crate::text::push_char(&mut out, '\n');
    crate::text::push_char(&mut out, '+');
    crate::text::push_char(&mut out, '+');
    crate::text::push_char(&mut out, '+');
    crate::text::push_char(&mut out, ' ');
    crate::text::push_str(&mut out, path);
    crate::text::push_char(&mut out, '\n');
    assert(out@ =~= unified_header(path@));
    for i in 0..changes.len()
        invariant
            cv == line_changes_view(changes@),
            out@ == unified_header(path@) + diff_lines_text(cv.take(i as int)),
    {
        let sign = match changes[i].0 {
            LineTag::Delete => '-',
            LineTag::Insert => '+',
            LineTag::Equal => ' ',
        };
        crate::text::push_char(&mut out, sign);
        push_trimmed(&mut out, changes[i].1.as_str());
        crate::text::push_char(&mut out, '\n');
        proof {
            assert(cv.take(i + 1).drop_last() =~= cv.take(i as int));
            assert(cv.take(i + 1).last() == cv[i as int]);
            assert(out@ =~= unified_header(path@) + diff_lines_text(cv.take(i + 1)));
        }
    }
    assert(cv.take(changes@.len() as int) =~= cv);
    out
}

/// Produce a unified diff between two text blobs for display.
pub fn unified_diff(old: &str, new: &str, path: &str) -> (out: String)
    ensures
        out@ == unified_text(old@, new@, path@),
{
    let changes = line_changes(old, new);
    render_unified(&changes, path)
}

} // verus!
