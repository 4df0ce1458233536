//! Manifest data model and its deterministic digest. Pure: no filesystem.

use vstd::prelude::*;
use vstd::utf8::encode_utf8;
use crate::hash::{digest_text, hash_bytes};
use crate::order::{
    all_below, is_stable_sort_by, key_is, key_views, lemma_pick_stable_order,
    lemma_same_elements_same_groups, lemma_sorted_same_groups_equal, pick, stable_order, unique_keys,
};

verus! {

/// The version of the manifest format.
pub const MANIFEST_VERSION: u32 = 1;

/// The kind of filesystem entry recorded in a manifest.
#[derive(Debug, Clone, Copy, PartialEq, Eq, Structural)]
pub enum EntryKind {
    File,
    Symlink,
    Dir,
}

/// A single recorded path and its tracked attributes.
#[derive(Debug, Clone)]
pub struct Entry {
    pub path: String,
    pub kind: EntryKind,
    pub size: Option<u64>,
    pub mode: Option<u32>,
    pub hash: Option<String>,
    pub target: Option<String>,
    pub mtime: Option<String>,
    pub content: Option<String>,
}

/// An entry as values.
pub ghost struct EntryView {
    pub path: Seq<char>,
    pub kind: EntryKind,
    pub size: Option<u64>,
    pub mode: Option<u32>,
    pub hash: Option<Seq<char>>,
    pub target: Option<Seq<char>>,
    pub mtime: Option<Seq<char>>,
    pub content: Option<Seq<char>>,
}

/// An optional string as optional text.
pub open spec fn opt_text(o: Option<String>) -> Option<Seq<char>> {
    match o {
        Some(s) => Some(s@),
        None => None,
    }
}

impl View for Entry {
    type V = EntryView;

    open spec fn view(&self) -> EntryView {
        EntryView {
            path: self.path@,
            kind: self.kind,
            size: self.size,
            mode: self.mode,
            hash: opt_text(self.hash),
            target: opt_text(self.target),
            mtime: opt_text(self.mtime),
            content: opt_text(self.content),
        }
    }
}

/// A copy of an optional string.
pub fn copy_opt_string(o: &Option<String>) -> (r: Option<String>)
    ensures
        opt_text(r) == opt_text(*o),
{
    match o {
        Some(s) => Some(s.clone()),
        None => None,
    }
}

impl Entry {
    /// A copy of this entry.
    pub fn duplicate(&self) -> (r: Entry)
        ensures
            r@ == self@,
    {
        Entry {
            path: self.path.clone(),
            kind: self.kind,
            size: self.size,
            mode: self.mode,
            hash: copy_opt_string(&self.hash),
            target: copy_opt_string(&self.target),
            mtime: copy_opt_string(&self.mtime),
            content: copy_opt_string(&self.content),
        }
    }
}

/// The entries as values.
pub open spec fn entries_view(es: Seq<Entry>) -> Seq<EntryView> {
    es.map_values(|e: Entry| e@)
}

/// The path of an entry: the key manifests are sorted by.
pub open spec fn entry_path() -> spec_fn(EntryView) -> Seq<char> {
    |e: EntryView| e.path
}

/// The name of an entry kind as `{:?}` writes it, in bytes.
pub open spec fn kind_bytes(k: EntryKind) -> Seq<u8> {
    match k {
        EntryKind::File => seq![70u8, 105u8, 108u8, 101u8],
        EntryKind::Symlink => seq![83u8, 121u8, 109u8, 108u8, 105u8, 110u8, 107u8],
        EntryKind::Dir => seq![68u8, 105u8, 114u8],
    }
}

/// The four little-endian bytes of `x`.
pub open spec fn le_bytes(x: u32) -> Seq<u8> {
    seq![
        (x % 256) as u8,
        ((x / 256) % 256) as u8,
        ((x / 65536) % 256) as u8,
        ((x / 16777216) % 256) as u8,
    ]
}

/// Optional text, or the empty text when absent.
pub open spec fn text_or_empty(o: Option<Seq<char>>) -> Seq<char> {
    match o {
        Some(t) => t,
        None => Seq::empty(),
    }
}

/// What one entry contributes to the digest: path, kind, content hash,
/// symlink target and mode, each closed by a separator. Size, mtime and
/// inline content are left out, so that `touch` does not change it.
pub open spec fn entry_digest_bytes(e: EntryView) -> Seq<u8> {
    encode_utf8(e.path) + seq![0u8] + kind_bytes(e.kind) + seq![0u8] + encode_utf8(
        text_or_empty(e.hash),
    ) + seq![0u8] + encode_utf8(text_or_empty(e.target)) + seq![0u8] + le_bytes(
        match e.mode {
            Some(m) => m,
            None => 0u32,
        },
    ) + seq![255u8]
}

/// The bytes that are hashed for the tree digest of `es`, in their order.
pub open spec fn digest_input(es: Seq<EntryView>) -> Seq<u8>
    decreases es.len(),
{
    if es.len() == 0 {
        Seq::empty()
    } else {
        digest_input(es.drop_last()) + entry_digest_bytes(es.last())
    }
}

/// The version of this tool that manifests record.
pub open spec fn tool_version() -> Seq<char> {
    seq!['0', '.', '1', '.', '1']
}

/// A deterministic snapshot of a directory tree.
#[derive(Debug, Clone)]
pub struct Manifest {
    pub kairn_version: String,
    pub manifest_version: u32,
    pub root: String,
    pub created_at: String,
    pub tree_digest: String,
    pub entry_count: usize,
    pub entries: Vec<Entry>,
}

fn push_bytes(v: &mut Vec<u8>, bytes: &[u8])
    ensures
        final(v)@ == old(v)@ + bytes@,
{
    let ghost start = v@;
    for i in 0..bytes.len()
        invariant
            v@ == start + bytes@.take(i as int),
    {
        v.push(bytes[i]);
        assert(bytes@.take(i + 1) =~= bytes@.take(i as int).push(bytes@[i as int]));
    }
    assert(bytes@.take(bytes@.len() as int) =~= bytes@);
}

fn push_text_bytes(v: &mut Vec<u8>, s: &Option<String>)
    ensures
        final(v)@ == old(v)@ + encode_utf8(text_or_empty(opt_text(*s))),
{
    match s {
        Some(t) => push_bytes(v, t.as_str().as_bytes()),
        None => {
            assert(encode_utf8(Seq::<char>::empty()) =~= Seq::<u8>::empty()) by {
                reveal_with_fuel(encode_utf8, 1);
            }
            assert(v@ + Seq::<u8>::empty() =~= v@);
        },
    }
}

fn push_kind_bytes(v: &mut Vec<u8>, k: EntryKind)
    ensures
        final(v)@ == old(v)@ + kind_bytes(k),
{
    let ghost start = v@;
    match k {
        EntryKind::File => {
            v.push(70u8);
            v.push(105u8);
            v.push(108u8);
            v.push(101u8);
        },
        EntryKind::Symlink => {
            v.push(83u8);
            v.push(121u8);
            v.push(109u8);
            v.push(108u8);
            v.push(105u8);
            v.push(110u8);
            v.push(107u8);
        },
        EntryKind::Dir => {
            v.push(68u8);
            v.push(105u8);
            v.push(114u8);
        },
    }
    assert(v@ =~= start + kind_bytes(k));
}

fn push_le_u32(v: &mut Vec<u8>, m: u32)
    ensures
        final(v)@ == old(v)@ + le_bytes(m),
{
    let ghost start = v@;
    v.push((m % 256) as u8);
    v.push(((m / 256) % 256) as u8);
    v.push(((m / 65536) % 256) as u8);
    v.push(((m / 16777216) % 256) as u8);
    assert(v@ =~= start + le_bytes(m));
}

fn push_entry_digest_bytes(v: &mut Vec<u8>, e: &Entry)
    ensures
        final(v)@ == old(v)@ + entry_digest_bytes(e@),
{
    let ghost start = v@;
    let ghost ev = e@;
    push_bytes(v, e.path.as_str().as_bytes());
    v.push(0u8);
    let ghost s1 = v@;
    push_kind_bytes(v, e.kind);
    v.push(0u8);
    let ghost s2 = v@;
    push_text_bytes(v, &e.hash);
    v.push(0u8);
    let ghost s3 = v@;
    push_text_bytes(v, &e.target);
    v.push(0u8);
    let ghost s4 = v@;
    let m: u32 = match e.mode {
        Some(m) => m,
        None => 0u32,
    };
    push_le_u32(v, m);
    v.push(255u8);
    proof {
        let p1 = encode_utf8(ev.path) + seq![0u8];
        let p2 = kind_bytes(ev.kind) + seq![0u8];
        let p3 = encode_utf8(text_or_empty(ev.hash)) + seq![0u8];
        let p4 = encode_utf8(text_or_empty(ev.target)) + seq![0u8];
        let p5 = le_bytes(m) + seq![255u8];
        assert(s1 =~= start + p1);
        assert(s2 =~= s1 + p2);
        assert(s3 =~= s2 + p3);
        assert(s4 =~= s3 + p4);
        assert(v@ =~= s4 + p5);
        assert(entry_digest_bytes(ev) =~= p1 + p2 + p3 + p4 + p5);
        assert(v@ =~= start + (p1 + p2 + p3 + p4 + p5));
    }
}

/// The bytes hashed for the digest of `entries`.
fn tree_digest_input(entries: &[Entry]) -> (v: Vec<u8>)
    ensures
        v@ == digest_input(entries_view(entries@)),
{
    let mut v: Vec<u8> = Vec::new();
    for i in 0..entries.len()
        invariant
            v@ == digest_input(entries_view(entries@.take(i as int))),
    {
        push_entry_digest_bytes(&mut v, &entries[i]);
        assert(entries_view(entries@.take(i + 1)).drop_last() =~= entries_view(
            entries@.take(i as int),
        ));
    }
    assert(entries@.take(entries@.len() as int) =~= entries@);
    v
}

/// Merkle-style digest over the entries, in their order. Excludes mtime (and
/// size and inline content) so that `touch` does not change the digest.
pub fn compute_tree_digest(entries: &[Entry]) -> (d: String)
    ensures
        d@ == digest_text(digest_input(entries_view(entries@))),
{
    let input = tree_digest_input(entries);
    hash_bytes(input.as_slice())
}

/// The version of this tool, as manifests record it.
pub fn version_text() -> (s: &'static str)
    ensures
        s@ == tool_version(),
{
    proof {
        reveal_strlit("0.1.1");
    }
    "0.1.1"
}

/// Sorts entries by path, stably.
pub fn sort_entries_by_path(entries: &Vec<Entry>) -> (sorted: Vec<Entry>)
    ensures
        is_stable_sort_by(entries_view(sorted@), entries_view(entries@), entry_path()),
{
    let mut keys: Vec<String> = Vec::new();
    for i in 0..entries.len()
        invariant
            keys@.len() == i,
            forall|t: int| 0 <= t < i ==> keys@[t]@ == entries@[t].path@,
    {
        keys.push(entries[i].path.clone());
    }
    let order = stable_order(&keys);
    let mut out: Vec<Entry> = Vec::new();
    for j in 0..order.len()
        invariant
            order@.len() == entries@.len(),
            all_below(order@, entries@.len()),
            out@.len() == j,
            forall|t: int|
                0 <= t < j ==> out@[t]@ == entries_view(entries@)[order@[t] as int],
    {
        out.push(entries[order[j]].duplicate());
    }
    proof {
        let ev = entries_view(entries@);
        assert(entries_view(out@) =~= pick(ev, order@));
        assert forall|i: int| 0 <= i < ev.len() implies key_views(keys@)[i] == (entry_path())(
            ev[i],
        ) by {}
        lemma_pick_stable_order(ev, entry_path(), key_views(keys@), order@);
    }
    out
}

impl Manifest {
    /// Build from entries, sorting them by path (stably) and computing the
    /// digest. `created_at` is informational and excluded from the digest.
    pub fn build(root: String, created_at: String, entries: Vec<Entry>) -> (m: Manifest)
        ensures
            m.kairn_version@ == tool_version(),
            m.manifest_version == MANIFEST_VERSION,
            m.root@ == root@,
            m.created_at@ == created_at@,
            m.entry_count == entries@.len(),
            is_stable_sort_by(entries_view(m.entries@), entries_view(entries@), entry_path()),
            m.tree_digest@ == digest_text(digest_input(entries_view(m.entries@))),
    {
        let sorted = sort_entries_by_path(&entries);
        let tree_digest = compute_tree_digest(sorted.as_slice());
        let entry_count = sorted.len();
        Manifest {
            kairn_version: crate::text::string_of(version_text()),
            manifest_version: MANIFEST_VERSION,
            root,
            created_at,
            tree_digest,
            entry_count,
            entries: sorted,
        }
    }
}


/// No two entries share a path.
pub open spec fn unique_paths(es: Seq<EntryView>) -> bool {
    unique_keys(es, entry_path())
}

/// Law: the digest of a manifest does not depend on the order in which its
/// entries were given (nor on `created_at`, which it never reads). Two stable
/// sorts by path of inputs that hold the same entries, no path twice, are the
/// same list and so have the same digest.
pub proof fn law_digest_independent_of_input_order(
    in1: Seq<EntryView>,
    in2: Seq<EntryView>,
    out1: Seq<EntryView>,
    out2: Seq<EntryView>,
)
    requires
        unique_paths(in1),
        unique_paths(in2),
        forall|e: EntryView| in1.contains(e) <==> in2.contains(e),
        is_stable_sort_by(out1, in1, entry_path()),
        is_stable_sort_by(out2, in2, entry_path()),
    ensures
        out1 == out2,
        digest_text(digest_input(out1)) == digest_text(digest_input(out2)),
{
    assert forall|k: Seq<char>| #[trigger] out1.filter(key_is(entry_path(), k)) == out2.filter(
        key_is(entry_path(), k),
    ) by {
        lemma_same_elements_same_groups(in1, in2, entry_path(), k);
    }
    lemma_sorted_same_groups_equal(out1, out2, entry_path());
}

/// The fields that the digest reads are equal in `a` and `b`.
pub open spec fn same_tracked_fields(a: EntryView, b: EntryView) -> bool {
    &&& a.path == b.path
    &&& a.kind == b.kind
    &&& a.hash == b.hash
    &&& a.target == b.target
    &&& a.mode == b.mode
}

/// Law: mtime, size and inline content never reach the digest; lists of
/// entries that differ only there have the same digest.
pub proof fn law_digest_ignores_informational_fields(es1: Seq<EntryView>, es2: Seq<EntryView>)
    requires
        es1.len() == es2.len(),
        forall|i: int| 0 <= i < es1.len() ==> same_tracked_fields(es1[i], es2[i]),
    ensures
        digest_input(es1) == digest_input(es2),
    decreases es1.len(),
{
    if es1.len() > 0 {
        law_digest_ignores_informational_fields(es1.drop_last(), es2.drop_last());
        assert(entry_digest_bytes(es1.last()) == entry_digest_bytes(es2.last()));
    }
}

/// Law: the bytes hashed for a tree digest cover every entry, in order. No
/// entries hash nothing, and appending an entry appends exactly its bytes
/// (path, kind, content hash, symlink target and mode), so a change to a
/// tracked field of any entry changes what is hashed.
pub proof fn law_digest_input_covers_every_entry(es: Seq<EntryView>, e: EntryView)
    ensures
        digest_input(Seq::<EntryView>::empty()) == Seq::<u8>::empty(),
        digest_input(es.push(e)) == digest_input(es) + entry_digest_bytes(e),
        digest_input(es.push(e)).len() == digest_input(es).len() + entry_digest_bytes(e).len(),
{
    assert(es.push(e).drop_last() =~= es);
    assert(es.push(e).last() == e);
}

proof fn lemma_cancel(p: Seq<u8>, x: Seq<u8>, y: Seq<u8>, s: Seq<u8>)
    requires
        p + x + s == p + y + s,
    ensures
        x == y,
{
    assert((p + x).len() == p.len() + x.len());
    assert((p + y).len() == p.len() + y.len());
    assert((p + x + s).len() == p.len() + x.len() + s.len());
    assert((p + y + s).len() == p.len() + y.len() + s.len());
    assert(x.len() == y.len());
    assert forall|i: int| 0 <= i < x.len() implies x[i] == y[i] by {
        assert((p + x)[p.len() + i] == x[i]);
        assert((p + y)[p.len() + i] == y[i]);
        assert((p + x + s)[p.len() + i] == (p + x)[p.len() + i]);
        assert((p + y + s)[p.len() + i] == (p + y)[p.len() + i]);
    }
    assert(x =~= y);
}

proof fn lemma_digest_input_concat(a: Seq<EntryView>, b: Seq<EntryView>)
    ensures
        digest_input(a + b) == digest_input(a) + digest_input(b),
    decreases b.len(),
{
    if b.len() == 0 {
        assert(a + b =~= a);
        assert(digest_input(a) + Seq::<u8>::empty() =~= digest_input(a));
    } else {
        lemma_digest_input_concat(a, b.drop_last());
        assert((a + b).drop_last() =~= a + b.drop_last());
        assert((a + b).last() == b.last());
        assert(digest_input(a) + digest_input(b.drop_last()) + entry_digest_bytes(b.last())
            =~= digest_input(a) + (digest_input(b.drop_last()) + entry_digest_bytes(b.last())));
    }
}

proof fn lemma_le_bytes_injective(x: u32, y: u32)
    requires
        le_bytes(x) == le_bytes(y),
    ensures
        x == y,
{
    assert(le_bytes(x)[0] == le_bytes(y)[0]);
    assert(le_bytes(x)[1] == le_bytes(y)[1]);
    assert(le_bytes(x)[2] == le_bytes(y)[2]);
    assert(le_bytes(x)[3] == le_bytes(y)[3]);
    assert(x % 256 == y % 256 && (x / 256) % 256 == (y / 256) % 256 && (x / 65536) % 256 == (y
        / 65536) % 256 && (x / 16777216) % 256 == (y / 16777216) % 256 ==> x == y) by (bit_vector);
}

/// The mode value the digest records.
spec fn mode_value(e: EntryView) -> u32 {
    match e.mode {
        Some(m) => m,
        None => 0u32,
    }
}

/// `a` and `b` differ in exactly one field the digest records: the path,
/// the kind, the content hash text, the symlink target text, or the mode.
pub open spec fn differ_in_one_tracked_field(a: EntryView, b: EntryView) -> bool {
    let same_path = a.path == b.path;
    let same_kind = a.kind == b.kind;
    let same_hash = text_or_empty(a.hash) == text_or_empty(b.hash);
    let same_target = text_or_empty(a.target) == text_or_empty(b.target);
    let same_mode = (match a.mode {
        Some(m) => m,
        None => 0u32,
    }) == (match b.mode {
        Some(m) => m,
        None => 0u32,
    });
    ||| !same_path && same_kind && same_hash && same_target && same_mode
    ||| same_path && !same_kind && same_hash && same_target && same_mode
    ||| same_path && same_kind && !same_hash && same_target && same_mode
    ||| same_path && same_kind && same_hash && !same_target && same_mode
    ||| same_path && same_kind && same_hash && same_target && !same_mode
}

/// The five recorded parts of an entry's digest bytes, each closed by its
/// separator.
spec fn digest_parts(e: EntryView) -> (Seq<u8>, Seq<u8>, Seq<u8>, Seq<u8>, Seq<u8>) {
    (
        encode_utf8(e.path) + seq![0u8],
        kind_bytes(e.kind) + seq![0u8],
        encode_utf8(text_or_empty(e.hash)) + seq![0u8],
        encode_utf8(text_or_empty(e.target)) + seq![0u8],
        le_bytes(mode_value(e)) + seq![255u8],
    )
}

proof fn lemma_digest_parts(e: EntryView)
    ensures
        entry_digest_bytes(e) == digest_parts(e).0 + digest_parts(e).1 + digest_parts(e).2
            + digest_parts(e).3 + digest_parts(e).4,
{
    assert(entry_digest_bytes(e) =~= digest_parts(e).0 + digest_parts(e).1 + digest_parts(e).2
        + digest_parts(e).3 + digest_parts(e).4);
}

/// Equal digest bytes of two entries that differ in one recorded field are
/// impossible: the other four parts are equal and cancel out.
proof fn lemma_entry_bytes_differ(a: EntryView, b: EntryView)
    requires
        differ_in_one_tracked_field(a, b),
    ensures
        entry_digest_bytes(a) != entry_digest_bytes(b),
{
    lemma_digest_parts(a);
    lemma_digest_parts(b);
    let (pa, ka, ha, ta, ma) = digest_parts(a);
    let (pb, kb, hb, tb, mb) = digest_parts(b);
    let e = Seq::<u8>::empty();
    if entry_digest_bytes(a) == entry_digest_bytes(b) {
        if a.path != b.path {
            assert(ka == kb && ha == hb && ta == tb && ma == mb);
            assert(e + pa + (ka + ha + ta + ma) =~= entry_digest_bytes(a));
            assert(e + pb + (ka + ha + ta + ma) =~= entry_digest_bytes(b));
            lemma_cancel(e, pa, pb, ka + ha + ta + ma);
            assert(encode_utf8(a.path) =~= pa.drop_last());
            assert(encode_utf8(b.path) =~= pb.drop_last());
            crate::order::lemma_encode_injective(a.path, b.path);
        } else if a.kind != b.kind {
            assert(pa == pb && ha == hb && ta == tb && ma == mb);
            assert(pa + ka + (ha + ta + ma) =~= entry_digest_bytes(a));
            assert(pa + kb + (ha + ta + ma) =~= entry_digest_bytes(b));
            lemma_cancel(pa, ka, kb, ha + ta + ma);
            assert(kind_bytes(a.kind) =~= ka.drop_last());
            assert(kind_bytes(b.kind) =~= kb.drop_last());
        } else if text_or_empty(a.hash) != text_or_empty(b.hash) {
            assert(pa == pb && ka == kb && ta == tb && ma == mb);
            assert(pa + ka + ha + (ta + ma) =~= entry_digest_bytes(a));
            assert(pa + ka + hb + (ta + ma) =~= entry_digest_bytes(b));
            lemma_cancel(pa + ka, ha, hb, ta + ma);
            assert(encode_utf8(text_or_empty(a.hash)) =~= ha.drop_last());
            assert(encode_utf8(text_or_empty(b.hash)) =~= hb.drop_last());
            crate::order::lemma_encode_injective(text_or_empty(a.hash), text_or_empty(b.hash));
        } else if text_or_empty(a.target) != text_or_empty(b.target) {
            assert(pa == pb && ka == kb && ha == hb && ma == mb);
            lemma_cancel(pa + ka + ha, ta, tb, ma);
            assert(encode_utf8(text_or_empty(a.target)) =~= ta.drop_last());
            assert(encode_utf8(text_or_empty(b.target)) =~= tb.drop_last());
            crate::order::lemma_encode_injective(text_or_empty(a.target), text_or_empty(b.target));
        } else {
            assert(pa == pb && ka == kb && ha == hb && ta == tb);
            let q = pa + ka + ha + ta;
            assert(q + ma + e =~= entry_digest_bytes(a));
            assert(q + mb + e =~= entry_digest_bytes(b));
            lemma_cancel(q, ma, mb, e);
            assert(le_bytes(mode_value(a)) =~= ma.drop_last());
            assert(le_bytes(mode_value(b)) =~= mb.drop_last());
            lemma_le_bytes_injective(mode_value(a), mode_value(b));
        }
    }
}

/// Law: two lists of entries that are the same but for one entry, which
/// differs from its counterpart in one recorded field (path, kind, content
/// hash, symlink target or mode), hash different inputs; so editing any one
/// entry of a tree changes the bytes its digest is computed from.
pub proof fn law_tracked_field_changes_digest_input(es1: Seq<EntryView>, es2: Seq<EntryView>, k: int)
    requires
        es1.len() == es2.len(),
        0 <= k < es1.len(),
        forall|i: int| 0 <= i < es1.len() && i != k ==> es1[i] == es2[i],
        differ_in_one_tracked_field(es1[k], es2[k]),
    ensures
        digest_input(es1) != digest_input(es2),
{
    let pre = es1.take(k);
    let post = es1.skip(k + 1);
    assert(es2.take(k) =~= pre);
    assert(es2.skip(k + 1) =~= post);
    assert(es1 =~= pre + seq![es1[k]] + post);
    assert(es2 =~= pre + seq![es2[k]] + post);
    lemma_digest_input_concat(pre + seq![es1[k]], post);
    lemma_digest_input_concat(pre + seq![es2[k]], post);
    assert(pre + seq![es1[k]] =~= pre.push(es1[k]));
    assert(pre + seq![es2[k]] =~= pre.push(es2[k]));
    law_digest_input_covers_every_entry(pre, es1[k]);
    law_digest_input_covers_every_entry(pre, es2[k]);
    lemma_entry_bytes_differ(es1[k], es2[k]);
    if digest_input(es1) == digest_input(es2) {
        lemma_cancel(digest_input(pre), entry_digest_bytes(es1[k]), entry_digest_bytes(es2[k]), digest_input(post));
    }
}

} // verus!
