//! The order of text keys (paths, labels, timestamps) and a stable sort on it.
//!
//! Text is ordered as std orders `str`: lexicographically by the bytes of its
//! UTF-8 encoding, which is the order of the code points.

use vstd::prelude::*;
use vstd::utf8::*;

verus! {

/// Lexicographic order on byte sequences; a proper prefix comes first.
pub open spec fn bytes_lt(a: Seq<u8>, b: Seq<u8>) -> bool
    decreases a.len(),
{
    if a.len() == 0 {
        b.len() > 0
    } else if b.len() == 0 {
        false
    } else if a[0] != b[0] {
        a[0] < b[0]
    } else {
        bytes_lt(a.drop_first(), b.drop_first())
    }
}

/// Strict order on text: that of the UTF-8 bytes.
pub open spec fn text_lt(a: Seq<char>, b: Seq<char>) -> bool {
    bytes_lt(encode_utf8(a), encode_utf8(b))
}

pub proof fn lemma_bytes_lt_irreflexive(a: Seq<u8>)
    ensures
        !bytes_lt(a, a),
    decreases a.len(),
{
    if a.len() > 0 {
        lemma_bytes_lt_irreflexive(a.drop_first());
    }
}

pub proof fn lemma_bytes_lt_transitive(a: Seq<u8>, b: Seq<u8>, c: Seq<u8>)
    requires
        bytes_lt(a, b),
        bytes_lt(b, c),
    ensures
        bytes_lt(a, c),
    decreases a.len(),
{
    if a.len() > 0 && b.len() > 0 && c.len() > 0 {
        if a[0] == b[0] && b[0] == c[0] {
            lemma_bytes_lt_transitive(a.drop_first(), b.drop_first(), c.drop_first());
        }
    }
}

pub proof fn lemma_bytes_lt_total(a: Seq<u8>, b: Seq<u8>)
    ensures
        a == b || bytes_lt(a, b) || bytes_lt(b, a),
    decreases a.len(),
{
    if a.len() > 0 && b.len() > 0 && a[0] == b[0] {
        lemma_bytes_lt_total(a.drop_first(), b.drop_first());
        if a.drop_first() == b.drop_first() {
            assert(a =~= seq![a[0]] + a.drop_first());
            assert(b =~= seq![b[0]] + b.drop_first());
        }
    } else if a.len() == 0 && b.len() == 0 {
        assert(a =~= b);
    }
}

pub proof fn lemma_bytes_lt_asymmetric(a: Seq<u8>, b: Seq<u8>)
    requires
        bytes_lt(a, b),
    ensures
        !bytes_lt(b, a),
{
    if bytes_lt(b, a) {
        lemma_bytes_lt_transitive(a, b, a);
        lemma_bytes_lt_irreflexive(a);
    }
}

/// Two texts with the same encoding are the same text.
pub proof fn lemma_encode_injective(a: Seq<char>, b: Seq<char>)
    requires
        encode_utf8(a) == encode_utf8(b),
    ensures
        a == b,
{
    encode_utf8_decode_utf8(a);
    encode_utf8_decode_utf8(b);
}

pub proof fn lemma_text_lt_irreflexive(a: Seq<char>)
    ensures
        !text_lt(a, a),
{
    lemma_bytes_lt_irreflexive(encode_utf8(a));
}

pub proof fn lemma_text_lt_transitive(a: Seq<char>, b: Seq<char>, c: Seq<char>)
    requires
        text_lt(a, b),
        text_lt(b, c),
    ensures
        text_lt(a, c),
{
    lemma_bytes_lt_transitive(encode_utf8(a), encode_utf8(b), encode_utf8(c));
}

pub proof fn lemma_text_lt_total(a: Seq<char>, b: Seq<char>)
    ensures
        a == b || text_lt(a, b) || text_lt(b, a),
{
    lemma_bytes_lt_total(encode_utf8(a), encode_utf8(b));
    if encode_utf8(a) == encode_utf8(b) {
        lemma_encode_injective(a, b);
    }
}

pub proof fn lemma_text_lt_asymmetric(a: Seq<char>, b: Seq<char>)
    requires
        text_lt(a, b),
    ensures
        !text_lt(b, a),
        a != b,
{
    lemma_bytes_lt_asymmetric(encode_utf8(a), encode_utf8(b));
    lemma_bytes_lt_irreflexive(encode_utf8(a));
}

/// All the order facts at once, for use inside quantified proofs.
pub proof fn lemma_text_order()
    ensures
        forall|a: Seq<char>| !text_lt(a, a),
        forall|a: Seq<char>, b: Seq<char>|
            a == b || text_lt(a, b) || #[trigger] text_lt(b, a),
        forall|a: Seq<char>, b: Seq<char>| #[trigger] text_lt(a, b) ==> !text_lt(b, a),
        forall|a: Seq<char>, b: Seq<char>, c: Seq<char>|
            #[trigger] text_lt(a, b) && #[trigger] text_lt(b, c) ==> text_lt(a, c),
{
    assert forall|a: Seq<char>| !text_lt(a, a) by {
        lemma_text_lt_irreflexive(a);
    }
    assert forall|a: Seq<char>, b: Seq<char>|
        a == b || text_lt(a, b) || #[trigger] text_lt(b, a) by {
        lemma_text_lt_total(a, b);
    }
    assert forall|a: Seq<char>, b: Seq<char>| #[trigger] text_lt(a, b) implies !text_lt(b, a) by {
        lemma_text_lt_asymmetric(a, b);
    }
    assert forall|a: Seq<char>, b: Seq<char>, c: Seq<char>|
        #[trigger] text_lt(a, b) && #[trigger] text_lt(b, c) implies text_lt(a, c) by {
        lemma_text_lt_transitive(a, b, c);
    }
}

/// The outcome of comparing two texts.
#[derive(Debug, Clone, Copy, PartialEq, Eq, Structural)]
pub enum Cmp {
    Less,
    Equal,
    Greater,
}

proof fn lemma_bytes_lt_common_prefix(a: Seq<u8>, b: Seq<u8>, i: int)
    requires
        0 <= i <= a.len(),
        i <= b.len(),
        a.subrange(0, i) == b.subrange(0, i),
    ensures
        bytes_lt(a, b) == bytes_lt(a.subrange(i, a.len() as int), b.subrange(i, b.len() as int)),
    decreases i,
{
    if i > 0 {
        assert(a[0] == a.subrange(0, i)[0]);
        assert(b[0] == b.subrange(0, i)[0]);
        assert(a.drop_first().subrange(0, i - 1) =~= a.subrange(0, i).drop_first());
        assert(b.drop_first().subrange(0, i - 1) =~= b.subrange(0, i).drop_first());
        lemma_bytes_lt_common_prefix(a.drop_first(), b.drop_first(), i - 1);
        assert(a.drop_first().subrange(i - 1, a.len() - 1) =~= a.subrange(i, a.len() as int));
        assert(b.drop_first().subrange(i - 1, b.len() - 1) =~= b.subrange(i, b.len() as int));
    } else {
        assert(a.subrange(0, a.len() as int) =~= a);
        assert(b.subrange(0, b.len() as int) =~= b);
    }
}

/// Compares two byte strings lexicographically.
pub fn compare_bytes(a: &[u8], b: &[u8]) -> (r: Cmp)
    ensures
        r == Cmp::Less <==> bytes_lt(a@, b@),
        r == Cmp::Equal <==> a@ == b@,
        r == Cmp::Greater <==> bytes_lt(b@, a@),
{
    let mut i: usize = 0;
    while i < a.len() && i < b.len()
        invariant
            i <= a@.len(),
            i <= b@.len(),
            a@.subrange(0, i as int) == b@.subrange(0, i as int),
        decreases a@.len() - i,
    {
        if a[i] != b[i] {
            proof {
                lemma_bytes_lt_common_prefix(a@, b@, i as int);
                lemma_bytes_lt_common_prefix(b@, a@, i as int);
                lemma_bytes_lt_irreflexive(a@);
            }
            if a[i] < b[i] {
                proof { lemma_bytes_lt_asymmetric(a@, b@); }
                return Cmp::Less;
            } else {
                proof { lemma_bytes_lt_asymmetric(b@, a@); }
                return Cmp::Greater;
            }
        }
        assert(a@.subrange(0, i + 1) =~= a@.subrange(0, i as int).push(a@[i as int]));
        assert(b@.subrange(0, i + 1) =~= b@.subrange(0, i as int).push(b@[i as int]));
        i = i + 1;
    }
    proof {
        lemma_bytes_lt_common_prefix(a@, b@, i as int);
        lemma_bytes_lt_common_prefix(b@, a@, i as int);
        lemma_bytes_lt_irreflexive(a@);
    }
    if a.len() == b.len() {
        assert(a@ =~= a@.subrange(0, i as int));
        assert(b@ =~= b@.subrange(0, i as int));
        Cmp::Equal
    } else if a.len() < b.len() {
        proof { lemma_bytes_lt_asymmetric(a@, b@); }
        Cmp::Less
    } else {
        proof { lemma_bytes_lt_asymmetric(b@, a@); }
        Cmp::Greater
    }
}

/// Compares two texts in the order of std's `str`.
pub fn compare_text(a: &str, b: &str) -> (r: Cmp)
    ensures
        r == Cmp::Less <==> text_lt(a@, b@),
        r == Cmp::Equal <==> a@ == b@,
        r == Cmp::Greater <==> text_lt(b@, a@),
{
    let r = compare_bytes(a.as_bytes(), b.as_bytes());
    proof {
        if r == Cmp::Equal {
            lemma_encode_injective(a@, b@);
        }
    }
    r
}


/// The keys as text.
pub open spec fn key_views(keys: Seq<String>) -> Seq<Seq<char>> {
    keys.map_values(|s: String| s@)
}

/// Selects the positions whose key is `k`.
pub open spec fn with_key(keys: Seq<Seq<char>>, k: Seq<char>) -> spec_fn(usize) -> bool {
    |i: usize| keys[i as int] == k
}

/// The keys of the positions in `idx` never descend.
pub open spec fn sorted_by_keys(keys: Seq<Seq<char>>, idx: Seq<usize>) -> bool {
    forall|i: int, j: int|
        0 <= i < j < idx.len() ==> !text_lt(keys[idx[j] as int], keys[idx[i] as int])
}

/// For every key, `a` and `b` list the positions with that key in the same order.
pub open spec fn same_key_groups(keys: Seq<Seq<char>>, a: Seq<usize>, b: Seq<usize>) -> bool {
    forall|k: Seq<char>| #[trigger] a.filter(with_key(keys, k)) == b.filter(with_key(keys, k))
}

pub open spec fn all_below(idx: Seq<usize>, n: nat) -> bool {
    forall|i: int| 0 <= i < idx.len() ==> idx[i] < n
}

/// The positions `0..n` in their natural order.
pub open spec fn positions(n: nat) -> Seq<usize> {
    Seq::new(n, |i: int| i as usize)
}

/// `order` lists the positions of `keys` so that the keys ascend, positions
/// with equal keys keeping their original order: what a stable sort does.
pub open spec fn is_stable_order(keys: Seq<Seq<char>>, order: Seq<usize>) -> bool {
    &&& order.len() == keys.len()
    &&& all_below(order, keys.len())
    &&& sorted_by_keys(keys, order)
    &&& same_key_groups(keys, order, positions(keys.len()))
}

proof fn lemma_filter_of_lower(keys: Seq<Seq<char>>, s: Seq<usize>, k: Seq<char>)
    requires
        forall|t: int| 0 <= t < s.len() ==> keys[s[t] as int] != k,
    ensures
        s.filter(with_key(keys, k)) == Seq::<usize>::empty(),
{
    let p = with_key(keys, k);
    assert(s.all(|x: usize| !p(x))) by {
        assert forall|t: int| 0 <= t < s.len() implies !p(s[t]) by {}
    }
    s.lemma_all_neg_filter_empty(p);
}

/// Merges two runs sorted by key; on equal keys the element of `a` comes first.
fn merge(keys: &Vec<String>, a: Vec<usize>, b: Vec<usize>) -> (out: Vec<usize>)
    requires
        all_below(a@, keys@.len()),
        all_below(b@, keys@.len()),
        sorted_by_keys(key_views(keys@), a@),
        sorted_by_keys(key_views(keys@), b@),
    ensures
        out@.len() == a@.len() + b@.len(),
        all_below(out@, keys@.len()),
        sorted_by_keys(key_views(keys@), out@),
        forall|k: Seq<char>|
            #[trigger] out@.filter(with_key(key_views(keys@), k)) == a@.filter(
                with_key(key_views(keys@), k),
            ) + b@.filter(with_key(key_views(keys@), k)),
{
    let ghost kv = key_views(keys@);
    let mut out: Vec<usize> = Vec::new();
    let mut i: usize = 0;
    let mut j: usize = 0;
    proof {
        lemma_text_order();
        assert(a@.take(0) =~= Seq::<usize>::empty());
        assert(b@.take(0) =~= Seq::<usize>::empty());
        assert forall|k: Seq<char>|
            #[trigger] out@.filter(with_key(kv, k)) == a@.take(0).filter(with_key(kv, k)) + b@.take(
                0,
            ).filter(with_key(kv, k)) by {
            reveal(Seq::filter);
            assert(Seq::<usize>::empty().filter(with_key(kv, k)) =~= Seq::<usize>::empty());
        }
    }
    while i < a.len() || j < b.len()
        invariant
            kv == key_views(keys@),
            i <= a@.len(),
            j <= b@.len(),
            out@.len() == i + j,
            all_below(a@, keys@.len()),
            all_below(b@, keys@.len()),
            all_below(out@, keys@.len()),
            sorted_by_keys(kv, a@),
            sorted_by_keys(kv, b@),
            sorted_by_keys(kv, out@),
            forall|t: int|
                0 <= t < out@.len() && i < a@.len() ==> !text_lt(
                    kv[a@[i as int] as int],
                    kv[out@[t] as int],
                ),
            forall|t: int|
                0 <= t < out@.len() && j < b@.len() ==> !text_lt(
                    kv[b@[j as int] as int],
                    kv[out@[t] as int],
                ),
            forall|t: int|
                0 <= t < j && i < a@.len() ==> text_lt(kv[b@[t] as int], kv[a@[i as int] as int]),
            forall|k: Seq<char>|
                #[trigger] out@.filter(with_key(kv, k)) == a@.take(i as int).filter(with_key(kv, k))
                    + b@.take(j as int).filter(with_key(kv, k)),
        decreases a@.len() + b@.len() - i - j,
    {
        proof { lemma_text_order(); }
        let take_a = if j == b.len() {
            true
        } else if i == a.len() {
            false
        } else {
            let ka = a[i];
            let kb = b[j];
            match compare_text(keys[kb].as_str(), keys[ka].as_str()) {
                Cmp::Less => false,
                _ => true,
            }
        };
        let ghost old_out = out@;
        if take_a {
            let x = a[i];
            out.push(x);
            proof {
                assert(a@.take(i + 1) =~= a@.take(i as int).push(x));
                assert forall|k: Seq<char>|
                    #[trigger] out@.filter(with_key(kv, k)) == a@.take(i + 1).filter(with_key(kv, k))
                        + b@.take(j as int).filter(with_key(kv, k)) by {
                    let p = with_key(kv, k);
                    old_out.lemma_filter_push(x, p);
                    a@.take(i as int).lemma_filter_push(x, p);
                    if p(x) {
                        assert forall|t: int| 0 <= t < b@.take(j as int).len() implies kv[b@.take(
                            j as int,
                        )[t] as int] != k by {
                            assert(b@.take(j as int)[t] == b@[t]);
                        }
                        lemma_filter_of_lower(kv, b@.take(j as int), k);
                        assert(b@.take(j as int).filter(p) =~= Seq::<usize>::empty());
                        assert(a@.take(i as int).filter(p).push(x) + Seq::<usize>::empty()
                            =~= (a@.take(i as int).filter(p) + Seq::<usize>::empty()).push(x));
                    }
                }
                assert forall|t: int|
                    0 <= t < out@.len() && i + 1 < a@.len() implies !text_lt(
                        kv[a@[i + 1] as int],
                        kv[out@[t] as int],
                    ) by {
                    if t < old_out.len() {
                        assert(!text_lt(kv[a@[i as int] as int], kv[old_out[t] as int]));
                    }
                    assert(!text_lt(kv[a@[i + 1] as int], kv[a@[i as int] as int]));
                }
                assert forall|t: int|
                    0 <= t < out@.len() && j < b@.len() implies !text_lt(
                        kv[b@[j as int] as int],
                        kv[out@[t] as int],
                    ) by {
                    if t < old_out.len() {
                        assert(!text_lt(kv[b@[j as int] as int], kv[old_out[t] as int]));
                    }
                }
                assert forall|t: int|
                    0 <= t < j && i + 1 < a@.len() implies text_lt(
                        kv[b@[t] as int],
                        kv[a@[i + 1] as int],
                    ) by {
                    assert(text_lt(kv[b@[t] as int], kv[a@[i as int] as int]));
                    assert(!text_lt(kv[a@[i + 1] as int], kv[a@[i as int] as int]));
                }
                assert forall|s: int, t: int| 0 <= s < t < out@.len() implies !text_lt(
                    kv[out@[t] as int],
                    kv[out@[s] as int],
                ) by {
                    if t < old_out.len() {
                        assert(!text_lt(kv[old_out[t] as int], kv[old_out[s] as int]));
                    } else {
                        assert(!text_lt(kv[a@[i as int] as int], kv[old_out[s] as int]));
                    }
                }
            }
            i = i + 1;
        } else {
            let x = b[j];
            out.push(x);
            proof {
                assert(b@.take(j + 1) =~= b@.take(j as int).push(x));
                assert forall|k: Seq<char>|
                    #[trigger] out@.filter(with_key(kv, k)) == a@.take(i as int).filter(
                        with_key(kv, k),
                    ) + b@.take(j + 1).filter(with_key(kv, k)) by {
                    let p = with_key(kv, k);
                    old_out.lemma_filter_push(x, p);
                    b@.take(j as int).lemma_filter_push(x, p);
                    if p(x) {
                        assert(a@.take(i as int).filter(p) + b@.take(j as int).filter(p).push(x)
                            =~= (a@.take(i as int).filter(p) + b@.take(j as int).filter(
                            p,
                        )).push(x));
                    }
                }
                assert forall|t: int|
                    0 <= t < out@.len() && i < a@.len() implies !text_lt(
                        kv[a@[i as int] as int],
                        kv[out@[t] as int],
                    ) by {
                    if t < old_out.len() {
                        assert(!text_lt(kv[a@[i as int] as int], kv[old_out[t] as int]));
                    } else {
                        assert(text_lt(kv[b@[j as int] as int], kv[a@[i as int] as int]));
                    }
                }
                assert forall|t: int|
                    0 <= t < out@.len() && j + 1 < b@.len() implies !text_lt(
                        kv[b@[j + 1] as int],
                        kv[out@[t] as int],
                    ) by {
                    if t < old_out.len() {
                        assert(!text_lt(kv[b@[j as int] as int], kv[old_out[t] as int]));
                    }
                    assert(!text_lt(kv[b@[j + 1] as int], kv[b@[j as int] as int]));
                }
                assert forall|t: int|
                    0 <= t < j + 1 && i < a@.len() implies text_lt(
                        kv[b@[t] as int],
                        kv[a@[i as int] as int],
                    ) by {}
                assert forall|s: int, t: int| 0 <= s < t < out@.len() implies !text_lt(
                    kv[out@[t] as int],
                    kv[out@[s] as int],
                ) by {
                    if t < old_out.len() {
                        assert(!text_lt(kv[old_out[t] as int], kv[old_out[s] as int]));
                    } else {
                        assert(!text_lt(kv[b@[j as int] as int], kv[old_out[s] as int]));
                    }
                }
            }
            j = j + 1;
        }
    }
    assert(a@.take(a@.len() as int) =~= a@);
    assert(b@.take(b@.len() as int) =~= b@);
    out
}

/// Sorts the positions in `v` by their key, stably.
pub fn merge_sort(keys: &Vec<String>, v: Vec<usize>) -> (out: Vec<usize>)
    requires
        all_below(v@, keys@.len()),
    ensures
        out@.len() == v@.len(),
        all_below(out@, keys@.len()),
        sorted_by_keys(key_views(keys@), out@),
        same_key_groups(key_views(keys@), out@, v@),
    decreases v@.len(),
{
    if v.len() <= 1 {
        return v;
    }
    let mid = v.len() / 2;
    let mut left = v;
    let ghost whole = left@;
    let right = left.split_off(mid);
    assert(whole =~= left@ + right@);
    let l = merge_sort(keys, left);
    let r = merge_sort(keys, right);
    let out = merge(keys, l, r);
    proof {
        let kv = key_views(keys@);
        assert forall|k: Seq<char>| #[trigger] out@.filter(with_key(kv, k)) == whole.filter(
            with_key(kv, k),
        ) by {
            Seq::filter_distributes_over_add(left@, right@, with_key(kv, k));
            assert(l@.filter(with_key(kv, k)) == left@.filter(with_key(kv, k)));
            assert(r@.filter(with_key(kv, k)) == right@.filter(with_key(kv, k)));
        }
    }
    out
}

/// The positions of `keys` in the order of a stable sort by key.
pub fn stable_order(keys: &Vec<String>) -> (order: Vec<usize>)
    ensures
        is_stable_order(key_views(keys@), order@),
{
    let mut v: Vec<usize> = Vec::new();
    let n = keys.len();
    for i in 0..n
        invariant
            n == keys@.len(),
            v@ == positions(i as nat),
    {
        v.push(i);
        assert(v@ =~= positions((i + 1) as nat));
    }
    merge_sort(keys, v)
}


/// The elements of `es` at the positions listed in `idx`.
pub open spec fn pick<A>(es: Seq<A>, idx: Seq<usize>) -> Seq<A> {
    idx.map_values(|i: usize| es[i as int])
}

/// Selects the elements whose key is `k`.
pub open spec fn key_is<A>(key: spec_fn(A) -> Seq<char>, k: Seq<char>) -> spec_fn(A) -> bool {
    |e: A| key(e) == k
}

/// The keys of `s` never descend.
pub open spec fn sorted_by<A>(s: Seq<A>, key: spec_fn(A) -> Seq<char>) -> bool {
    forall|i: int, j: int| 0 <= i < j < s.len() ==> !text_lt(key(s[j]), key(s[i]))
}

/// `out` is what a stable sort of `inp` by `key` gives: the keys ascend, and
/// for every key the elements with that key come in their original order.
pub open spec fn is_stable_sort_by<A>(out: Seq<A>, inp: Seq<A>, key: spec_fn(A) -> Seq<char>) -> bool {
    &&& out.len() == inp.len()
    &&& sorted_by(out, key)
    &&& forall|k: Seq<char>| #[trigger] out.filter(key_is(key, k)) == inp.filter(key_is(key, k))
}

pub proof fn lemma_filter_congruent<A>(s: Seq<A>, p: spec_fn(A) -> bool, q: spec_fn(A) -> bool)
    requires
        forall|t: int| 0 <= t < s.len() ==> p(s[t]) == q(s[t]),
    ensures
        s.filter(p) == s.filter(q),
    decreases s.len(),
{
    reveal(Seq::filter);
    if s.len() > 0 {
        lemma_filter_congruent(s.drop_last(), p, q);
    }
}

pub proof fn lemma_filter_pick<A>(es: Seq<A>, idx: Seq<usize>, p: spec_fn(A) -> bool)
    ensures
        pick(es, idx).filter(p) == pick(es, idx.filter(|i: usize| p(es[i as int]))),
    decreases idx.len(),
{
    reveal(Seq::filter);
    let q = |i: usize| p(es[i as int]);
    if idx.len() > 0 {
        lemma_filter_pick(es, idx.drop_last(), p);
        assert(pick(es, idx).drop_last() =~= pick(es, idx.drop_last()));
        if q(idx.last()) {
            assert(pick(es, idx.drop_last().filter(q).push(idx.last())) =~= pick(
                es,
                idx.drop_last().filter(q),
            ).push(es[idx.last() as int]));
        }
    } else {
        assert(pick(es, idx) =~= Seq::<A>::empty());
        assert(pick(es, idx.filter(q)) =~= Seq::<A>::empty());
    }
}

pub proof fn lemma_pick_positions<A>(es: Seq<A>)
    requires
        es.len() <= usize::MAX,
    ensures
        pick(es, positions(es.len())) == es,
{
    assert(pick(es, positions(es.len())) =~= es);
}

/// Placing the elements in a stable order of their keys is a stable sort.
pub proof fn lemma_pick_stable_order<A>(
    es: Seq<A>,
    key: spec_fn(A) -> Seq<char>,
    keys: Seq<Seq<char>>,
    order: Seq<usize>,
)
    requires
        keys.len() == es.len(),
        es.len() <= usize::MAX,
        forall|i: int| 0 <= i < es.len() ==> keys[i] == key(es[i]),
        is_stable_order(keys, order),
    ensures
        is_stable_sort_by(pick(es, order), es, key),
{
    let out = pick(es, order);
    assert forall|i: int, j: int| 0 <= i < j < out.len() implies !text_lt(
        key(out[j]),
        key(out[i]),
    ) by {
        assert(!text_lt(keys[order[j] as int], keys[order[i] as int]));
    }
    assert forall|k: Seq<char>| #[trigger] out.filter(key_is(key, k)) == es.filter(
        key_is(key, k),
    ) by {
        let p = key_is(key, k);
        let q = |i: usize| p(es[i as int]);
        let w = with_key(keys, k);
        lemma_filter_pick(es, order, p);
        lemma_filter_pick(es, positions(es.len()), p);
        lemma_filter_congruent(order, q, w);
        lemma_filter_congruent(positions(es.len()), q, w);
        lemma_pick_positions(es);
        assert(order.filter(w) == positions(keys.len()).filter(w));
    }
}

/// Two sequences sorted by key that hold, for every key, the same elements in
/// the same order, are the same sequence.
pub proof fn lemma_sorted_same_groups_equal<A>(
    s1: Seq<A>,
    s2: Seq<A>,
    key: spec_fn(A) -> Seq<char>,
)
    requires
        sorted_by(s1, key),
        sorted_by(s2, key),
        forall|k: Seq<char>| #[trigger] s1.filter(key_is(key, k)) == s2.filter(key_is(key, k)),
    ensures
        s1 == s2,
    decreases s1.len() + s2.len(),
{
    broadcast use vstd::seq_lib::group_filter_ensures;

    lemma_text_order();
    if s1.len() == 0 && s2.len() == 0 {
        assert(s1 =~= s2);
        return;
    }
    if s1.len() == 0 || s2.len() == 0 {
        // the non-empty one has an element whose key group is non-empty in it only
        let (t, u) = if s1.len() == 0 {
            (s2, s1)
        } else {
            (s1, s2)
        };
        let k = key(t[0]);
        assert(t.filter(key_is(key, k)).contains(t[0]));
        assert(u.filter(key_is(key, k)).len() <= u.len());
        assert(false);
        return;
    }
    let k1 = key(s1[0]);
    let k2 = key(s2[0]);
    assert(s1.filter(key_is(key, k1)).contains(s1[0]));
    assert(s2.filter(key_is(key, k2)).contains(s2[0]));
    s2.lemma_filter_contains_rev(key_is(key, k1), s1[0]);
    s1.lemma_filter_contains_rev(key_is(key, k2), s2[0]);
    let m1 = choose|t: int| 0 <= t < s2.len() && s2[t] == s1[0];
    let m2 = choose|t: int| 0 <= t < s1.len() && s1[t] == s2[0];
    assert(key(s2[m1]) == k1);
    assert(key(s1[m2]) == k2);
    if m1 > 0 {
        assert(!text_lt(key(s2[m1]), key(s2[0])));
    }
    if m2 > 0 {
        assert(!text_lt(key(s1[m2]), key(s1[0])));
    }
    assert(k1 == k2);
    let p = key_is(key, k1);
    assert(s1 =~= seq![s1[0]] + s1.drop_first());
    assert(s2 =~= seq![s2[0]] + s2.drop_first());
    s1.drop_first().lemma_filter_prepend(s1[0], p);
    s2.drop_first().lemma_filter_prepend(s2[0], p);
    assert(s1.filter(p)[0] == s1[0]);
    assert(s2.filter(p)[0] == s2[0]);
    assert(s1[0] == s2[0]);
    assert forall|k: Seq<char>| #[trigger] s1.drop_first().filter(key_is(key, k))
        == s2.drop_first().filter(key_is(key, k)) by {
        let q = key_is(key, k);
        s1.drop_first().lemma_filter_prepend(s1[0], q);
        s2.drop_first().lemma_filter_prepend(s2[0], q);
        assert(s1.filter(q) == s2.filter(q));
        if q(s1[0]) {
            assert(s1.drop_first().filter(q) =~= s1.filter(q).drop_first());
            assert(s2.drop_first().filter(q) =~= s2.filter(q).drop_first());
        } else {
            assert(s1.drop_first().filter(q) =~= s1.filter(q));
            assert(s2.drop_first().filter(q) =~= s2.filter(q));
        }
    }
    assert(sorted_by(s1.drop_first(), key)) by {
        assert forall|i: int, j: int| 0 <= i < j < s1.drop_first().len() implies !text_lt(
            key(s1.drop_first()[j]),
            key(s1.drop_first()[i]),
        ) by {
            assert(!text_lt(key(s1[j + 1]), key(s1[i + 1])));
        }
    }
    assert(sorted_by(s2.drop_first(), key)) by {
        assert forall|i: int, j: int| 0 <= i < j < s2.drop_first().len() implies !text_lt(
            key(s2.drop_first()[j]),
            key(s2.drop_first()[i]),
        ) by {
            assert(!text_lt(key(s2[j + 1]), key(s2[i + 1])));
        }
    }
    lemma_sorted_same_groups_equal(s1.drop_first(), s2.drop_first(), key);
}


/// No two elements of `s` share a key.
pub open spec fn unique_keys<A>(s: Seq<A>, key: spec_fn(A) -> Seq<char>) -> bool {
    forall|i: int, j: int| 0 <= i < j < s.len() ==> key(s[i]) != key(s[j])
}

/// With unique keys, the group of a key is empty or the one element that has it.
pub proof fn lemma_filter_unique<A>(s: Seq<A>, key: spec_fn(A) -> Seq<char>, k: Seq<char>)
    requires
        unique_keys(s, key),
    ensures
        (forall|i: int| 0 <= i < s.len() ==> key(s[i]) != k) ==> s.filter(key_is(key, k))
            == Seq::<A>::empty(),
        forall|i: int|
            0 <= i < s.len() && key(s[i]) == k ==> s.filter(key_is(key, k)) == seq![s[i]],
    decreases s.len(),
{
    reveal(Seq::filter);
    if s.len() > 0 {
        let r = s.drop_last();
        assert(unique_keys(r, key)) by {
            assert forall|i: int, j: int| 0 <= i < j < r.len() implies key(r[i]) != key(r[j]) by {
                assert(key(s[i]) != key(s[j]));
            }
        }
        lemma_filter_unique(r, key, k);
        if key(s.last()) == k {
            assert forall|i: int| 0 <= i < r.len() implies key(r[i]) != k by {
                assert(key(s[i]) != key(s[s.len() - 1]));
            }
            assert(r.filter(key_is(key, k)) == Seq::<A>::empty());
            assert(s.filter(key_is(key, k)) =~= seq![s.last()]);
            assert forall|i: int| 0 <= i < s.len() && key(s[i]) == k implies s.filter(
                key_is(key, k),
            ) == seq![s[i]] by {
                if i < s.len() - 1 {
                    assert(key(s[i]) != key(s[s.len() - 1]));
                }
            }
        } else {
            assert forall|i: int| 0 <= i < s.len() && key(s[i]) == k implies s.filter(
                key_is(key, k),
            ) == seq![s[i]] by {
                assert(r[i] == s[i]);
            }
        }
    }
}

/// Two lists without repeated keys that hold the same elements have the
/// same group for every key.
pub proof fn lemma_same_elements_same_groups<A>(
    s1: Seq<A>,
    s2: Seq<A>,
    key: spec_fn(A) -> Seq<char>,
    k: Seq<char>,
)
    requires
        unique_keys(s1, key),
        unique_keys(s2, key),
        forall|e: A| s1.contains(e) <==> s2.contains(e),
    ensures
        s1.filter(key_is(key, k)) == s2.filter(key_is(key, k)),
{
    lemma_filter_unique(s1, key, k);
    lemma_filter_unique(s2, key, k);
    if exists|i: int| 0 <= i < s1.len() && key(s1[i]) == k {
        let i = choose|i: int| 0 <= i < s1.len() && key(s1[i]) == k;
        assert(s1.contains(s1[i]));
        let j = choose|j: int| 0 <= j < s2.len() && s2[j] == s1[i];
        assert(s2.filter(key_is(key, k)) == seq![s2[j]]);
    } else if exists|j: int| 0 <= j < s2.len() && key(s2[j]) == k {
        let j = choose|j: int| 0 <= j < s2.len() && key(s2[j]) == k;
        assert(s2.contains(s2[j]));
        let i = choose|i: int| 0 <= i < s1.len() && s1[i] == s2[j];
        assert(false);
    }
}

/// Law: byte strings are ordered as std orders them. After a common prefix of
/// length `i`, the first differing byte decides, and a proper prefix comes
/// before any longer string.
pub proof fn law_bytes_order(a: Seq<u8>, b: Seq<u8>, i: int)
    requires
        0 <= i <= a.len(),
        i <= b.len(),
        a.take(i) == b.take(i),
    ensures
        i < a.len() && i < b.len() && a[i] < b[i] ==> bytes_lt(a, b) && !bytes_lt(b, a),
        i == a.len() && i < b.len() ==> bytes_lt(a, b) && !bytes_lt(b, a),
        i == a.len() && i == b.len() ==> a == b,
{
    assert(a.subrange(0, i) =~= a.take(i));
    assert(b.subrange(0, i) =~= b.take(i));
    lemma_bytes_lt_common_prefix(a, b, i);
    lemma_bytes_lt_common_prefix(b, a, i);
    let ra = a.subrange(i, a.len() as int);
    let rb = b.subrange(i, b.len() as int);
    if i < a.len() && i < b.len() {
        assert(ra[0] == a[i]);
        assert(rb[0] == b[i]);
    }
    if i == a.len() && i == b.len() {
        assert(a =~= a.take(i));
        assert(b =~= b.take(i));
    }
}

} // verus!
