//! Content hashing: BLAKE3 digests written as `blake3:<lowercase hex>`.

use vstd::prelude::*;
use crate::text::push_char;

verus! {

/// The 32-byte BLAKE3 digest of `data`, as `blake3::hash` computes it.
pub uninterp spec fn blake3_hash(data: Seq<u8>) -> Seq<u8>;

/// Calls `blake3::hash` and hands back the digest's raw bytes.
/// The contract claims that the bytes are a function of `data` alone, named
/// `blake3_hash`, and that there are 32 of them (`blake3::OUT_LEN`); it says
/// nothing of which bytes they are.
#[verifier::external_body]
fn blake3_digest(data: &[u8]) -> (d: Vec<u8>)
    ensures
        d@ == blake3_hash(data@),
        d@.len() == 32,
{
    blake3::hash(data).as_bytes().to_vec()
}

/// The lowercase hexadecimal digit of `n` (`n < 16`).
pub open spec fn hex_digit(n: int) -> char {
    if n < 10 {
        (48 + n) as char
    } else {
        (87 + n) as char
    }
}

/// Lowercase hexadecimal text of a byte string, two digits per byte.
pub open spec fn hex_lower(bytes: Seq<u8>) -> Seq<char>
    decreases bytes.len(),
{
    if bytes.len() == 0 {
        Seq::empty()
    } else {
        hex_lower(bytes.drop_last()) + seq![
            hex_digit((bytes.last() / 16) as int),
            hex_digit((bytes.last() % 16) as int),
        ]
    }
}

/// The text `blake3:`.
pub open spec fn digest_prefix() -> Seq<char> {
    seq!['b', 'l', 'a', 'k', 'e', '3', ':']
}

/// The text that names the BLAKE3 digest of `data`.
pub open spec fn digest_text(data: Seq<u8>) -> Seq<char> {
    digest_prefix() + hex_lower(blake3_hash(data))
}

fn hex_char(n: u8) -> (c: char)
    requires
        n < 16,
    ensures
        c == hex_digit(n as int),
{
    if n < 10 {
        (48 + n) as char
    } else {
        (87 + n) as char
    }
}

/// Appends the lowercase hexadecimal text of `bytes` to `s`.
pub fn push_hex(s: &mut String, bytes: &[u8])
    ensures
        final(s)@ == old(s)@ + hex_lower(bytes@),
{
    let ghost start = s@;
    for i in 0..bytes.len()
        invariant
            s@ == start + hex_lower(bytes@.take(i as int)),
    {
        let b = bytes[i];
        push_char(s, hex_char(b / 16));
        push_char(s, hex_char(b % 16));
        proof {
            assert(bytes@.take(i + 1).drop_last() =~= bytes@.take(i as int));
            assert(bytes@.take(i + 1).last() == b);
        }
    }
    assert(bytes@.take(bytes@.len() as int) =~= bytes@);
}

/// A string holding `blake3:`.
pub fn digest_prefix_string() -> (s: String)
    ensures
        s@ == digest_prefix(),
{
    let mut s = String::new();
    push_char(&mut s, 'b');
    push_char(&mut s, 'l');
    push_char(&mut s, 'a');
    push_char(&mut s, 'k');
    push_char(&mut s, 'e');
    push_char(&mut s, '3');
    push_char(&mut s, ':');
    assert(s@ =~= digest_prefix());
    s
}

/// The text that names a digest: `blake3:` and the digest in lowercase hex.
pub fn format_digest(digest: &[u8]) -> (h: String)
    ensures
        h@ == digest_prefix() + hex_lower(digest@),
{
    let mut s = digest_prefix_string();
    push_hex(&mut s, digest);
    s
}

/// Hash a byte string, returning `blake3:<hex>`.
pub fn hash_bytes(bytes: &[u8]) -> (h: String)
    ensures
        h@ == digest_text(bytes@),
{
    let d = blake3_digest(bytes);
    format_digest(d.as_slice())
}

/// Two texts naming digests are equal exactly when the digests are; the
/// prefix and the hexadecimal writing lose nothing.
pub proof fn lemma_hex_lower_injective(a: Seq<u8>, b: Seq<u8>)
    requires
        hex_lower(a) == hex_lower(b),
    ensures
        a == b,
    decreases a.len(),
{
    lemma_hex_lower_len(a);
    lemma_hex_lower_len(b);
    if a.len() > 0 {
        let ha = hex_lower(a);
        let hb = hex_lower(b);
        let n = ha.len();
        assert(ha[n - 2] == hex_digit((a.last() / 16) as int));
        assert(hb[n - 2] == hex_digit((b.last() / 16) as int));
        assert(ha[n - 1] == hex_digit((a.last() % 16) as int));
        assert(hb[n - 1] == hex_digit((b.last() % 16) as int));
        lemma_hex_digit_injective((a.last() / 16) as int, (b.last() / 16) as int);
        lemma_hex_digit_injective((a.last() % 16) as int, (b.last() % 16) as int);
        assert(hex_lower(a.drop_last()) =~= ha.subrange(0, n - 2));
        assert(hex_lower(b.drop_last()) =~= hb.subrange(0, n - 2));
        lemma_hex_lower_injective(a.drop_last(), b.drop_last());
        assert(a =~= a.drop_last().push(a.last()));
        assert(b =~= b.drop_last().push(b.last()));
    } else {
        assert(a =~= b);
    }
}

pub proof fn lemma_hex_lower_len(a: Seq<u8>)
    ensures
        hex_lower(a).len() == 2 * a.len(),
    decreases a.len(),
{
    if a.len() > 0 {
        lemma_hex_lower_len(a.drop_last());
    }
}

proof fn lemma_hex_digit_injective(x: int, y: int)
    requires
        0 <= x < 16,
        0 <= y < 16,
        hex_digit(x) == hex_digit(y),
    ensures
        x == y,
{
}

/// Law: two inputs get the same digest text exactly when BLAKE3 gives them
/// the same digest; writing the digest as text loses nothing.
pub proof fn law_digest_text_matches_hash(x: Seq<u8>, y: Seq<u8>)
    ensures
        digest_text(x) == digest_text(y) <==> blake3_hash(x) == blake3_hash(y),
{
    if digest_text(x) == digest_text(y) {
        let n = digest_prefix().len() as int;
        assert(hex_lower(blake3_hash(x)) =~= digest_text(x).skip(n));
        assert(hex_lower(blake3_hash(y)) =~= digest_text(y).skip(n));
        lemma_hex_lower_injective(blake3_hash(x), blake3_hash(y));
    }
}

/// The sixteen lowercase hexadecimal digits in order.
proof fn lemma_hex_digit_table(n: int)
    requires
        0 <= n < 16,
    ensures
        hex_digit(n) == "0123456789abcdef"@[n],
{
    reveal_strlit("0123456789abcdef");
}

/// Law: a digest is written as two lowercase hexadecimal digits per byte,
/// high nibble first, in the order of the bytes.
pub proof fn law_hex_spelling(bytes: Seq<u8>)
    ensures
        hex_lower(bytes).len() == 2 * bytes.len(),
        forall|i: int|
            0 <= i < bytes.len() ==> hex_lower(bytes)[2 * i] == "0123456789abcdef"@[(#[trigger] bytes[i]
                / 16) as int] && hex_lower(bytes)[2 * i + 1] == "0123456789abcdef"@[(bytes[i]
                % 16) as int],
    decreases bytes.len(),
{
    lemma_hex_lower_len(bytes);
    if bytes.len() > 0 {
        let r = bytes.drop_last();
        law_hex_spelling(r);
        lemma_hex_lower_len(r);
        let b = bytes.last();
        lemma_hex_digit_table((b / 16) as int);
        lemma_hex_digit_table((b % 16) as int);
        assert forall|i: int| 0 <= i < bytes.len() implies hex_lower(bytes)[2 * i]
            == "0123456789abcdef"@[(#[trigger] bytes[i] / 16) as int] && hex_lower(bytes)[2 * i + 1]
            == "0123456789abcdef"@[(bytes[i] % 16) as int] by {
            if i < r.len() {
                assert(bytes[i] == r[i]);
                assert(hex_lower(bytes)[2 * i] == hex_lower(r)[2 * i]);
                assert(hex_lower(bytes)[2 * i + 1] == hex_lower(r)[2 * i + 1]);
            }
        }
    }
}

} // verus!
