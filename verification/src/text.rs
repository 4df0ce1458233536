//! Small verified operations on text.

use vstd::prelude::*;

verus! {

/// Appends `c` to `s` with `String::push`; the contract claims only what its
/// documentation says: the text grows by that one character.
#[verifier::external_body]
pub(crate) fn push_char(s: &mut String, c: char)
    ensures
        final(s)@ == old(s)@.push(c),
{
    s.push(c);
}

/// A new string holding the characters of `cs`.
pub fn string_from_chars(v: &Vec<char>) -> (s: String)
    ensures
        s@ == v@,
{
    let mut s = String::new();
    for i in 0..v.len()
        invariant
            s@ == v@.take(i as int),
    {
        push_char(&mut s, v[i]);
        assert(v@.take(i + 1) =~= v@.take(i as int).push(v@[i as int]));
    }
    assert(v@.take(v@.len() as int) =~= v@);
    s
}

/// The characters of `s`, in order.
pub fn chars_of(s: &str) -> (v: Vec<char>)
    ensures
        v@ == s@,
{
    let mut v: Vec<char> = Vec::new();
    for c in it: s.chars()
        invariant
            v@ == it.seq().take(it.index() as int),
    {
        v.push(c);
    }
    v
}


/// Appends the characters of `t` to `s`.
pub fn push_str(s: &mut String, t: &str)
    ensures
        final(s)@ == old(s)@ + t@,
{
    let cs = chars_of(t);
    let ghost start = s@;
    for i in 0..cs.len()
        invariant
            cs@ == t@,
            s@ == start + t@.take(i as int),
    {
        push_char(s, cs[i]);
        assert(t@.take(i + 1) =~= t@.take(i as int).push(t@[i as int]));
    }
    assert(t@.take(cs@.len() as int) =~= t@);
}

/// A new string with the characters of `t`.
pub fn string_of(t: &str) -> (s: String)
    ensures
        s@ == t@,
{
    let mut s = String::new();
    push_str(&mut s, t);
    s
}

/// The concatenation of three texts.
pub fn concat3(a: &str, b: &str, c: &str) -> (s: String)
    ensures
        s@ == a@ + b@ + c@,
{
    let mut s = String::new();
    push_str(&mut s, a);
    push_str(&mut s, b);
    push_str(&mut s, c);
    assert(s@ =~= a@ + b@ + c@);
    s
}

/// `t` occurs in `s` starting at `i`.
pub open spec fn occurs_at(s: Seq<char>, t: Seq<char>, i: int) -> bool {
    0 <= i && i + t.len() <= s.len() && s.subrange(i, i + t.len()) == t
}

/// `t` occurs somewhere in `s`.
pub open spec fn contains_text(s: Seq<char>, t: Seq<char>) -> bool {
    exists|i: int| occurs_at(s, t, i)
}

/// Whether `t` occurs in `s`.
pub fn contains_str(s: &str, t: &str) -> (r: bool)
    ensures
        r == contains_text(s@, t@),
{
    let sc = chars_of(s);
    let tc = chars_of(t);
    if tc.len() > sc.len() {
        proof {
            assert forall|i: int| !occurs_at(s@, t@, i) by {}
        }
        return false;
    }
    if tc.len() == 0 {
        assert(s@.subrange(0, 0) =~= t@);
        assert(occurs_at(s@, t@, 0));
        return true;
    }
    let n = sc.len();
    let last = n - tc.len();
    let mut i: usize = 0;
    while i <= last
        invariant
            sc@ == s@,
            tc@ == t@,
            n == sc@.len(),
            last == sc@.len() - tc@.len(),
            tc@.len() > 0,
            i <= last + 1,
            forall|k: int| 0 <= k < i ==> !occurs_at(s@, t@, k),
        decreases last + 1 - i,
    {
        let mut j: usize = 0;
        let mut same = true;
        while j < tc.len()
            invariant
                sc@ == s@,
                tc@ == t@,
                i <= last,
                n == sc@.len(),
                last == sc@.len() - tc@.len(),
                j <= tc@.len(),
                same ==> forall|m: int| 0 <= m < j ==> sc@[i + m] == tc@[m],
                !same ==> !occurs_at(s@, t@, i as int),
            decreases tc@.len() - j,
        {
            if sc[i + j] != tc[j] {
                proof {
                    if occurs_at(s@, t@, i as int) {
                        assert(s@.subrange(i as int, i + t@.len())[j as int] == sc@[i + j]);
                    }
                }
                same = false;
            }
            j = j + 1;
        }
        if same {
            assert(s@.subrange(i as int, i + t@.len()) =~= t@);
            assert(occurs_at(s@, t@, i as int));
            return true;
        }
        i = i + 1;
    }
    proof {
        assert forall|k: int| !occurs_at(s@, t@, k) by {
            if 0 <= k && k + t@.len() <= s@.len() {
                assert(k < i);
            }
        }
    }
    false
}

/// Whether `s` begins with `t`.
pub fn starts_with_str(s: &str, t: &str) -> (r: bool)
    ensures
        r == occurs_at(s@, t@, 0),
{
    let sc = chars_of(s);
    let tc = chars_of(t);
    if tc.len() > sc.len() {
        return false;
    }
    let mut j: usize = 0;
    while j < tc.len()
        invariant
            sc@ == s@,
            tc@ == t@,
            tc@.len() <= sc@.len(),
            j <= tc@.len(),
            forall|m: int| 0 <= m < j ==> sc@[m] == tc@[m],
        decreases tc@.len() - j,
    {
        if sc[j] != tc[j] {
            proof {
                if occurs_at(s@, t@, 0) {
                    assert(s@.subrange(0, t@.len() as int)[j as int] == sc@[j as int]);
                }
            }
            return false;
        }
        j = j + 1;
    }
    assert(s@.subrange(0, t@.len() as int) =~= t@);
    true
}

/// Whether the two texts are the same.
pub fn same_text(a: &str, b: &str) -> (r: bool)
    ensures
        r == (a@ == b@),
{
    match crate::order::compare_text(a, b) {
        crate::order::Cmp::Equal => true,
        _ => false,
    }
}

/// `s` with every backslash written as a forward slash.
pub open spec fn forward_slashes(s: Seq<char>) -> Seq<char> {
    s.map_values(|c: char| if c == '\\' { '/' } else { c })
}

/// Writes path separators as `/`.
pub fn normalize_separators(s: &str) -> (r: String)
    ensures
        r@ == forward_slashes(s@),
{
    let cs = chars_of(s);
    let mut r = String::new();
    for i in 0..cs.len()
        invariant
            cs@ == s@,
            r@ == forward_slashes(s@.take(i as int)),
    {
        let c = cs[i];
        push_char(&mut r, if c == '\\' { '/' } else { c });
        assert(forward_slashes(s@.take(i + 1)) =~= forward_slashes(s@.take(i as int)).push(
            if c == '\\' { '/' } else { c },
        ));
    }
    assert(s@.take(cs@.len() as int) =~= s@);
    r
}


/// Whether `c` occurs in `s`.
pub fn contains_char(s: &str, c: char) -> (r: bool)
    ensures
        r == s@.contains(c),
{
    let cs = chars_of(s);
    for i in 0..cs.len()
        invariant
            cs@ == s@,
            forall|j: int| 0 <= j < i ==> cs@[j] != c,
    {
        if cs[i] == c {
            assert(s@[i as int] == c);
            return true;
        }
    }
    false
}

/// `s` as `{:?}` writes a `str`: quoted, with escapes.
pub uninterp spec fn str_debug(s: Seq<char>) -> Seq<char>;

/// Formats `s` with std's `Debug` for `str`. The contract claims only that
/// the text is a function of `s` alone, named `str_debug`.
#[verifier::external_body]
pub(crate) fn debug_quoted(s: &str) -> (r: String)
    ensures
        r@ == str_debug(s@),
{
    format!("{s:?}")
}

} // verus!
