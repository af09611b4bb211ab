use vstd::prelude::*;
use vstd::slice::{slice_subrange, slice_to_vec};
use vstd::utf8::{decode_utf8, encode_utf8, encode_utf8_decode_utf8, valid_utf8};

verus! {

/// Space, tab, carriage return or newline.
pub open spec fn is_ws(b: u8) -> bool {
    b == 32 || b == 9 || b == 13 || b == 10
}

/// A decimal digit, `0` to `9`.
pub open spec fn is_digit(b: u8) -> bool {
    48 <= b <= 57
}

/// Whether every byte of `s` is a decimal digit.
pub open spec fn all_digits(s: Seq<u8>) -> bool {
    forall|i: int| 0 <= i < s.len() ==> is_digit(#[trigger] s[i])
}

/// The number that a run of decimal digits denotes, most significant first.
pub open spec fn digits_value(s: Seq<u8>) -> nat
    decreases s.len(),
{
    if s.len() == 0 {
        0
    } else {
        digits_value(s.drop_last()) * 10 + (s.last() - 48) as nat
    }
}

/// A longer run of digits never denotes a smaller number than its prefix.
pub proof fn lemma_digits_value_prefix(s: Seq<u8>, k: int)
    requires
        0 <= k <= s.len(),
        all_digits(s),
    ensures
        digits_value(s.subrange(0, k)) <= digits_value(s),
    decreases s.len(),
{
    if k < s.len() {
        assert(s.drop_last() =~= s.subrange(0, s.len() - 1));
        lemma_digits_value_prefix(s.drop_last(), k);
        assert(s.drop_last().subrange(0, k) =~= s.subrange(0, k));
    } else {
        assert(s.subrange(0, k) =~= s);
    }
}

/// Ten to the power `n`.
pub open spec fn pow10(n: nat) -> nat
    decreases n,
{
    if n == 0 {
        1
    } else {
        10 * pow10((n - 1) as nat)
    }
}

/// A run of `n` digits denotes a number below `10^n`.
pub proof fn lemma_digits_value_bound(s: Seq<u8>)
    requires
        all_digits(s),
    ensures
        digits_value(s) < pow10(s.len()),
    decreases s.len(),
{
    if s.len() > 0 {
        let p = s.drop_last();
        lemma_digits_value_bound(p);
        let a = digits_value(p);
        let q = pow10(p.len());
        let d = (s.last() - 48) as nat;
        assert(d <= 9);
        assert(a * 10 + d < 10 * q) by (nonlinear_arith)
            requires
                a < q,
                d <= 9,
        ;
    }
}

/// `n` written with exactly `w` digits, zeros in front.
pub open spec fn digits_of(n: nat, w: nat) -> Seq<u8>
    decreases w,
{
    if w == 0 {
        seq![]
    } else {
        digits_of(n / 10, (w - 1) as nat).push((48 + n % 10) as u8)
    }
}

/// Writing a number with enough digits and reading it back gives the number.
pub proof fn lemma_digits_of(n: nat, w: nat)
    requires
        n < pow10(w),
    ensures
        digits_of(n, w).len() == w,
        all_digits(digits_of(n, w)),
        digits_value(digits_of(n, w)) == n,
    decreases w,
{
    if w > 0 {
        let p = pow10((w - 1) as nat);
        assert(n / 10 < p) by (nonlinear_arith)
            requires
                n < 10 * p,
        ;
        lemma_digits_of(n / 10, (w - 1) as nat);
        let s = digits_of(n, w);
        assert(s.drop_last() =~= digits_of(n / 10, (w - 1) as nat));
        assert((n / 10) * 10 + n % 10 == n) by (nonlinear_arith);
    }
}

/// The first position at or after `i` that holds no whitespace (or the end).
pub open spec fn skip_ws(s: Seq<u8>, i: int) -> int
    decreases s.len() - i,
{
    if 0 <= i < s.len() && is_ws(s[i]) {
        skip_ws(s, i + 1)
    } else {
        i
    }
}

/// The end of `s[lo..j]` once whitespace is cut from its end.
pub open spec fn back_ws(s: Seq<u8>, lo: int, j: int) -> int
    decreases j - lo,
{
    if lo < j && is_ws(s[j - 1]) {
        back_ws(s, lo, j - 1)
    } else {
        j
    }
}

/// `s` without whitespace at either end.
pub open spec fn trim(s: Seq<u8>) -> Seq<u8> {
    let a = skip_ws(s, 0);
    s.subrange(a, back_ws(s, a, s.len() as int))
}

/// Whether `b` has no whitespace at either end.
pub open spec fn is_trimmed(b: Seq<u8>) -> bool {
    b.len() > 0 ==> !is_ws(b[0]) && !is_ws(b.last())
}

/// Text with whitespace only around `x[lo..hi]`, which has none at its ends,
/// trims to `x[lo..hi]`.
pub proof fn lemma_trim_core(x: Seq<u8>, lo: int, hi: int)
    requires
        0 <= lo <= hi <= x.len(),
        forall|k: int| 0 <= k < lo ==> is_ws(#[trigger] x[k]),
        forall|k: int| hi <= k < x.len() ==> is_ws(#[trigger] x[k]),
        is_trimmed(x.subrange(lo, hi)),
    ensures
        trim(x) == x.subrange(lo, hi),
{
    lemma_skip_ws_bounds(x, 0);
    let a = skip_ws(x, 0);
    if lo < hi {
        assert(x.subrange(lo, hi)[0] == x[lo]);
        assert(x.subrange(lo, hi).last() == x[hi - 1]);
        if a > lo {
            assert(is_ws(x[lo]));
        }
        if a < lo {
            assert(is_ws(x[a]));
        }
        assert(a == lo);
        lemma_back_ws_bounds(x, a, x.len() as int);
        let b = back_ws(x, a, x.len() as int);
        if b < hi {
            assert(is_ws(x[hi - 1]));
        }
        if b > hi {
            assert(is_ws(x[b - 1]));
        }
    } else {
        if a < x.len() {
            assert(is_ws(x[a]));
        }
        lemma_back_ws_bounds(x, a, x.len() as int);
        assert(x.subrange(a, back_ws(x, a, x.len() as int)) =~= x.subrange(lo, hi));
    }
}

/// The first position at or after `i` where `;;` starts.
pub open spec fn find_delim(s: Seq<u8>, i: int) -> Option<int>
    decreases s.len() - i,
{
    if i < 0 || i + 1 >= s.len() {
        None
    } else if s[i] == 59 && s[i + 1] == 59 {
        Some(i)
    } else {
        find_delim(s, i + 1)
    }
}

/// Whether `;;` occurs in `s`.
pub open spec fn has_delim(s: Seq<u8>) -> bool {
    exists|i: int| 0 <= i < s.len() - 1 && #[trigger] s[i] == 59 && s[i + 1] == 59
}

/// Text decoded from bytes, if they are valid UTF-8.
pub open spec fn decoded(b: Seq<u8>) -> Option<Seq<char>> {
    if valid_utf8(b) {
        Some(decode_utf8(b))
    } else {
        None
    }
}

/// What `skip_ws` skips is whitespace, and it stops at the first byte that is not.
pub proof fn lemma_skip_ws_bounds(s: Seq<u8>, i: int)
    requires
        0 <= i <= s.len(),
    ensures
        i <= skip_ws(s, i) <= s.len(),
        forall|k: int| i <= k < skip_ws(s, i) ==> is_ws(#[trigger] s[k]),
        skip_ws(s, i) < s.len() ==> !is_ws(s[skip_ws(s, i)]),
    decreases s.len() - i,
{
    if i < s.len() && is_ws(s[i]) {
        lemma_skip_ws_bounds(s, i + 1);
    }
}

/// What `back_ws` cuts is whitespace, and it stops after the last byte that is not.
pub proof fn lemma_back_ws_bounds(s: Seq<u8>, lo: int, j: int)
    requires
        0 <= lo <= j <= s.len(),
    ensures
        lo <= back_ws(s, lo, j) <= j,
        forall|k: int| back_ws(s, lo, j) <= k < j ==> is_ws(#[trigger] s[k]),
        back_ws(s, lo, j) > lo ==> !is_ws(s[back_ws(s, lo, j) - 1]),
    decreases j - lo,
{
    if lo < j && is_ws(s[j - 1]) {
        lemma_back_ws_bounds(s, lo, j - 1);
    }
}

/// `find_delim` gives the first `;;`, or there is none.
pub proof fn lemma_find_delim(s: Seq<u8>, i: int)
    requires
        0 <= i,
    ensures
        match find_delim(s, i) {
            Some(j) => i <= j && j + 1 < s.len() && s[j] == 59 && s[j + 1] == 59
                && forall|k: int| i <= k < j ==> !(#[trigger] s[k] == 59 && s[k + 1] == 59),
            None => forall|k: int| i <= k < s.len() - 1 ==> !(#[trigger] s[k] == 59 && s[k + 1] == 59),
        },
    decreases s.len() - i,
{
    if i + 1 < s.len() && !(s[i] == 59 && s[i + 1] == 59) {
        lemma_find_delim(s, i + 1);
    }
}

pub(crate) fn skip_ws_from(s: &[u8], i: usize) -> (r: usize)
    requires
        i <= s@.len(),
    ensures
        r == skip_ws(s@, i as int),
{
    let mut k = i;
    while k < s.len() && (s[k] == 32 || s[k] == 9 || s[k] == 13 || s[k] == 10)
        invariant
            i <= k <= s@.len(),
            skip_ws(s@, k as int) == skip_ws(s@, i as int),
        decreases s@.len() - k,
    {
        k = k + 1;
    }
    k
}

fn back_ws_from(s: &[u8], lo: usize, j: usize) -> (r: usize)
    requires
        lo <= j <= s@.len(),
    ensures
        r == back_ws(s@, lo as int, j as int),
{
    let mut k = j;
    while lo < k && (s[k - 1] == 32 || s[k - 1] == 9 || s[k - 1] == 13 || s[k - 1] == 10)
        invariant
            lo <= k <= j,
            j <= s@.len(),
            back_ws(s@, lo as int, k as int) == back_ws(s@, lo as int, j as int),
        decreases k,
    {
        k = k - 1;
    }
    k
}

/// The bytes of `s` without whitespace at either end.
pub fn trim_bytes(s: &[u8]) -> (r: Vec<u8>)
    ensures
        r@ == trim(s@),
{
    let a = skip_ws_from(s, 0);
    proof {
        lemma_skip_ws_bounds(s@, 0);
    }
    let b = back_ws_from(s, a, s.len());
    proof {
        lemma_back_ws_bounds(s@, a as int, s@.len() as int);
    }
    slice_to_vec(slice_subrange(s, a, b))
}

/// The first position at or after `i` where `;;` starts.
pub fn find_delim_from(s: &[u8], i: usize) -> (r: Option<usize>)
    ensures
        match r {
            Some(j) => find_delim(s@, i as int) == Some(j as int),
            None => find_delim(s@, i as int) is None,
        },
{
    let mut k = i;
    while k < s.len() && k + 1 < s.len()
        invariant
            i <= k,
            find_delim(s@, k as int) == find_delim(s@, i as int),
        decreases s@.len() - k,
    {
        if s[k] == 59 && s[k + 1] == 59 {
            return Some(k);
        }
        k = k + 1;
    }
    None
}

/// Relies on `String::from_utf8`: it succeeds exactly on valid UTF-8, and the
/// string it returns holds the given bytes unchanged.
#[verifier::external_body]
fn utf8_string(b: Vec<u8>) -> (r: Option<String>)
    ensures
        r is Some <==> valid_utf8(b@),
        r matches Some(s) ==> encode_utf8(s@) == b@,
{
    String::from_utf8(b).ok()
}

/// Decodes bytes as UTF-8 text.
pub fn decode_text(b: Vec<u8>) -> (r: Option<String>)
    ensures
        match r {
            Some(s) => decoded(b@) == Some(s@),
            None => decoded(b@) is None,
        },
{
    let r = utf8_string(b);
    proof {
        if r is Some {
            encode_utf8_decode_utf8(r->Some_0@);
        }
    }
    r
}

} // verus!
