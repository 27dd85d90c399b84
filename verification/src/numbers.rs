//! Integer reading and writing on ASCII bytes: the lenient readers of the
//! hand-rolled HTTP parser, the strict decimal syntax of `str::parse`, and
//! decimal rendering.
use vstd::prelude::*;
use vstd::arithmetic::div_mod::lemma_fundamental_div_mod;
use vstd::arithmetic::div_mod::lemma_mod_multiples_vanish;
use vstd::arithmetic::div_mod::lemma_mod_bound;

use crate::bytes::spec_trim;
use crate::bytes::trim;

verus! {

// ── digits ──────────────────────────────────────────────────────────────────

/// An ASCII decimal digit.
pub open spec fn is_digit(c: u8) -> bool {
    48 <= c <= 57
}

/// An ASCII hexadecimal digit, either case.
pub open spec fn is_hex_digit(c: u8) -> bool {
    (48 <= c <= 57) || (97 <= c <= 102) || (65 <= c <= 70)
}

pub open spec fn digit_val(c: u8) -> nat {
    (c - 48) as nat
}

pub open spec fn hex_digit_val(c: u8) -> nat {
    if 48 <= c <= 57 {
        (c - 48) as nat
    } else if 97 <= c <= 102 {
        (c - 87) as nat
    } else {
        (c - 55) as nat
    }
}

pub open spec fn all_digits(s: Seq<u8>) -> bool {
    forall|i: int| 0 <= i < s.len() ==> is_digit(#[trigger] s[i])
}

pub open spec fn all_hex_digits(s: Seq<u8>) -> bool {
    forall|i: int| 0 <= i < s.len() ==> is_hex_digit(#[trigger] s[i])
}

/// The number that the decimal digits `s` denote (most significant first).
pub open spec fn digits_value(s: Seq<u8>) -> nat
    decreases s.len(),
{
    if s.len() == 0 {
        0
    } else {
        digits_value(s.drop_last()) * 10 + digit_val(s.last())
    }
}

/// The number that the hexadecimal digits `s` denote (most significant first).
pub open spec fn hex_value(s: Seq<u8>) -> nat
    decreases s.len(),
{
    if s.len() == 0 {
        0
    } else {
        hex_value(s.drop_last()) * 16 + hex_digit_val(s.last())
    }
}

/// The longest prefix of `s` made of decimal digits.
pub open spec fn digit_prefix(s: Seq<u8>) -> Seq<u8>
    decreases s.len(),
{
    if s.len() > 0 && is_digit(s[0]) {
        seq![s[0]] + digit_prefix(s.drop_first())
    } else {
        Seq::<u8>::empty()
    }
}

/// The longest prefix of `s` made of hexadecimal digits.
pub open spec fn hex_prefix(s: Seq<u8>) -> Seq<u8>
    decreases s.len(),
{
    if s.len() > 0 && is_hex_digit(s[0]) {
        seq![s[0]] + hex_prefix(s.drop_first())
    } else {
        Seq::<u8>::empty()
    }
}

proof fn lemma_digit_prefix(s: Seq<u8>, i: int)
    requires
        0 <= i <= s.len(),
        forall|j: int| 0 <= j < i ==> is_digit(#[trigger] s[j]),
        i == s.len() || !is_digit(s[i]),
    ensures
        digit_prefix(s) == s.take(i),
    decreases i,
{
    if i == 0 {
        assert(s.take(0) =~= Seq::<u8>::empty());
    } else {
        assert(is_digit(s[0]));
        let t = s.drop_first();
        assert forall|j: int| 0 <= j < i - 1 implies is_digit(#[trigger] t[j]) by {
            assert(is_digit(s[j + 1]));
        }
        lemma_digit_prefix(t, i - 1);
        assert(seq![s[0]] + t.take(i - 1) =~= s.take(i));
    }
}

pub(crate) proof fn lemma_hex_prefix(s: Seq<u8>, i: int)
    requires
        0 <= i <= s.len(),
        forall|j: int| 0 <= j < i ==> is_hex_digit(#[trigger] s[j]),
        i == s.len() || !is_hex_digit(s[i]),
    ensures
        hex_prefix(s) == s.take(i),
    decreases i,
{
    if i == 0 {
        assert(s.take(0) =~= Seq::<u8>::empty());
    } else {
        assert(is_hex_digit(s[0]));
        let t = s.drop_first();
        assert forall|j: int| 0 <= j < i - 1 implies is_hex_digit(#[trigger] t[j]) by {
            assert(is_hex_digit(s[j + 1]));
        }
        lemma_hex_prefix(t, i - 1);
        assert(seq![s[0]] + t.take(i - 1) =~= s.take(i));
    }
}

proof fn lemma_digits_value_step(s: Seq<u8>, i: int)
    requires
        0 <= i < s.len(),
    ensures
        digits_value(s.take(i + 1)) == digits_value(s.take(i)) * 10 + digit_val(s[i]),
{
    assert(s.take(i + 1).drop_last() =~= s.take(i));
}

proof fn lemma_hex_value_step(s: Seq<u8>, i: int)
    requires
        0 <= i < s.len(),
    ensures
        hex_value(s.take(i + 1)) == hex_value(s.take(i)) * 16 + hex_digit_val(s[i]),
{
    assert(s.take(i + 1).drop_last() =~= s.take(i));
}

/// A prefix of a digit string never denotes more than the whole string.
proof fn lemma_digits_value_mono(s: Seq<u8>, i: int)
    requires
        0 <= i <= s.len(),
    ensures
        digits_value(s.take(i)) <= digits_value(s),
    decreases s.len() - i,
{
    if i < s.len() {
        lemma_digits_value_step(s, i);
        lemma_digits_value_mono(s, i + 1);
        assert(digits_value(s.take(i)) <= digits_value(s.take(i)) * 10) by (nonlinear_arith);
    } else {
        assert(s.take(i) =~= s);
    }
}

proof fn lemma_hex_value_mono(s: Seq<u8>, i: int)
    requires
        0 <= i <= s.len(),
    ensures
        hex_value(s.take(i)) <= hex_value(s),
    decreases s.len() - i,
{
    if i < s.len() {
        lemma_hex_value_step(s, i);
        lemma_hex_value_mono(s, i + 1);
        assert(hex_value(s.take(i)) <= hex_value(s.take(i)) * 16) by (nonlinear_arith);
    } else {
        assert(s.take(i) =~= s);
    }
}

// ── two's-complement wrapping ───────────────────────────────────────────────

pub open spec fn modulus64() -> int {
    0x1_0000_0000_0000_0000
}

/// `x` reduced to the `i64` range the way wrapping arithmetic reduces it.
pub open spec fn wrap_i64(x: int) -> int {
    let r = x % modulus64();
    if r > i64::MAX {
        r - modulus64()
    } else {
        r
    }
}

pub proof fn lemma_wrap_range(x: int)
    ensures
        i64::MIN <= wrap_i64(x) <= i64::MAX,
{
    lemma_mod_bound(x, modulus64());
}

/// Values of the `i64` range are left as they are.
pub proof fn lemma_wrap_id(x: int)
    requires
        i64::MIN <= x <= i64::MAX,
    ensures
        wrap_i64(x) == x,
{
    lemma_fundamental_div_mod(x, modulus64());
    lemma_mod_bound(x, modulus64());
    if x >= 0 {
        assert(x / modulus64() == 0) by (nonlinear_arith)
            requires
                0 <= x < modulus64(),
                x == modulus64() * (x / modulus64()) + x % modulus64(),
                0 <= x % modulus64() < modulus64(),
        ;
    } else {
        assert(x / modulus64() == -1) by (nonlinear_arith)
            requires
                -modulus64() <= x < 0,
                x == modulus64() * (x / modulus64()) + x % modulus64(),
                0 <= x % modulus64() < modulus64(),
        ;
    }
}

/// Adding a multiple of 2^64 does not change the wrapped value.
pub proof fn lemma_wrap_shift(x: int, k: int)
    ensures
        wrap_i64(x + k * modulus64()) == wrap_i64(x),
{
    lemma_mod_multiples_vanish(k, x, modulus64());
    assert(modulus64() * k + x == x + k * modulus64()) by (nonlinear_arith);
}

/// The wrapped value differs from `x` by a multiple of 2^64.
pub proof fn lemma_wrap_diff(x: int) -> (k: int)
    ensures
        wrap_i64(x) == x + k * modulus64(),
{
    lemma_fundamental_div_mod(x, modulus64());
    let q = x / modulus64();
    assert(modulus64() * q == q * modulus64()) by (nonlinear_arith);
    if x % modulus64() > i64::MAX {
        -q - 1
    } else {
        -q
    }
}

pub proof fn lemma_wrap_mul_add(x: int, m: int, d: int)
    ensures
        wrap_i64(wrap_i64(x) * m + d) == wrap_i64(x * m + d),
{
    let k = lemma_wrap_diff(x);
    assert((x + k * modulus64()) * m + d == (x * m + d) + (k * m) * modulus64())
        by (nonlinear_arith);
    lemma_wrap_shift(x * m + d, k * m);
}

pub proof fn lemma_wrap_add(x: int, y: int)
    ensures
        wrap_i64(wrap_i64(x) + wrap_i64(y)) == wrap_i64(x + y),
{
    let k1 = lemma_wrap_diff(x);
    let k2 = lemma_wrap_diff(y);
    assert((x + k1 * modulus64()) + (y + k2 * modulus64()) == (x + y) + (k1 + k2) * modulus64())
        by (nonlinear_arith);
    lemma_wrap_shift(x + y, k1 + k2);
}

pub proof fn lemma_wrap_neg(x: int)
    ensures
        wrap_i64(-wrap_i64(x)) == wrap_i64(-x),
{
    let k = lemma_wrap_diff(x);
    assert(-(x + k * modulus64()) == -x + (-k) * modulus64()) by (nonlinear_arith);
    lemma_wrap_shift(-x, -k);
}

/// `i64::wrapping_add` as an operation on integers.
pub proof fn lemma_wrapping_add_is_wrap(a: i64, b: i64)
    ensures
        a.wrapping_add(b) as int == wrap_i64(a + b),
{
    let s = a + b;
    if s > i64::MAX {
        lemma_wrap_id(s - modulus64());
        lemma_wrap_shift(s - modulus64(), 1);
    } else if s < i64::MIN {
        lemma_wrap_id(s + modulus64());
        lemma_wrap_shift(s + modulus64(), -1);
    } else {
        lemma_wrap_id(s);
    }
}

/// `i64::wrapping_sub` as an operation on integers.
pub proof fn lemma_wrapping_sub_is_wrap(a: i64, b: i64)
    ensures
        a.wrapping_sub(b) as int == wrap_i64(a - b),
{
    let s = a - b;
    if s > i64::MAX {
        lemma_wrap_id(s - modulus64());
        lemma_wrap_shift(s - modulus64(), 1);
    } else if s < i64::MIN {
        lemma_wrap_id(s + modulus64());
        lemma_wrap_shift(s + modulus64(), -1);
    } else {
        lemma_wrap_id(s);
    }
}

/// `i64::wrapping_mul` as an operation on integers.
pub proof fn lemma_wrapping_mul_is_wrap(a: i64, b: i64)
    ensures
        a.wrapping_mul(b) as int == wrap_i64(a * b),
{
    lemma_mod_bound(a * b, modulus64());
}

// ── lenient readers of the HTTP parser ──────────────────────────────────────

/// The integer that `parse_i64` reads from `b`: after trimming blanks, an
/// optional `-` and then the longest run of decimal digits (an empty run
/// reads as 0); whatever follows the run is ignored.
pub open spec fn spec_lenient_int(b: Seq<u8>) -> int {
    let t = spec_trim(b);
    if t.len() > 0 && t[0] == 45 {
        -digits_value(digit_prefix(t.drop_first()))
    } else {
        digits_value(digit_prefix(t)) as int
    }
}

/// Reads a possibly negative decimal integer leniently; see
/// `spec_lenient_int`. Arithmetic wraps at the `i64` bounds.
pub fn parse_i64(b: &[u8]) -> (r: i64)
    ensures
        r as int == wrap_i64(spec_lenient_int(b@)),
{
    let t = trim(b);
    let neg = t.len() > 0 && t[0] == 45u8;
    let start: usize = if neg { 1 } else { 0 };
    let ghost rest = t@.subrange(start as int, t@.len() as int);
    let mut n: i64 = 0;
    let mut i: usize = start;
    proof {
        assert(rest.take(0) =~= Seq::<u8>::empty());
        lemma_wrap_id(0);
    }
    while i < t.len() && 48u8 <= t[i] && t[i] <= 57u8
        invariant
            start <= i <= t@.len(),
            rest == t@.subrange(start as int, t@.len() as int),
            forall|j: int| 0 <= j < i - start ==> is_digit(#[trigger] rest[j]),
            n as int == wrap_i64(digits_value(rest.take(i - start)) as int),
        decreases t@.len() - i,
    {
        let d = (t[i] - 48u8) as i64;
        proof {
            assert(rest[i - start] == t@[i as int]);
            lemma_digits_value_step(rest, i - start);
            lemma_wrapping_mul_is_wrap(n, 10);
            lemma_wrapping_add_is_wrap(n.wrapping_mul(10), d);
            lemma_wrap_id(d as int);
            lemma_wrap_mul_add(digits_value(rest.take(i - start)) as int, 10, d as int);
            lemma_wrap_add(wrap_i64(digits_value(rest.take(i - start)) as int) * 10, d as int);
            lemma_wrap_mul_add(digits_value(rest.take(i - start)) as int, 10, 0);
        }
        n = n.wrapping_mul(10).wrapping_add(d);
        i = i + 1;
    }
    proof {
        if i < t@.len() {
            assert(rest[i - start] == t@[i as int]);
        }
        lemma_digit_prefix(rest, i - start);
        if neg {
            assert(rest =~= t@.drop_first());
        } else {
            assert(rest =~= t@);
        }
    }
    if neg {
        proof {
            lemma_wrapping_sub_is_wrap(0, n);
            lemma_wrap_neg(digits_value(rest.take(i - start)) as int);
        }
        0i64.wrapping_sub(n)
    } else {
        n
    }
}

/// The value `parse_usize` gives `b`: after trimming blanks, a non-empty
/// run of decimal digits and nothing else, denoting at most `usize::MAX`.
pub open spec fn spec_parse_usize(b: Seq<u8>) -> Option<nat> {
    let t = spec_trim(b);
    if t.len() == 0 || !all_digits(t) || digits_value(t) > usize::MAX {
        None
    } else {
        Some(digits_value(t))
    }
}

/// Reads an unsigned decimal integer with blanks around it; `None` when
/// anything else is there or the value does not fit in `usize`.
pub fn parse_usize(b: &[u8]) -> (r: Option<usize>)
    ensures
        r is Some <==> spec_parse_usize(b@) is Some,
        r matches Some(v) ==> spec_parse_usize(b@) == Some(v as nat),
{
    let t = trim(b);
    if t.len() == 0 {
        return None;
    }
    let mut k: usize = 0;
    while k < t.len()
        invariant
            k <= t@.len(),
            t@ == spec_trim(b@),
            forall|j: int| 0 <= j < k ==> is_digit(#[trigger] t@[j]),
        decreases t@.len() - k,
    {
        if !(48u8 <= t[k] && t[k] <= 57u8) {
            assert(!is_digit(t@[k as int]));
            return None;
        }
        k = k + 1;
    }
    let mut n: usize = 0;
    let mut i: usize = 0;
    assert(t@.take(0) =~= Seq::<u8>::empty());
    while i < t.len()
        invariant
            i <= t@.len(),
            t@ == spec_trim(b@),
            t@.len() > 0,
            all_digits(t@),
            n as nat == digits_value(t@.take(i as int)),
        decreases t@.len() - i,
    {
        proof {
            lemma_digits_value_step(t@, i as int);
            lemma_digits_value_mono(t@, i + 1);
        }
        let d = (t[i] - 48u8) as usize;
        match n.checked_mul(10) {
            Some(m) => match m.checked_add(d) {
                Some(v) => {
                    n = v;
                }
                None => {
                    return None;
                }
            },
            None => {
                return None;
            }
        }
        i = i + 1;
    }
    assert(t@.take(t@.len() as int) =~= t@);
    Some(n)
}

/// The chunk size `parse_hex` reads from `b`: the longest leading run of
/// hexadecimal digits, which must be non-empty and denote at most
/// `usize::MAX`; whatever follows the run is ignored.
pub open spec fn spec_parse_hex(b: Seq<u8>) -> Option<nat> {
    let p = hex_prefix(b);
    if p.len() == 0 || hex_value(p) > usize::MAX {
        None
    } else {
        Some(hex_value(p))
    }
}

fn hex_digit(c: u8) -> (r: Option<u8>)
    ensures
        r is Some <==> is_hex_digit(c),
        r matches Some(d) ==> d as nat == hex_digit_val(c) && d < 16,
{
    if 48u8 <= c && c <= 57u8 {
        Some(c - 48u8)
    } else if 97u8 <= c && c <= 102u8 {
        Some(c - 87u8)
    } else if 65u8 <= c && c <= 70u8 {
        Some(c - 55u8)
    } else {
        None
    }
}

/// Reads a chunk-size line: hexadecimal digits, possibly followed by a
/// chunk extension or anything else.
pub fn parse_hex(b: &[u8]) -> (r: Option<usize>)
    ensures
        r is Some <==> spec_parse_hex(b@) is Some,
        r matches Some(v) ==> spec_parse_hex(b@) == Some(v as nat),
{
    let mut n: usize = 0;
    let mut i: usize = 0;
    assert(b@.take(0) =~= Seq::<u8>::empty());
    while i < b.len()
        invariant
            i <= b@.len(),
            forall|j: int| 0 <= j < i ==> is_hex_digit(#[trigger] b@[j]),
            n as nat == hex_value(b@.take(i as int)),
        decreases b@.len() - i,
    {
        let c = b[i];
        match hex_digit(c) {
            Some(d) => {
                proof {
                    lemma_hex_value_step(b@, i as int);
                    lemma_hex_prefix_mono_bound(b@, i as int);
                }
                match n.checked_mul(16) {
                    Some(m) => match m.checked_add(d as usize) {
                        Some(v) => {
                            n = v;
                        }
                        None => {
                            return None;
                        }
                    },
                    None => {
                        return None;
                    }
                }
            },
            None => {
                proof {
                    lemma_hex_prefix(b@, i as int);
                }
                if i > 0 {
                    return Some(n);
                } else {
                    return None;
                }
            },
        }
        i = i + 1;
    }
    proof {
        lemma_hex_prefix(b@, i as int);
        assert(b@.take(i as int) =~= b@);
    }
    if i > 0 {
        Some(n)
    } else {
        None
    }
}

/// The end of the run of hex digits that already covers `b[..k]`.
proof fn hex_run_end(b: Seq<u8>, k: int) -> (e: int)
    requires
        0 <= k <= b.len(),
        forall|j: int| 0 <= j < k ==> is_hex_digit(#[trigger] b[j]),
    ensures
        k <= e <= b.len(),
        forall|j: int| 0 <= j < e ==> is_hex_digit(#[trigger] b[j]),
        e == b.len() || !is_hex_digit(b[e]),
    decreases b.len() - k,
{
    if k < b.len() && is_hex_digit(b[k]) {
        hex_run_end(b, k + 1)
    } else {
        k
    }
}

/// While the first `i + 1` bytes are hex digits, the hex prefix of `b`
/// denotes at least what they do.
proof fn lemma_hex_prefix_mono_bound(b: Seq<u8>, i: int)
    requires
        0 <= i < b.len(),
        forall|j: int| 0 <= j <= i ==> is_hex_digit(#[trigger] b[j]),
    ensures
        hex_value(b.take(i + 1)) <= hex_value(hex_prefix(b)),
        hex_prefix(b).len() > 0,
{
    let k = hex_run_end(b, i + 1);
    lemma_hex_prefix(b, k);
    let p = b.take(k);
    lemma_hex_value_mono(p, i + 1);
    assert(p.take(i + 1) =~= b.take(i + 1));
}

// ── the decimal syntax of `str::parse` ──────────────────────────────────────

/// The integer that `str::parse` reads from the bytes `s`, before its range
/// is checked: an optional `+` (or, when `signed`, `-`) followed by at least
/// one decimal digit and nothing else.
pub open spec fn spec_std_int(s: Seq<u8>, signed: bool) -> Option<int> {
    if s.len() == 0 {
        None
    } else {
        let neg = signed && s[0] == 45;
        let d = if s[0] == 43 || neg {
            s.drop_first()
        } else {
            s
        };
        if d.len() == 0 || !all_digits(d) {
            None
        } else if neg {
            Some(-digits_value(d))
        } else {
            Some(digits_value(d) as int)
        }
    }
}

/// What `str::parse` gives for an integer type with range `min..=max`.
pub open spec fn spec_std_parse(s: Seq<u8>, signed: bool, min: int, max: int) -> Option<int> {
    match spec_std_int(s, signed) {
        Some(v) => if min <= v <= max {
            Some(v)
        } else {
            None
        },
        None => None,
    }
}

/// Sign and magnitude of a strictly formed decimal integer; `None` when the
/// syntax is wrong or the magnitude exceeds `u64::MAX`.
fn std_magnitude(s: &[u8], signed: bool) -> (r: Option<(bool, u64)>)
    ensures
        r matches Some((neg, m)) ==> spec_std_int(s@, signed) == Some(
            if neg {
                -(m as int)
            } else {
                m as int
            },
        ) && (neg ==> signed),
        r is None ==> spec_std_int(s@, signed) is None || spec_std_int(s@, signed)->0 > u64::MAX
            || spec_std_int(s@, signed)->0 < -(u64::MAX as int),
{
    if s.len() == 0 {
        return None;
    }
    let neg = signed && s[0] == 45u8;
    let start: usize = if s[0] == 43u8 || neg { 1 } else { 0 };
    let ghost d = if s@[0] == 43 || neg { s@.drop_first() } else { s@ };
    assert(d =~= s@.subrange(start as int, s@.len() as int));
    if start == s.len() {
        return None;
    }
    let mut n: u64 = 0;
    let mut i: usize = start;
    assert(d.take(0) =~= Seq::<u8>::empty());
    while i < s.len()
        invariant
            start <= i <= s@.len(),
            start < s@.len(),
            neg == (signed && s@[0] == 45),
            start == (if s@[0] == 43 || neg { 1int } else { 0int }),
            d == (if s@[0] == 43 || neg { s@.drop_first() } else { s@ }),
            d == s@.subrange(start as int, s@.len() as int),
            forall|j: int| 0 <= j < i - start ==> is_digit(#[trigger] d[j]),
            n as nat == digits_value(d.take(i - start)),
        decreases s@.len() - i,
    {
        let c = s[i];
        assert(d[i - start] == c);
        if !(48u8 <= c && c <= 57u8) {
            assert(!all_digits(d));
            return None;
        }
        proof {
            lemma_digits_value_step(d, i - start);
        }
        let dv = (c - 48u8) as u64;
        match n.checked_mul(10) {
            Some(m) => match m.checked_add(dv) {
                Some(v) => {
                    n = v;
                }
                None => {
                    proof {
                        lemma_digits_value_mono(d, i - start + 1);
                    }
                    return None;
                }
            },
            None => {
                proof {
                    lemma_digits_value_mono(d, i - start + 1);
                }
                return None;
            }
        }
        i = i + 1;
    }
    assert(d.take(d.len() as int) =~= d);
    Some((neg, n))
}

/// `str::parse::<i64>` on the bytes of a string.
pub fn parse_std_i64(s: &[u8]) -> (r: Option<i64>)
    ensures
        r is Some <==> spec_std_parse(s@, true, i64::MIN as int, i64::MAX as int) is Some,
        r matches Some(v) ==> spec_std_parse(s@, true, i64::MIN as int, i64::MAX as int) == Some(
            v as int,
        ),
{
    match std_magnitude(s, true) {
        Some((neg, m)) => {
            if neg {
                if m <= 9223372036854775807u64 {
                    Some(-(m as i64))
                } else if m == 9223372036854775808u64 {
                    Some(i64::MIN)
                } else {
                    None
                }
            } else if m <= 9223372036854775807u64 {
                Some(m as i64)
            } else {
                None
            }
        },
        None => None,
    }
}

/// `str::parse::<i32>` on the bytes of a string.
pub fn parse_std_i32(s: &[u8]) -> (r: Option<i32>)
    ensures
        r is Some <==> spec_std_parse(s@, true, i32::MIN as int, i32::MAX as int) is Some,
        r matches Some(v) ==> spec_std_parse(s@, true, i32::MIN as int, i32::MAX as int) == Some(
            v as int,
        ),
{
    match std_magnitude(s, true) {
        Some((neg, m)) => {
            if neg {
                if m <= 2147483648u64 {
                    Some((-(m as i64)) as i32)
                } else {
                    None
                }
            } else if m <= 2147483647u64 {
                Some(m as i32)
            } else {
                None
            }
        },
        None => None,
    }
}

/// `str::parse::<usize>` on the bytes of a string.
pub fn parse_std_usize(s: &[u8]) -> (r: Option<usize>)
    ensures
        r is Some <==> spec_std_parse(s@, false, 0, usize::MAX as int) is Some,
        r matches Some(v) ==> spec_std_parse(s@, false, 0, usize::MAX as int) == Some(v as int),
{
    match std_magnitude(s, false) {
        Some((_neg, m)) => {
            if m as u128 <= usize::MAX as u128 {
                Some(m as usize)
            } else {
                None
            }
        },
        None => None,
    }
}

/// `str::parse::<u16>` on the bytes of a string.
pub fn parse_std_u16(s: &[u8]) -> (r: Option<u16>)
    ensures
        r is Some <==> spec_std_parse(s@, false, 0, u16::MAX as int) is Some,
        r matches Some(v) ==> spec_std_parse(s@, false, 0, u16::MAX as int) == Some(v as int),
{
    match std_magnitude(s, false) {
        Some((_neg, m)) => {
            if m <= 65535u64 {
                Some(m as u16)
            } else {
                None
            }
        },
        None => None,
    }
}

// ── decimal rendering ───────────────────────────────────────────────────────

/// The decimal digits of `n`, without leading zeros (`0` for zero).
pub open spec fn spec_digits(n: nat) -> Seq<u8>
    decreases n,
{
    if n < 10 {
        seq![(48 + n) as u8]
    } else {
        spec_digits(n / 10).push((48 + n % 10) as u8)
    }
}

/// The decimal rendering of `v`, with a leading `-` when negative.
pub open spec fn spec_decimal(v: int) -> Seq<u8> {
    if v < 0 {
        seq![45u8] + spec_digits((-v) as nat)
    } else {
        spec_digits(v as nat)
    }
}

/// Appends the decimal digits of `n`.
pub fn push_digits(out: &mut Vec<u8>, n: u64)
    ensures
        final(out)@ == old(out)@ + spec_digits(n as nat),
    decreases n,
{
    if n >= 10 {
        push_digits(out, n / 10);
    }
    let ghost before = out@;
    out.push(48u8 + (n % 10) as u8);
    proof {
        if n >= 10 {
            assert(out@ =~= old(out)@ + spec_digits(n as nat));
        } else {
            assert(out@ =~= old(out)@ + spec_digits(n as nat));
        }
    }
}

/// Appends the decimal rendering of `v`, as `v.to_string()` writes it.
pub fn push_decimal(out: &mut Vec<u8>, v: i64)
    ensures
        final(out)@ == old(out)@ + spec_decimal(v as int),
{
    if v < 0 {
        out.push(45u8);
        let m: u64 = if v == i64::MIN {
            9223372036854775808u64
        } else {
            (-v) as u64
        };
        let ghost mid = out@;
        push_digits(out, m);
        assert(out@ =~= old(out)@ + spec_decimal(v as int));
    } else {
        push_digits(out, v as u64);
    }
}

/// The decimal rendering of `v` as a fresh byte vector.
pub fn decimal(v: i64) -> (r: Vec<u8>)
    ensures
        r@ == spec_decimal(v as int),
{
    let mut r: Vec<u8> = Vec::new();
    push_decimal(&mut r, v);
    assert(r@ =~= spec_decimal(v as int));
    r
}

pub(crate) proof fn lemma_digits_read_back(n: nat)
    ensures
        spec_digits(n).len() > 0,
        all_digits(spec_digits(n)),
        digits_value(spec_digits(n)) == n,
    decreases n,
{
    if n >= 10 {
        lemma_digits_read_back(n / 10);
        let s = spec_digits(n);
        assert(s.drop_last() =~= spec_digits(n / 10));
        assert(n == (n / 10) * 10 + n % 10) by (nonlinear_arith);
        assert(s.last() == (48 + n % 10) as u8);
        assert(digit_val(s.last()) == n % 10);
        assert(digits_value(s) == digits_value(s.drop_last()) * 10 + digit_val(s.last()));
        assert forall|i: int| 0 <= i < s.len() implies is_digit(#[trigger] s[i]) by {
            if i < s.len() - 1 {
                assert(s[i] == spec_digits(n / 10)[i]);
            }
        }
    } else {
        let s = spec_digits(n);
        assert(s.drop_last() =~= Seq::<u8>::empty());
        assert(digit_val(s.last()) == n);
        assert(digits_value(s) == digits_value(s.drop_last()) * 10 + digit_val(s.last()));
    }
}

/// What `to_string` writes, `str::parse` reads back: the decimal rendering
/// of an `i64` parses to the same `i64`.
pub proof fn law_decimal_parses_back(v: int)
    requires
        i64::MIN <= v <= i64::MAX,
    ensures
        spec_std_parse(spec_decimal(v), true, i64::MIN as int, i64::MAX as int) == Some(v),
{
    if v < 0 {
        lemma_digits_read_back((-v) as nat);
        let s = spec_decimal(v);
        assert(s.drop_first() =~= spec_digits((-v) as nat));
    } else {
        lemma_digits_read_back(v as nat);
        let s = spec_decimal(v);
        assert(is_digit(s[0]));
    }
}

} // verus!
