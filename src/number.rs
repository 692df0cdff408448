//! Numbers in fields. Integers are 64-bit signed. Numbers in the decimal
//! domain (digits with a point, and an optional exponent after `e` or `E`)
//! are kept exactly as `m * 10^e`, so they compare and multiply without
//! binary rounding. No exact model can follow double-precision floating
//! point everywhere; these inputs still differ from it:
//! - binary rounding: `~k:0.29*100` gives 29 here, where the product of two
//!   doubles truncates to 28; and two decimals that differ only beyond a
//!   double's precision compare unequal here;
//! - `inf`, `infinity` and `nan` do not read as numbers here;
//! - digits that read as `MANTISSA_LIMIT` or more, more than `MAX_PLACES`
//!   digits after the point, or an exponent beyond `MAX_EXPONENT` in
//!   magnitude, do not read as numbers here.

use vstd::prelude::*;

use crate::text::{equals, find_char, find_where, lemma_first_unique, lemma_none_found, position, slice};

verus! {

/// Largest magnitude, exclusive, of the digits of a decimal number.
pub const MANTISSA_LIMIT: u64 = 1_000_000_000_000_000_000;

/// Most digits a decimal number may have after its point.
pub const MAX_PLACES: u32 = 18;

/// `c` is an ASCII decimal digit.
pub open spec fn is_digit(c: char) -> bool {
    48 <= (c as u32) <= 57
}

/// The value of the decimal digit `c`.
pub open spec fn digit_of(c: char) -> int {
    (c as u32) - 48
}

/// Every character of `s` is a decimal digit.
pub open spec fn all_digits(s: Seq<char>) -> bool {
    forall|i: int| 0 <= i < s.len() ==> is_digit(#[trigger] s[i])
}

/// `acc` followed by the decimal digits `s`.
pub open spec fn fold_digits(acc: int, s: Seq<char>) -> int
    decreases s.len(),
{
    if s.len() == 0 {
        acc
    } else {
        fold_digits(acc, s.drop_last()) * 10 + digit_of(s.last())
    }
}

/// The number that the decimal digits `s` write.
pub open spec fn digits_value(s: Seq<char>) -> int {
    fold_digits(0, s)
}

/// Ten to the power `k`.
pub open spec fn pow10(k: nat) -> int
    decreases k,
{
    if k == 0 {
        1
    } else {
        10 * pow10((k - 1) as nat)
    }
}

/// A leading sign split off: whether it was `-`, and the rest.
pub open spec fn split_sign(s: Seq<char>) -> (bool, Seq<char>) {
    if s.len() > 0 && s[0] == '-' {
        (true, s.drop_first())
    } else if s.len() > 0 && s[0] == '+' {
        (false, s.drop_first())
    } else {
        (false, s)
    }
}

/// `s` read as a 64-bit signed integer: an optional sign, then one or more
/// decimal digits, with a value in range.
pub open spec fn int_value(s: Seq<char>) -> Option<int> {
    let (neg, d) = split_sign(s);
    let v = if neg {
        -digits_value(d)
    } else {
        digits_value(d)
    };
    if d.len() > 0 && all_digits(d) && i64::MIN <= v <= i64::MAX {
        Some(v)
    } else {
        None
    }
}

/// The digits before and after the point of an unsigned decimal number.
pub open spec fn split_point(d: Seq<char>) -> (Seq<char>, Seq<char>) {
    match find_char(d, '.') {
        Some(p) => (d.subrange(0, p), d.subrange(p + 1, d.len() as int)),
        None => (d, seq![]),
    }
}

/// Largest magnitude of the exponent written after `e` or `E`.
pub const MAX_EXPONENT: u64 = 9999;

/// The letters that start an exponent.
pub open spec fn exponent_mark() -> spec_fn(char) -> bool {
    |c: char| c == 'e' || c == 'E'
}

/// An unsigned number split at its first `e` or `E` into the part before and
/// the exponent after it, if there is one.
pub open spec fn split_exponent(d: Seq<char>) -> (Seq<char>, Option<Seq<char>>) {
    match find_where(d, exponent_mark()) {
        Some(p) => (d.subrange(0, p), Some(d.subrange(p + 1, d.len() as int))),
        None => (d, None),
    }
}

/// An exponent: an optional sign, then one or more digits, of magnitude at
/// most `MAX_EXPONENT`.
pub open spec fn exponent_value(x: Seq<char>) -> Option<int> {
    let (neg, d) = split_sign(x);
    let v = digits_value(d);
    if d.len() > 0 && all_digits(d) && v <= MAX_EXPONENT {
        Some(
            if neg {
                -v
            } else {
                v
            },
        )
    } else {
        None
    }
}

/// Unsigned digits with an optional point, read as `m / 10^k`, given as
/// `(m, k)`: at least one digit in all, `m` below `MANTISSA_LIMIT` and at most
/// `MAX_PLACES` digits after the point.
pub open spec fn mantissa_value(b: Seq<char>) -> Option<(int, nat)> {
    let (ip, fp) = split_point(b);
    let m = digits_value(ip + fp);
    if ip.len() + fp.len() > 0 && all_digits(ip) && all_digits(fp) && m < MANTISSA_LIMIT
        && fp.len() <= MAX_PLACES {
        Some((m, fp.len()))
    } else {
        None
    }
}

/// `s` read as a decimal number `m * 10^e`, given as `(m, e)`: an optional
/// sign, digits with an optional point as `mantissa_value` reads them, and an
/// optional exponent (`e` or `E`, then what `exponent_value` reads). The value
/// is kept exactly.
pub open spec fn decimal_value(s: Seq<char>) -> Option<(int, int)> {
    let (neg, d) = split_sign(s);
    let (body, ex) = split_exponent(d);
    let x = match ex {
        Some(t) => exponent_value(t),
        None => Some(0int),
    };
    match (mantissa_value(body), x) {
        (Some((m, k)), Some(x)) => Some(
            (
                if neg {
                    -m
                } else {
                    m
                },
                x - k,
            ),
        ),
        _ => None,
    }
}

/// Reading more digits never makes a number smaller.
pub proof fn lemma_fold_grows(a: int, s: Seq<char>)
    requires
        a >= 0,
        all_digits(s),
    ensures
        fold_digits(a, s) >= a,
    decreases s.len(),
{
    if s.len() > 0 {
        lemma_fold_grows(a, s.drop_last());
    }
}

/// Reading `s + t` is reading `s`, then `t`.
pub proof fn lemma_fold_concat(a: int, s: Seq<char>, t: Seq<char>)
    ensures
        fold_digits(a, s + t) == fold_digits(fold_digits(a, s), t),
    decreases t.len(),
{
    if t.len() == 0 {
        assert(s + t =~= s);
    } else {
        assert((s + t).drop_last() =~= s + t.drop_last());
        lemma_fold_concat(a, s, t.drop_last());
    }
}

/// A prefix of digits never reads as more than the whole.
pub proof fn lemma_fold_prefix(a: int, s: Seq<char>, k: int)
    requires
        a >= 0,
        all_digits(s),
        0 <= k <= s.len(),
    ensures
        fold_digits(a, s) >= fold_digits(a, s.subrange(0, k)),
{
    let p = s.subrange(0, k);
    let q = s.subrange(k, s.len() as int);
    assert(s =~= p + q);
    lemma_fold_concat(a, p, q);
    lemma_fold_grows(a, p);
    lemma_fold_grows(fold_digits(a, p), q);
}

/// The digits `t` read after `acc`, when all of `t` are digits and the
/// result does not exceed `bound`.
pub fn accumulate(t: &[char], acc: u64, bound: u64) -> (r: Option<u64>)
    requires
        acc <= bound,
    ensures
        r is Some <==> (all_digits(t@) && fold_digits(acc as int, t@) <= bound),
        r matches Some(x) ==> x == fold_digits(acc as int, t@),
{
    let mut cur: u64 = acc;
    let mut i: usize = 0;
    while i < t.len()
        invariant
            i <= t@.len(),
            acc <= bound,
            all_digits(t@.subrange(0, i as int)),
            cur == fold_digits(acc as int, t@.subrange(0, i as int)),
            cur <= bound,
        decreases t@.len() - i,
    {
        let c = t[i];
        if !((c as u32) >= 48 && (c as u32) <= 57) {
            assert(!is_digit(t@[i as int]));
            return None;
        }
        let next: u128 = (cur as u128) * 10 + ((c as u32) - 48) as u128;
        assert(t@.subrange(0, i + 1).drop_last() =~= t@.subrange(0, i as int));
        if next > bound as u128 {
            proof {
                if all_digits(t@) {
                    lemma_fold_prefix(acc as int, t@, i + 1);
                }
            }
            return None;
        }
        cur = next as u64;
        i = i + 1;
    }
    assert(t@.subrange(0, i as int) =~= t@);
    Some(cur)
}

/// `v` read as a 64-bit signed integer, as `int_value` says.
pub fn parse_int(v: &[char]) -> (r: Option<i64>)
    ensures
        r matches Some(x) ==> int_value(v@) == Some(x as int),
        r is None ==> int_value(v@) is None,
{
    let neg = v.len() > 0 && v[0] == '-';
    let start: usize = if v.len() > 0 && (v[0] == '-' || v[0] == '+') {
        1
    } else {
        0
    };
    let d = slice(v, start, v.len());
    assert(d@ =~= split_sign(v@).1);
    if d.len() == 0 {
        return None;
    }
    let bound: u64 = if neg {
        0x8000_0000_0000_0000
    } else {
        0x7fff_ffff_ffff_ffff
    };
    match accumulate(d.as_slice(), 0, bound) {
        Some(m) => {
            if neg {
                if m == 0x8000_0000_0000_0000 {
                    Some(i64::MIN)
                } else {
                    Some(-(m as i64))
                }
            } else {
                Some(m as i64)
            }
        },
        None => None,
    }
}

/// The position of the first `e` or `E` in `v`.
fn find_exponent(v: &[char]) -> (r: Option<usize>)
    ensures
        r matches Some(i) ==> find_where(v@, exponent_mark()) == Some(i as int) && i < v@.len(),
        r is None ==> find_where(v@, exponent_mark()) is None,
{
    let mut i: usize = 0;
    while i < v.len()
        invariant
            i <= v@.len(),
            forall|j: int| 0 <= j < i ==> !exponent_mark()(#[trigger] v@[j]),
        decreases v@.len() - i,
    {
        if v[i] == 'e' || v[i] == 'E' {
            proof {
                lemma_first_unique(v@, exponent_mark(), i as int);
            }
            return Some(i);
        }
        i = i + 1;
    }
    proof {
        lemma_none_found(v@, exponent_mark());
    }
    None
}

/// `x` read as an exponent, as `exponent_value` says.
fn parse_exponent(x: &[char]) -> (r: Option<i64>)
    ensures
        r matches Some(e) ==> exponent_value(x@) == Some(e as int),
        r matches Some(e) ==> -MAX_EXPONENT <= e <= MAX_EXPONENT,
        r is None ==> exponent_value(x@) is None,
{
    let neg = x.len() > 0 && x[0] == '-';
    let start: usize = if x.len() > 0 && (x[0] == '-' || x[0] == '+') {
        1
    } else {
        0
    };
    let d = slice(x, start, x.len());
    assert(d@ =~= split_sign(x@).1);
    if d.len() == 0 {
        return None;
    }
    match accumulate(d.as_slice(), 0, MAX_EXPONENT) {
        Some(m) => {
            if neg {
                Some(-(m as i64))
            } else {
                Some(m as i64)
            }
        },
        None => None,
    }
}

/// `b` read as unsigned digits with an optional point, as `mantissa_value`
/// says.
fn parse_mantissa(b: &[char]) -> (r: Option<(u64, u32)>)
    ensures
        r matches Some(x) ==> mantissa_value(b@) == Some((x.0 as int, x.1 as nat)),
        r matches Some(x) ==> x.0 < MANTISSA_LIMIT && x.1 <= MAX_PLACES,
        r is None ==> mantissa_value(b@) is None,
{
    let n = b.len();
    let (ip, fp) = match position(b, '.') {
        Some(p) => (slice(b, 0, p), slice(b, p + 1, n)),
        None => (slice(b, 0, n), Vec::new()),
    };
    assert(fp@ =~= split_point(b@).1);
    assert(ip@ =~= split_point(b@).0);
    if ip.len() == 0 && fp.len() == 0 {
        return None;
    }
    if fp.len() > MAX_PLACES as usize {
        return None;
    }
    let bound: u64 = MANTISSA_LIMIT - 1;
    proof {
        lemma_fold_concat(0, ip@, fp@);
    }
    match accumulate(ip.as_slice(), 0, bound) {
        Some(a) => match accumulate(fp.as_slice(), a, bound) {
            Some(m) => Some((m, fp.len() as u32)),
            None => None,
        },
        None => {
            proof {
                if all_digits(ip@) && all_digits(fp@) {
                    lemma_fold_grows(fold_digits(0, ip@), fp@);
                }
            }
            None
        },
    }
}

/// `v` read as a decimal number `(m, e)`, as `decimal_value` says.
pub fn parse_decimal(v: &[char]) -> (r: Option<(i64, i64)>)
    ensures
        r matches Some(x) ==> decimal_value(v@) == Some((x.0 as int, x.1 as int)),
        r matches Some(x) ==> -MANTISSA_LIMIT < x.0 < MANTISSA_LIMIT && -(MAX_EXPONENT + MAX_PLACES)
            <= x.1 <= MAX_EXPONENT,
        r is None ==> decimal_value(v@) is None,
{
    let neg = v.len() > 0 && v[0] == '-';
    let start: usize = if v.len() > 0 && (v[0] == '-' || v[0] == '+') {
        1
    } else {
        0
    };
    let d = slice(v, start, v.len());
    assert(d@ =~= split_sign(v@).1);
    let dn = d.len();
    let (body, x) = match find_exponent(d.as_slice()) {
        Some(p) => {
            let t = slice(d.as_slice(), p + 1, dn);
            match parse_exponent(t.as_slice()) {
                Some(x) => (slice(d.as_slice(), 0, p), x),
                None => {
                    return None;
                },
            }
        },
        None => (slice(d.as_slice(), 0, dn), 0i64),
    };
    assert(body@ =~= split_exponent(d@).0);
    match parse_mantissa(body.as_slice()) {
        Some((m, k)) => {
            let signed: i64 = if neg {
                -(m as i64)
            } else {
                m as i64
            };
            Some((signed, x - k as i64))
        },
        None => None,
    }
}

/// `a / b` rounded toward zero, for `b > 0`.
pub open spec fn toward_zero(a: int, b: int) -> int {
    if a >= 0 {
        a / b
    } else {
        -((-a) / b)
    }
}

/// `x * 10^e`, rounded toward zero when `e` is negative.
pub open spec fn shift(x: int, e: int) -> int {
    if e >= 0 {
        x * pow10(e as nat)
    } else {
        toward_zero(x, pow10((-e) as nat))
    }
}

/// `x` held to the range of a non-negative 64-bit signed integer.
pub open spec fn clamp_sample(x: int) -> int {
    if x < 0 {
        0
    } else if x > i64::MAX {
        i64::MAX as int
    } else {
        x
    }
}

/// The scale and the magnitude of a value expression `[scale*]magnitude`; the
/// scale is `1` when there is no `*`.
pub open spec fn split_scale(e: Seq<char>) -> (Seq<char>, Seq<char>) {
    match find_char(e, '*') {
        Some(p) => (e.subrange(0, p), e.subrange(p + 1, e.len() as int)),
        None => (seq!['1'], e),
    }
}

/// The value of the expression `e`: the magnitude times the scale, as decimal
/// numbers rounded toward zero when either holds a point, else as integers.
/// A magnitude that does not read as a number counts as 0, a scale as 1. The
/// result is held to the range of a non-negative 64-bit signed integer.
pub open spec fn scaled_value(e: Seq<char>) -> int {
    let (scale, mag) = split_scale(e);
    if mag.contains('.') || scale.contains('.') {
        let (vm, ve) = match decimal_value(mag) {
            Some(x) => x,
            None => (0, 0),
        };
        let (sm, se) = match decimal_value(scale) {
            Some(x) => x,
            None => (1, 0),
        };
        clamp_sample(shift(vm * sm, ve + se))
    } else {
        let v = match int_value(mag) {
            Some(x) => x,
            None => 0,
        };
        let k = match int_value(scale) {
            Some(x) => x,
            None => 1,
        };
        clamp_sample(v * k)
    }
}

/// A body `key:expr` read as its key and the value of `expr`; none without `:`.
pub open spec fn scaled_pair(b: Seq<char>) -> Option<(Seq<char>, int)> {
    match find_char(b, ':') {
        Some(c) => Some((b.subrange(0, c), scaled_value(b.subrange(c + 1, b.len() as int)))),
        None => None,
    }
}

/// Powers of ten are positive and grow with the exponent.
pub proof fn lemma_pow10_monotonic(i: nat, j: nat)
    requires
        i <= j,
    ensures
        1 <= pow10(i) <= pow10(j),
    decreases j,
{
    if j > 0 {
        if i < j {
            lemma_pow10_monotonic(i, (j - 1) as nat);
        } else {
            lemma_pow10_monotonic((j - 1) as nat, (j - 1) as nat);
        }
    }
}

/// Ten to the power `k`.
pub fn power_of_ten(k: u32) -> (r: i128)
    requires
        k <= 36,
    ensures
        r == pow10(k as nat),
        0 < r <= 1_000_000_000_000_000_000_000_000_000_000_000_000,
{
    proof {
        reveal_with_fuel(pow10, 37);
    }
    assert(pow10(36) == 1_000_000_000_000_000_000_000_000_000_000_000_000);
    let mut r: i128 = 1;
    let mut i: u32 = 0;
    while i < k
        invariant
            i <= k <= 36,
            r == pow10(i as nat),
            pow10(36) == 1_000_000_000_000_000_000_000_000_000_000_000_000,
        decreases k - i,
    {
        proof {
            lemma_pow10_monotonic((i + 1) as nat, 36);
        }
        r = r * 10;
        i = i + 1;
    }
    proof {
        lemma_pow10_monotonic(k as nat, 36);
    }
    r
}

/// `x` held to the range of a non-negative 64-bit signed integer.
fn clamp(x: i128) -> (r: u64)
    ensures
        r == clamp_sample(x as int),
{
    if x < 0 {
        0
    } else if x > i64::MAX as i128 {
        i64::MAX as u64
    } else {
        x as u64
    }
}

/// `clamp_sample(shift(p, e))`, for a product `p` of two decimal mantissas.
fn scale_decimal(p: i128, e: i64) -> (r: u64)
    requires
        -1_000_000_000_000_000_000_000_000_000_000_000_000 < p
            < 1_000_000_000_000_000_000_000_000_000_000_000_000,
    ensures
        r == clamp_sample(shift(p as int, e as int)),
{
    proof {
        reveal_with_fuel(pow10, 37);
    }
    assert(pow10(19) == 10_000_000_000_000_000_000);
    assert(pow10(36) == 1_000_000_000_000_000_000_000_000_000_000_000_000);
    let ghost x = p as int;
    if p <= 0 {
        proof {
            if e >= 0 {
                lemma_pow10_monotonic(0, e as nat);
                let q = pow10(e as nat);
                assert(x * q <= 0) by (nonlinear_arith)
                    requires
                        x <= 0,
                        q >= 1,
                ;
            } else {
                lemma_pow10_monotonic(0, (-e) as nat);
                let q = pow10((-e) as nat);
                assert((-x) / q >= 0) by (nonlinear_arith)
                    requires
                        -x >= 0,
                        q >= 1,
                ;
            }
        }
        return 0;
    }
    if e >= 0 {
        if e >= 19 || p > i64::MAX as i128 {
            proof {
                lemma_pow10_monotonic(0, e as nat);
                let q = pow10(e as nat);
                assert(x * q >= x && x * q >= q) by (nonlinear_arith)
                    requires
                        x >= 1,
                        q >= 1,
                ;
                if e >= 19 {
                    lemma_pow10_monotonic(19, e as nat);
                }
            }
            return i64::MAX as u64;
        }
        let q = power_of_ten(e as u32);
        proof {
            lemma_pow10_monotonic(e as nat, 18);
            reveal_with_fuel(pow10, 19);
        }
        assert(p * q < 100_000_000_000_000_000_000_000_000_000_000_000_000) by (nonlinear_arith)
            requires
                0 < p <= 0x7fff_ffff_ffff_ffff,
                0 < q <= 1_000_000_000_000_000_000,
        ;
        clamp(p * q)
    } else {
        if e < -36 {
            proof {
                lemma_pow10_monotonic(36, (-e) as nat);
                let q = pow10((-e) as nat);
                assert(x / q == 0) by (nonlinear_arith)
                    requires
                        0 < x < q,
                ;
            }
            return 0;
        }
        let q = power_of_ten((-e) as u32);
        clamp(p / q)
    }
}

/// `a * 10^d`, or a number of the same sign and of magnitude `10^19` when
/// that is at least `10^19` in magnitude: either way it orders the same
/// against any number of magnitude below `10^18`.
fn widen(a: i64, d: i64) -> (r: i128)
    requires
        -MANTISSA_LIMIT < a < MANTISSA_LIMIT,
        d >= 0,
    ensures
        r == a * pow10(d as nat) || (r == 10_000_000_000_000_000_000 && a * pow10(d as nat)
            >= 10_000_000_000_000_000_000) || (r == -10_000_000_000_000_000_000 && a * pow10(
            d as nat,
        ) <= -10_000_000_000_000_000_000),
        -1_000_000_000_000_000_000_000_000_000_000_000_000 < r
            < 1_000_000_000_000_000_000_000_000_000_000_000_000,
{
    proof {
        reveal_with_fuel(pow10, 20);
        lemma_pow10_monotonic(0, d as nat);
    }
    assert(pow10(19) == 10_000_000_000_000_000_000);
    let ghost q = pow10(d as nat);
    if a == 0 {
        assert(a * q == 0);
        return 0;
    }
    if d <= 18 {
        let p = power_of_ten(d as u32);
        proof {
            lemma_pow10_monotonic(d as nat, 18);
        }
        let ghost ai = a as int;
        let ghost pi = p as int;
        assert(-1_000_000_000_000_000_000_000_000_000_000_000_000 < ai * pi
            < 1_000_000_000_000_000_000_000_000_000_000_000_000) by (nonlinear_arith)
            requires
                -1_000_000_000_000_000_000 < ai < 1_000_000_000_000_000_000,
                0 < pi <= 1_000_000_000_000_000_000,
        ;
        return (a as i128) * p;
    }
    proof {
        lemma_pow10_monotonic(19, d as nat);
    }
    if a > 0 {
        assert(a * q >= q) by (nonlinear_arith)
            requires
                a >= 1,
                q >= 1,
        ;
        10_000_000_000_000_000_000
    } else {
        assert(a * q <= -q) by (nonlinear_arith)
            requires
                a <= -1,
                q >= 1,
        ;
        -10_000_000_000_000_000_000
    }
}

/// The value of the expression `e`, as `scaled_value` says.
pub fn scaled_number(e: &[char]) -> (r: u64)
    ensures
        r == scaled_value(e@),
{
    let n = e.len();
    let (scale, mag) = match position(e, '*') {
        Some(p) => (slice(e, 0, p), slice(e, p + 1, n)),
        None => (vec!['1'], slice(e, 0, e.len())),
    };
    assert(scale@ =~= split_scale(e@).0);
    assert(mag@ =~= split_scale(e@).1);
    let has_point = position(mag.as_slice(), '.').is_some() || position(
        scale.as_slice(),
        '.',
    ).is_some();
    if has_point {
        let (vm, ve) = match parse_decimal(mag.as_slice()) {
            Some(x) => x,
            None => (0, 0),
        };
        let (sm, se) = match parse_decimal(scale.as_slice()) {
            Some(x) => x,
            None => (1, 0),
        };
        let ghost a = vm as int;
        let ghost b = sm as int;
        assert(-1_000_000_000_000_000_000_000_000_000_000_000_000 < a * b
            < 1_000_000_000_000_000_000_000_000_000_000_000_000) by (nonlinear_arith)
            requires
                -1_000_000_000_000_000_000 < a < 1_000_000_000_000_000_000,
                -1_000_000_000_000_000_000 < b < 1_000_000_000_000_000_000,
        ;
        let prod: i128 = (vm as i128) * (sm as i128);
        scale_decimal(prod, ve + se)
    } else {
        let v = match parse_int(mag.as_slice()) {
            Some(x) => x,
            None => 0,
        };
        let k = match parse_int(scale.as_slice()) {
            Some(x) => x,
            None => 1,
        };
        let ghost a = v as int;
        let ghost b = k as int;
        assert(-0x8000_0000_0000_0000_0000_0000_0000_0000 < a * b
            < 0x8000_0000_0000_0000_0000_0000_0000_0000) by (nonlinear_arith)
            requires
                -0x8000_0000_0000_0000 <= a < 0x8000_0000_0000_0000,
                -0x8000_0000_0000_0000 <= b < 0x8000_0000_0000_0000,
        ;
        clamp((v as i128) * (k as i128))
    }
}

/// The key and the value of a body `key:expr`, as `scaled_pair` says.
pub fn scaled(b: &[char]) -> (r: Option<(Vec<char>, u64)>)
    ensures
        r is Some <==> scaled_pair(b@) is Some,
        r matches Some(x) ==> scaled_pair(b@) == Some((x.0@, x.1 as int)),
{
    let n = b.len();
    match position(b, ':') {
        Some(c) => {
            let key = slice(b, 0, c);
            let e = slice(b, c + 1, n);
            let v = scaled_number(e.as_slice());
            Some((key, v))
        },
        None => None,
    }
}

/// `a op b` for the operator `<`, `>` or `=`.
pub open spec fn relates(op: char, a: int, b: int) -> bool {
    if op == '<' {
        a < b
    } else if op == '>' {
        a > b
    } else {
        a == b
    }
}

/// `a op b` between two 128-bit integers.
fn relate(op: char, a: i128, b: i128) -> (r: bool)
    ensures
        r == relates(op, a as int, b as int),
{
    if op == '<' {
        a < b
    } else if op == '>' {
        a > b
    } else {
        a == b
    }
}

/// `a op b` between two integers.
pub fn relate_ints(op: char, a: i64, b: i64) -> (r: bool)
    ensures
        r == relates(op, a as int, b as int),
{
    relate(op, a as i128, b as i128)
}

/// `l op r` between two decimal numbers `(m, e)`, compared exactly: both are
/// brought to the smaller of their exponents.
pub open spec fn relates_decimals(op: char, l: (int, int), r: (int, int)) -> bool {
    let lo = if l.1 <= r.1 {
        l.1
    } else {
        r.1
    };
    relates(op, l.0 * pow10((l.1 - lo) as nat), r.0 * pow10((r.1 - lo) as nat))
}

/// `l op r` between two decimal numbers read by `parse_decimal`.
pub fn relate_decimals(op: char, l: (i64, i64), r: (i64, i64)) -> (res: bool)
    requires
        -MANTISSA_LIMIT < l.0 < MANTISSA_LIMIT,
        -MANTISSA_LIMIT < r.0 < MANTISSA_LIMIT,
        -(MAX_EXPONENT + MAX_PLACES) <= l.1 <= MAX_EXPONENT,
        -(MAX_EXPONENT + MAX_PLACES) <= r.1 <= MAX_EXPONENT,
    ensures
        res == relates_decimals(op, (l.0 as int, l.1 as int), (r.0 as int, r.1 as int)),
{
    assert(pow10(0) == 1);
    if l.1 <= r.1 {
        let w = widen(r.0, r.1 - l.1);
        assert(l.0 * pow10(0) == l.0);
        relate(op, l.0 as i128, w)
    } else {
        let w = widen(l.0, l.1 - r.1);
        assert(r.0 * pow10(0) == r.0);
        relate(op, w, r.0 as i128)
    }
}

/// The default scale `1` reads as 1 both as an integer and as a decimal.
pub proof fn lemma_one_reads_as_one()
    ensures
        int_value(seq!['1']) == Some(1int),
        decimal_value(seq!['1']) == Some((1int, 0int)),
{
    let one = seq!['1'];
    assert(split_sign(one) == (false, one));
    assert(one.drop_last() =~= Seq::<char>::empty());
    assert(fold_digits(0, Seq::<char>::empty()) == 0);
    assert(one.last() == '1');
    assert(digit_of('1') == 1);
    assert(fold_digits(0, one) == fold_digits(0, one.drop_last()) * 10 + digit_of(one.last()));
    assert(digits_value(one) == 1);
    lemma_none_found(one, equals('.'));
    lemma_none_found(one, exponent_mark());
    assert(split_point(one) == (one, Seq::<char>::empty()));
    assert(one + Seq::<char>::empty() =~= one);
}

/// Without `*` the whole expression is the magnitude, and the scale is `1`.
proof fn lemma_no_star(e: Seq<char>)
    requires
        !e.contains('*'),
    ensures
        split_scale(e) == (seq!['1'], e),
{
    assert forall|j: int| 0 <= j < e.len() implies !equals('*')(#[trigger] e[j]) by {
        assert(e[j] != '*');
    }
    lemma_none_found(e, equals('*'));
}

/// A magnitude that reads as no number counts as 0: for a key without `:`,
/// `key:mag` gives the key and 0 when `mag`, without `*`, reads neither as an
/// integer nor as a decimal number.
pub proof fn lemma_unreadable_magnitude(key: Seq<char>, mag: Seq<char>)
    requires
        !key.contains(':'),
        !mag.contains('*'),
        int_value(mag) is None,
        decimal_value(mag) is None,
    ensures
        scaled_pair(key + seq![':'] + mag) == Some((key, 0int)),
{
    let b = key + seq![':'] + mag;
    let k = key.len() as int;
    assert forall|j: int| 0 <= j < k implies !equals(':')(#[trigger] b[j]) by {
        assert(b[j] == key[j]);
    }
    assert(b[k] == ':');
    lemma_first_unique(b, equals(':'), k);
    assert(b.subrange(0, k) =~= key);
    assert(b.subrange(k + 1, b.len() as int) =~= mag);
    lemma_no_star(mag);
    let (sm, se) = match decimal_value(seq!['1']) {
        Some(x) => x,
        None => (1int, 0int),
    };
    assert(0 * sm == 0);
    if se >= 0 {
        assert(0int * pow10(se as nat) == 0);
    } else {
        lemma_pow10_monotonic(0, (-se) as nat);
        assert(0int / pow10((-se) as nat) == 0);
    }
    assert(shift(0, se) == 0);
}

/// A scale that reads as no number counts as 1: when `scale` holds no `*`
/// and no point and reads as no number, and `mag` holds no `*`,
/// `scale*mag` has the value of `mag` alone.
pub proof fn lemma_unreadable_scale(scale: Seq<char>, mag: Seq<char>)
    requires
        !scale.contains('*'),
        !scale.contains('.'),
        !mag.contains('*'),
        int_value(scale) is None,
        decimal_value(scale) is None,
    ensures
        scaled_value(scale + seq!['*'] + mag) == scaled_value(mag),
{
    let e = scale + seq!['*'] + mag;
    let k = scale.len() as int;
    assert forall|j: int| 0 <= j < k implies !equals('*')(#[trigger] e[j]) by {
        assert(e[j] == scale[j]);
    }
    assert(e[k] == '*');
    lemma_first_unique(e, equals('*'), k);
    assert(e.subrange(0, k) =~= scale);
    assert(e.subrange(k + 1, e.len() as int) =~= mag);
    lemma_no_star(mag);
    lemma_one_reads_as_one();
    assert(!seq!['1'].contains('.')) by {
        assert(seq!['1'][0] != '.');
    }
}

} // verus!
