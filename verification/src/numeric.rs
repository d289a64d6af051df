//! Numeric comparison of raw memory readings.
//!
//! Two readings of one type are compared as the numbers they hold, in one
//! of two ways: exactly (integer readings as the integers they encode), or
//! after conversion to `f64` (64-bit integers rounded to the nearest `f64`,
//! ties to even). Floating-point readings compare by their IEEE 754 value
//! either way, and every comparison with a NaN is false. The comparison is
//! carried out here on integers that are ordered as those values are.

use vstd::prelude::*;
use crate::encoding::{le_decode, le_value, lemma_le_value_bound, lemma_pow256_values, signed_from, signed_of};
use crate::types::{ScanValue, ScanValueView};

verus! {

/// A reading placed on the number line.
#[derive(Debug, Clone, Copy, PartialEq, Eq, Structural)]
pub enum NumericKey {
    /// A number; keys of readings of one type order as their values do.
    Number(i128),
    /// A NaN, which compares neither greater nor less than anything.
    NotANumber,
}

/// The key of an `f32` bit pattern: NaNs apart, IEEE 754 orders values of
/// one format as their sign-magnitude bit patterns, with both zeros equal.
pub open spec fn f32_key(bits: u32) -> NumericKey {
    let mag = bits % 0x8000_0000;
    if mag > 0x7F80_0000 {
        NumericKey::NotANumber
    } else if bits >= 0x8000_0000 {
        NumericKey::Number((-(mag as int)) as i128)
    } else {
        NumericKey::Number(mag as i128)
    }
}

/// The key of an `f64` bit pattern, as for `f32_key`.
pub open spec fn f64_key(bits: u64) -> NumericKey {
    let mag = bits % 0x8000_0000_0000_0000;
    if mag > 0x7FF0_0000_0000_0000 {
        NumericKey::NotANumber
    } else if bits >= 0x8000_0000_0000_0000 {
        NumericKey::Number((-(mag as int)) as i128)
    } else {
        NumericKey::Number(mag as i128)
    }
}

/// The key of `bytes` read exactly as a number of the kind of `hint`:
/// `None` when the kind is not numeric or the number of bytes is not its size.
pub open spec fn exact_key(bytes: Seq<u8>, hint: ScanValueView) -> Option<NumericKey> {
    if !hint.is_numeric() || bytes.len() != hint.byte_size() {
        None
    } else {
        let u = le_value(bytes);
        Some(
            match hint {
                ScanValueView::I8(_) => NumericKey::Number(signed_of(u, 1) as i128),
                ScanValueView::I16(_) => NumericKey::Number(signed_of(u, 2) as i128),
                ScanValueView::I32(_) => NumericKey::Number(signed_of(u, 4) as i128),
                ScanValueView::I64(_) => NumericKey::Number(signed_of(u, 8) as i128),
                ScanValueView::F32(_) => f32_key(u as u32),
                ScanValueView::F64(_) => f64_key(u as u64),
                _ => NumericKey::Number(u as i128),
            },
        )
    }
}

/// The key of `bytes` read as a number of the kind of `hint` and converted
/// to `f64`: as `exact_key`, except that 64-bit integers are rounded to the
/// nearest `f64` (ties to even), as the conversion does.
pub open spec fn numeric_key(bytes: Seq<u8>, hint: ScanValueView) -> Option<NumericKey> {
    if !hint.is_numeric() || bytes.len() != hint.byte_size() {
        None
    } else {
        let u = le_value(bytes);
        match hint {
            ScanValueView::I64(_) => Some(NumericKey::Number(round_int_to_f64(signed_of(u, 8)) as i128)),
            ScanValueView::U64(_) => Some(NumericKey::Number(round_to_f64(u) as i128)),
            _ => exact_key(bytes, hint),
        }
    }
}

/// Which way a comparison goes.
#[derive(Debug, Clone, Copy, PartialEq, Eq, Structural)]
pub enum Comparison {
    /// The first reading is greater than the second.
    Greater,
    /// The first reading is less than the second.
    Less,
}

/// How two keys compare in the direction `cmp`: false when either is a NaN
/// or missing.
pub open spec fn keys_compare(x: Option<NumericKey>, y: Option<NumericKey>, cmp: Comparison) -> bool {
    match (x, y) {
        (Some(NumericKey::Number(x)), Some(NumericKey::Number(y))) => match cmp {
            Comparison::Greater => x > y,
            Comparison::Less => x < y,
        },
        _ => false,
    }
}

/// Whether reading `a` compares to reading `b` as `cmp` says, both read as
/// numbers of the kind of `hint` and converted to `f64`; false when either
/// is not such a number.
pub open spec fn compares(a: Seq<u8>, b: Seq<u8>, hint: ScanValueView, cmp: Comparison) -> bool {
    keys_compare(numeric_key(a, hint), numeric_key(b, hint), cmp)
}

/// Whether reading `a` compares to reading `b` as `cmp` says, both read
/// exactly as numbers of the kind of `hint`; false when either is not such
/// a number.
pub open spec fn compares_exact(a: Seq<u8>, b: Seq<u8>, hint: ScanValueView, cmp: Comparison) -> bool {
    keys_compare(exact_key(a, hint), exact_key(b, hint), cmp)
}

} // verus!

verus! {

/// `2` raised to the power `e`.
pub open spec fn two_pow(e: nat) -> nat
    decreases e,
{
    if e == 0 {
        1
    } else {
        2 * two_pow((e - 1) as nat)
    }
}

/// How many low-order bits of `x` do not fit in the 53-bit significand of an `f64`.
pub open spec fn excess_bits(x: nat) -> nat
    decreases x,
{
    if x < 0x20_0000_0000_0000 {
        0
    } else {
        1 + excess_bits(x / 2)
    }
}

/// `x` rounded to the nearest number that an `f64` holds exactly, ties to
/// even, as the conversion of an integer to `f64` rounds.
pub open spec fn round_to_f64(x: nat) -> nat {
    let e = excess_bits(x);
    if e == 0 {
        x
    } else {
        let p = two_pow(e);
        let q = x / p;
        let r = x % p;
        let h = p / 2;
        let q2 = if r > h || (r == h && q % 2 == 1) {
            q + 1
        } else {
            q
        };
        q2 * p
    }
}

/// The signed integer `x` as an `f64` holds it after conversion.
pub open spec fn round_int_to_f64(x: int) -> int {
    if x >= 0 {
        round_to_f64(x as nat) as int
    } else {
        -(round_to_f64((-x) as nat) as int)
    }
}

proof fn lemma_excess_step(x: nat, p: nat, e: nat)
    requires
        p == two_pow(e),
        x / p >= 0x20_0000_0000_0000,
    ensures
        excess_bits(x / p) == 1 + excess_bits(x / (2 * p)),
        two_pow(e + 1) == 2 * p,
{
    lemma_two_pow_pos(e);
    vstd::arithmetic::div_mod::lemma_div_denominator(x as int, p as int, 2);
    assert(two_pow(e + 1) == 2 * two_pow(e));
}

proof fn lemma_two_pow_mono(e: nat, f: nat)
    requires
        e <= f,
    ensures
        two_pow(e) <= two_pow(f),
    decreases f,
{
    if e < f {
        lemma_two_pow_mono(e, (f - 1) as nat);
    }
}

proof fn lemma_two_pow_pos(e: nat)
    ensures
        two_pow(e) >= 1,
    decreases e,
{
    if e > 0 {
        lemma_two_pow_pos((e - 1) as nat);
    }
}

/// `x` rounded to the nearest number that an `f64` holds exactly.
pub fn round_u64_to_f64(x: u64) -> (r: u128)
    ensures
        r == round_to_f64(x as nat),
        r <= 0x1_0000_0000_0000_0000,
{
    if x < 0x20_0000_0000_0000 {
        return x as u128;
    }
    let mut p: u64 = 1;
    let ghost mut e: nat = 0;
    assert(x / 1 == x);
    while x / p >= 0x20_0000_0000_0000
        invariant
            p == two_pow(e),
            e <= 11,
            1 <= p <= 0x800,
            excess_bits(x as nat) == e + excess_bits((x / p) as nat),
        decreases 11 - e,
    {
        proof {
            lemma_excess_step(x as nat, p as nat, e);
            reveal_with_fuel(two_pow, 12);
            if e == 11 {
                assert(p == 0x800);
                assert(x / 0x800 < 0x20_0000_0000_0000);
                assert(false);
            }
            lemma_two_pow_mono(e + 1, 11);
        }
        p = p * 2;
        proof {
            e = e + 1;
        }
    }
    assert(excess_bits((x / p) as nat) == 0);
    assert(e > 0) by {
        if e == 0 {
            assert(x / 1 == x);
        }
    }
    let q = x / p;
    let r = x % p;
    let h = p / 2;
    let q2: u64 = if r > h || (r == h && q % 2 == 1) { q + 1 } else { q };
    assert(q2 as nat * p as nat <= 0x20_0000_0000_0000 * 0x800) by (nonlinear_arith)
        requires
            q2 <= 0x20_0000_0000_0000,
            p <= 0x800,
    ;
    (q2 as u128) * (p as u128)
}

/// `x` as an `f64` holds it, for a signed 64-bit `x`.
pub fn round_i64_to_f64(x: i64) -> (r: i128)
    ensures
        r == round_int_to_f64(x as int),
{
    if x >= 0 {
        round_u64_to_f64(x as u64) as i128
    } else {
        let m: u64 = (0i128 - (x as i128)) as u64;
        let ru = round_u64_to_f64(m);
        -(ru as i128)
    }
}

proof fn lemma_excess_bounds(x: nat)
    ensures
        x / two_pow(excess_bits(x)) < 0x20_0000_0000_0000,
        excess_bits(x) > 0 ==> x / two_pow(excess_bits(x)) >= 0x10_0000_0000_0000,
        two_pow(excess_bits(x)) >= 1,
    decreases x,
{
    lemma_two_pow_pos(excess_bits(x));
    if x >= 0x20_0000_0000_0000 {
        let e = excess_bits(x);
        let h = x / 2;
        lemma_excess_bounds(h);
        assert(e == 1 + excess_bits(h));
        let p1 = two_pow(excess_bits(h));
        assert(two_pow(e) == 2 * p1);
        vstd::arithmetic::div_mod::lemma_div_denominator(x as int, 2, p1 as int);
        assert(x / two_pow(e) == h / p1);
        if excess_bits(h) == 0 {
            assert(p1 == 1);
            assert(h / 1 == h);
        }
    } else {
        assert(x / 1 == x);
    }
}

proof fn lemma_excess_mono(x: nat, y: nat)
    requires
        x <= y,
    ensures
        excess_bits(x) <= excess_bits(y),
    decreases y,
{
    if x >= 0x20_0000_0000_0000 {
        lemma_excess_mono(x / 2, y / 2);
    }
}

proof fn lemma_two_pow_add(a: nat, b: nat)
    ensures
        two_pow(a + b) == two_pow(a) * two_pow(b),
    decreases a,
{
    if a > 0 {
        lemma_two_pow_add((a - 1) as nat, b);
        let u = two_pow((a - 1) as nat);
        let v = two_pow(b);
        assert(two_pow(a + b) == 2 * two_pow((a - 1 + b) as nat));
        assert(two_pow(a) == 2 * u);
        assert(2 * (u * v) == (2 * u) * v) by (nonlinear_arith);
    } else {
        assert(two_pow(a) == 1);
        assert(1 * two_pow(b) == two_pow(b));
    }
}

/// Rounding to the nearest `f64` never reverses the order of two numbers.
pub proof fn lemma_round_monotone(x: nat, y: nat)
    requires
        x <= y,
    ensures
        round_to_f64(x) <= round_to_f64(y),
{
    let ex = excess_bits(x);
    let ey = excess_bits(y);
    lemma_excess_mono(x, y);
    lemma_excess_bounds(x);
    lemma_excess_bounds(y);
    let px = two_pow(ex);
    let py = two_pow(ey);
    if ex == 0 && ey == 0 {
    } else if ex == ey {
        let p = px;
        let qx = x / p;
        let qy = y / p;
        let rx = x % p;
        let ry = y % p;
        let h = p / 2;
        vstd::arithmetic::div_mod::lemma_div_is_ordered(x as int, y as int, p as int);
        vstd::arithmetic::div_mod::lemma_fundamental_div_mod(x as int, p as int);
        vstd::arithmetic::div_mod::lemma_fundamental_div_mod(y as int, p as int);
        vstd::arithmetic::div_mod::lemma_mod_bound(x as int, p as int);
        vstd::arithmetic::div_mod::lemma_mod_bound(y as int, p as int);
        let q2x = if rx > h || (rx == h && qx % 2 == 1) { qx + 1 } else { qx };
        let q2y = if ry > h || (ry == h && qy % 2 == 1) { qy + 1 } else { qy };
        if qx < qy {
            assert(q2x <= q2y);
        } else {
            assert(qx == qy);
            assert(rx <= ry) by (nonlinear_arith)
                requires
                    x <= y,
                    x == p * qx + rx,
                    y == p * qy + ry,
                    qx == qy;
            assert(q2x <= q2y);
        }
        vstd::arithmetic::mul::lemma_mul_inequality(q2x as int, q2y as int, p as int);
    } else {
        // ex < ey: everything x rounds to lies at or below 2^(53 + ex), and
        // y rounds to at least 2^(52 + ey) >= 2^(53 + ex).
        assert(ex < ey);
        lemma_two_pow_add(1, ex);
        lemma_two_pow_add((ey - ex - 1) as nat, (ex + 1) as nat);
        lemma_two_pow_pos((ey - ex - 1) as nat);
        let k = two_pow((ey - ex - 1) as nat);
        assert(py == k * (2 * px));
        vstd::arithmetic::mul::lemma_mul_inequality(1, k as int, (2 * px) as int);
        assert(2 * px <= py);
        let qx = x / px;
        let q2x: nat = if ex == 0 {
            x
        } else {
            let rx = x % px;
            let h = px / 2;
            if rx > h || (rx == h && qx % 2 == 1) { qx + 1 } else { qx }
        };
        if ex == 0 {
            assert(px == 1);
            assert(x < 0x20_0000_0000_0000) by {
                assert(x / 1 == x);
            }
            assert(round_to_f64(x) == x);
            assert(round_to_f64(x) <= 0x20_0000_0000_0000 * px);
        } else {
            assert(q2x <= 0x20_0000_0000_0000);
            assert(round_to_f64(x) == q2x * px);
            vstd::arithmetic::mul::lemma_mul_inequality(q2x as int, 0x20_0000_0000_0000, px as int);
        }
        let qy = y / py;
        let ry = y % py;
        let hy = py / 2;
        let q2y = if ry > hy || (ry == hy && qy % 2 == 1) { qy + 1 } else { qy };
        assert(round_to_f64(y) == q2y * py);
        assert(q2y >= 0x10_0000_0000_0000);
        vstd::arithmetic::mul::lemma_mul_inequality(0x10_0000_0000_0000, q2y as int, py as int);
        assert(0x20_0000_0000_0000 * px <= 0x10_0000_0000_0000 * py) by (nonlinear_arith)
            requires
                2 * px <= py;
    }
}

proof fn lemma_round_bound(x: nat)
    ensures
        round_to_f64(x) <= 2 * x,
{
    let e = excess_bits(x);
    lemma_excess_bounds(x);
    if e > 0 {
        let p = two_pow(e);
        let q = x / p;
        vstd::arithmetic::div_mod::lemma_fundamental_div_mod(x as int, p as int);
        vstd::arithmetic::div_mod::lemma_mod_bound(x as int, p as int);
        let q2 = if x % p > p / 2 || (x % p == p / 2 && q % 2 == 1) { q + 1 } else { q };
        assert(q2 * p <= q * p + p) by (nonlinear_arith)
            requires
                q2 <= q + 1,
                p >= 1;
        assert(p <= q * p) by (nonlinear_arith)
            requires
                q >= 1,
                p >= 1;
    }
}

proof fn lemma_round_int_monotone(x: int, y: int)
    requires
        x <= y,
    ensures
        round_int_to_f64(x) <= round_int_to_f64(y),
{
    if x >= 0 {
        lemma_round_monotone(x as nat, y as nat);
    } else if y < 0 {
        lemma_round_monotone((-y) as nat, (-x) as nat);
    }
}

} // verus!

verus! {

fn f32_key_exec(bits: u32) -> (r: NumericKey)
    ensures
        r == f32_key(bits),
{
    let mag = bits % 0x8000_0000;
    if mag > 0x7F80_0000 {
        NumericKey::NotANumber
    } else if bits >= 0x8000_0000 {
        NumericKey::Number(0i128 - (mag as i128))
    } else {
        NumericKey::Number(mag as i128)
    }
}

fn f64_key_exec(bits: u64) -> (r: NumericKey)
    ensures
        r == f64_key(bits),
{
    let mag = bits % 0x8000_0000_0000_0000;
    if mag > 0x7FF0_0000_0000_0000 {
        NumericKey::NotANumber
    } else if bits >= 0x8000_0000_0000_0000 {
        NumericKey::Number(0i128 - (mag as i128))
    } else {
        NumericKey::Number(mag as i128)
    }
}

/// The key of `bytes` read as a number of the kind of `type_hint`, exactly
/// or converted to `f64`.
fn key_of(bytes: &[u8], type_hint: &ScanValue, exact: bool) -> (r: Option<NumericKey>)
    ensures
        r == (if exact {
            exact_key(bytes@, type_hint@)
        } else {
            numeric_key(bytes@, type_hint@)
        }),
{
    let n: usize = match type_hint {
        ScanValue::I8(_) | ScanValue::U8(_) => 1,
        ScanValue::I16(_) | ScanValue::U16(_) => 2,
        ScanValue::I32(_) | ScanValue::U32(_) | ScanValue::F32(_) => 4,
        ScanValue::I64(_) | ScanValue::U64(_) | ScanValue::F64(_) => 8,
        _ => return None,
    };
    if bytes.len() != n {
        return None;
    }
    proof {
        lemma_pow256_values();
        lemma_le_value_bound(bytes@);
        assert(bytes@.subrange(0, n as int) =~= bytes@);
    }
    let u = le_decode(bytes, 0, n);
    let key = match type_hint {
        ScanValue::I8(_) => NumericKey::Number(signed_from(u, 1) as i128),
        ScanValue::I16(_) => NumericKey::Number(signed_from(u, 2) as i128),
        ScanValue::I32(_) => NumericKey::Number(signed_from(u, 4) as i128),
        ScanValue::I64(_) => if exact {
            NumericKey::Number(signed_from(u, 8) as i128)
        } else {
            NumericKey::Number(round_i64_to_f64(signed_from(u, 8)))
        },
        ScanValue::U64(_) => if exact {
            NumericKey::Number(u as i128)
        } else {
            NumericKey::Number(round_u64_to_f64(u) as i128)
        },
        ScanValue::F32(_) => f32_key_exec(u as u32),
        ScanValue::F64(_) => f64_key_exec(u),
        _ => NumericKey::Number(u as i128),
    };
    Some(key)
}

/// Convert raw bytes, read as a number of the kind of `type_hint`, to `f64`
/// for comparison: its place on the number line after conversion; `None`
/// for strings and byte arrays and when the number of bytes is not the
/// kind's size.
pub fn bytes_to_f64(bytes: &[u8], type_hint: &ScanValue) -> (r: Option<NumericKey>)
    ensures
        r == numeric_key(bytes@, type_hint@),
{
    key_of(bytes, type_hint, false)
}

fn compare_keys(x: Option<NumericKey>, y: Option<NumericKey>, cmp: Comparison) -> (r: bool)
    ensures
        r == keys_compare(x, y, cmp),
{
    match (x, y) {
        (Some(NumericKey::Number(x)), Some(NumericKey::Number(y))) => match cmp {
            Comparison::Greater => x > y,
            Comparison::Less => x < y,
        },
        _ => false,
    }
}

/// Compare two byte buffers as numbers of the kind of `type_hint`
/// converted to `f64`, in the direction `cmp`; false when either is not
/// such a number or is a NaN.
pub fn compare_bytes_numeric(a: &[u8], b: &[u8], type_hint: &ScanValue, cmp: Comparison) -> (r: bool)
    ensures
        r == compares(a@, b@, type_hint@, cmp),
{
    compare_keys(key_of(a, type_hint, false), key_of(b, type_hint, false), cmp)
}

/// Compare two byte buffers exactly as numbers of the kind of `type_hint`,
/// in the direction `cmp`; false when either is not such a number or is a NaN.
pub fn compare_bytes_exact(a: &[u8], b: &[u8], type_hint: &ScanValue, cmp: Comparison) -> (r: bool)
    ensures
        r == compares_exact(a@, b@, type_hint@, cmp),
{
    compare_keys(key_of(a, type_hint, true), key_of(b, type_hint, true), cmp)
}

} // verus!

verus! {

/// `a` is greater than `b` exactly when `b` is less than `a`, whether
/// compared exactly or after conversion to `f64`.
pub proof fn lemma_compare_flip(a: Seq<u8>, b: Seq<u8>, hint: ScanValueView)
    ensures
        compares(a, b, hint, Comparison::Greater) == compares(b, a, hint, Comparison::Less),
        compares_exact(a, b, hint, Comparison::Greater) == compares_exact(b, a, hint, Comparison::Less),
{
}

/// No reading is both greater and less than another.
pub proof fn lemma_compare_exclusive(a: Seq<u8>, b: Seq<u8>, hint: ScanValueView)
    ensures
        !(compares(a, b, hint, Comparison::Greater) && compares(a, b, hint, Comparison::Less)),
        !(compares_exact(a, b, hint, Comparison::Greater) && compares_exact(a, b, hint, Comparison::Less)),
{
}

} // verus!


verus! {

/// Whether `hint` is one of the integer kinds.
pub open spec fn is_integer_kind(hint: ScanValueView) -> bool {
    hint.is_numeric() && !hint.is_float()
}

/// The integer that `bytes` hold as a number of the integer kind of `hint`.
pub open spec fn integer_value(bytes: Seq<u8>, hint: ScanValueView) -> int {
    let u = le_value(bytes);
    match hint {
        ScanValueView::I8(_) => signed_of(u, 1),
        ScanValueView::I16(_) => signed_of(u, 2),
        ScanValueView::I32(_) => signed_of(u, 4),
        ScanValueView::I64(_) => signed_of(u, 8),
        _ => u as int,
    }
}

/// Integer readings compare exactly as the integers they hold, at every
/// width; after conversion to `f64` they compare the same way for kinds of
/// up to 32 bits, and for 64-bit kinds never wrongly (a reading found
/// greater or less holds a greater or smaller number; two numbers that
/// round to the same `f64` compare neither way).
pub proof fn lemma_integer_compare(a: Seq<u8>, b: Seq<u8>, hint: ScanValueView)
    requires
        is_integer_kind(hint),
        a.len() == hint.byte_size(),
        b.len() == hint.byte_size(),
    ensures
        compares_exact(a, b, hint, Comparison::Greater) <==> integer_value(a, hint) > integer_value(b, hint),
        compares_exact(a, b, hint, Comparison::Less) <==> integer_value(a, hint) < integer_value(b, hint),
        compares(a, b, hint, Comparison::Greater) ==> integer_value(a, hint) > integer_value(b, hint),
        compares(a, b, hint, Comparison::Less) ==> integer_value(a, hint) < integer_value(b, hint),
        !(hint is I64 || hint is U64) ==> compares(a, b, hint, Comparison::Greater) == compares_exact(
            a,
            b,
            hint,
            Comparison::Greater,
        ),
        !(hint is I64 || hint is U64) ==> compares(a, b, hint, Comparison::Less) == compares_exact(
            a,
            b,
            hint,
            Comparison::Less,
        ),
{
    lemma_pow256_values();
    lemma_le_value_bound(a);
    lemma_le_value_bound(b);
    let x = integer_value(a, hint);
    let y = integer_value(b, hint);
    match hint {
        ScanValueView::I64(_) => {
            lemma_round_bound(if x >= 0 { x as nat } else { (-x) as nat });
            lemma_round_bound(if y >= 0 { y as nat } else { (-y) as nat });
            assert(-0x8000_0000_0000_0000 <= x < 0x8000_0000_0000_0000);
            assert(-0x8000_0000_0000_0000 <= y < 0x8000_0000_0000_0000);
            let rx = round_int_to_f64(x);
            let ry = round_int_to_f64(y);
            assert(-0x1_0000_0000_0000_0000 <= rx <= 0x1_0000_0000_0000_0000);
            assert(-0x1_0000_0000_0000_0000 <= ry <= 0x1_0000_0000_0000_0000);
            assert(numeric_key(a, hint) == Some(NumericKey::Number(rx as i128)));
            assert(numeric_key(b, hint) == Some(NumericKey::Number(ry as i128)));
            if x <= y {
                lemma_round_int_monotone(x, y);
            }
            if y <= x {
                lemma_round_int_monotone(y, x);
            }
        },
        ScanValueView::U64(_) => {
            lemma_round_bound(x as nat);
            lemma_round_bound(y as nat);
            if x <= y {
                lemma_round_monotone(x as nat, y as nat);
            }
            if y <= x {
                lemma_round_monotone(y as nat, x as nat);
            }
        },
        _ => {},
    }
}

} // verus!

verus! {

/// The sign and the magnitude bits (all bits but the sign) of a
/// floating-point reading of the kind of `hint`.
pub open spec fn float_parts(bytes: Seq<u8>, hint: ScanValueView) -> (bool, nat) {
    let u = le_value(bytes);
    if hint is F32 {
        (u >= 0x8000_0000, u % 0x8000_0000)
    } else {
        (u >= 0x8000_0000_0000_0000, u % 0x8000_0000_0000_0000)
    }
}

/// Whether a floating-point reading of the kind of `hint` is a NaN: all
/// exponent bits set and a fraction that is not zero.
pub open spec fn is_nan_reading(bytes: Seq<u8>, hint: ScanValueView) -> bool {
    if hint is F32 {
        float_parts(bytes, hint).1 > 0x7F80_0000
    } else {
        float_parts(bytes, hint).1 > 0x7FF0_0000_0000_0000
    }
}

/// IEEE 754 order of two values that are not NaNs, given by sign and
/// magnitude bits: magnitudes order as their bit patterns, both zeros are
/// equal, and negative values lie below positive ones.
pub open spec fn ieee_greater(a: (bool, nat), b: (bool, nat)) -> bool {
    if a.1 == 0 && b.1 == 0 {
        false
    } else if !a.0 && !b.0 {
        a.1 > b.1
    } else if a.0 && b.0 {
        a.1 < b.1
    } else {
        !a.0
    }
}

/// Floating-point readings compare by their IEEE 754 value, exactly and
/// after conversion to `f64` alike: a NaN compares neither way, and other
/// readings are greater or less as `ieee_greater` orders them (so -5.0 is
/// greater than -10.0, and every negative value less than every positive one).
pub proof fn lemma_float_compare(a: Seq<u8>, b: Seq<u8>, hint: ScanValueView)
    requires
        hint.is_float(),
        a.len() == hint.byte_size(),
        b.len() == hint.byte_size(),
    ensures
        (is_nan_reading(a, hint) || is_nan_reading(b, hint)) ==> {
            &&& !compares_exact(a, b, hint, Comparison::Greater)
            &&& !compares_exact(a, b, hint, Comparison::Less)
            &&& !compares(a, b, hint, Comparison::Greater)
            &&& !compares(a, b, hint, Comparison::Less)
        },
        !is_nan_reading(a, hint) && !is_nan_reading(b, hint) ==> {
            let pa = float_parts(a, hint);
            let pb = float_parts(b, hint);
            &&& compares_exact(a, b, hint, Comparison::Greater) == ieee_greater(pa, pb)
            &&& compares_exact(a, b, hint, Comparison::Less) == ieee_greater(pb, pa)
            &&& compares(a, b, hint, Comparison::Greater) == ieee_greater(pa, pb)
            &&& compares(a, b, hint, Comparison::Less) == ieee_greater(pb, pa)
        },
{
    lemma_pow256_values();
    lemma_le_value_bound(a);
    lemma_le_value_bound(b);
}

} // verus!
