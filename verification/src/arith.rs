//! Powers of ten and truncating integer division.
//!
//! The decimal scaling of the fixed-point type is expressed with `pow10`,
//! and its division and remainder semantics with `tdiv` / `tmod`, which
//! truncate toward zero (the remainder keeps the sign of the dividend).

use vstd::prelude::*;
use vstd::arithmetic::div_mod::{
    lemma_div_is_ordered_by_denominator, lemma_div_nonincreasing, lemma_div_pos_is_pos,
    lemma_fundamental_div_mod, lemma_fundamental_div_mod_converse_div,
    lemma_fundamental_div_mod_converse_mod, lemma_mod_division_less_than_divisor,
};
use vstd::arithmetic::mul::lemma_mul_inequality;
use vstd::math::abs;

verus! {

/// `10^n`, the factor relating a stored integer to the decimal value it
/// stands for.
pub open spec fn pow10(n: nat) -> nat
    decreases n,
{
    if n == 0 {
        1nat
    } else {
        10 * pow10((n - 1) as nat)
    }
}

pub proof fn lemma_pow10_pos(n: nat)
    ensures
        pow10(n) >= 1,
    decreases n,
{
    if n > 0 {
        lemma_pow10_pos((n - 1) as nat);
    }
}

pub proof fn lemma_pow10_add(a: nat, b: nat)
    ensures
        pow10(a + b) == pow10(a) * pow10(b),
    decreases a,
{
    if a == 0 {
        assert(pow10(b) == 1 * pow10(b));
    } else {
        lemma_pow10_add((a - 1) as nat, b);
        assert((a + b - 1) as nat == (a - 1) as nat + b);
        assert(10 * (pow10((a - 1) as nat) * pow10(b)) == (10 * pow10((a - 1) as nat)) * pow10(
            b,
        )) by (nonlinear_arith);
    }
}

pub proof fn lemma_pow10_mono(a: nat, b: nat)
    requires
        a <= b,
    ensures
        pow10(a) <= pow10(b),
{
    lemma_pow10_add(a, (b - a) as nat);
    lemma_pow10_pos(a);
    lemma_pow10_pos((b - a) as nat);
    lemma_mul_inequality(1, pow10((b - a) as nat) as int, pow10(a) as int);
    assert(pow10(a) * 1 <= pow10(a) * pow10((b - a) as nat)) by (nonlinear_arith)
        requires
            1 <= pow10((b - a) as nat),
            0 <= pow10(a),
    ;
}

/// Concrete values around the `u64` range, used when parsing and formatting
/// compute magnitudes in 64 bits.
pub proof fn lemma_pow10_values()
    ensures
        pow10(19) == 10_000_000_000_000_000_000,
        pow10(20) == 100_000_000_000_000_000_000,
{
    reveal_with_fuel(pow10, 21);
}

/// Division truncating toward zero: the quotient of the magnitudes, with the
/// sign of the exact quotient.
pub open spec fn tdiv(a: int, b: int) -> int {
    if (a < 0) == (b < 0) {
        (abs(a) / abs(b)) as int
    } else {
        -((abs(a) / abs(b)) as int)
    }
}

/// Remainder of truncating division: keeps the sign of the dividend.
pub open spec fn tmod(a: int, b: int) -> int {
    if a < 0 {
        -((abs(a) % abs(b)) as int)
    } else {
        (abs(a) % abs(b)) as int
    }
}

/// Truncating division and remainder reassemble the dividend, the remainder
/// is smaller than the divisor, and the quotient no larger than the dividend,
/// all in magnitude.
pub proof fn lemma_tdiv_tmod(a: int, b: int)
    requires
        b != 0,
    ensures
        b * tdiv(a, b) + tmod(a, b) == a,
        abs(tmod(a, b)) < abs(b),
        abs(tdiv(a, b)) <= abs(a),
{
    let am = abs(a) as int;
    let bm = abs(b) as int;
    let q = am / bm;
    let r = am % bm;
    lemma_fundamental_div_mod(am, bm);
    lemma_mod_division_less_than_divisor(am, bm);
    lemma_div_pos_is_pos(am, bm);
    lemma_div_nonincreasing(am, bm);
    assert(bm * q + r == am);
    if a >= 0 && b > 0 {
        assert(b * tdiv(a, b) + tmod(a, b) == a);
    } else if a >= 0 && b < 0 {
        assert(b * (-q) == bm * q) by (nonlinear_arith)
            requires
                bm == -b,
        ;
    } else if a < 0 && b > 0 {
        assert(b * (-q) + (-r) == -(bm * q + r)) by (nonlinear_arith)
            requires
                bm == b,
        ;
    } else {
        assert(b * q + (-r) == -(bm * q + r)) by (nonlinear_arith)
            requires
                bm == -b,
        ;
    }
}

/// For a nonnegative dividend and positive divisor the quotient lies between
/// zero and the dividend.
pub proof fn lemma_udiv_bounds(a: int, b: int)
    requires
        0 <= a,
        1 <= b,
    ensures
        0 <= a / b <= a,
{
    lemma_div_pos_is_pos(a, b);
    lemma_div_nonincreasing(a, b);
}

/// Dividing by at least two gives at most half.
pub proof fn lemma_udiv_by_ge2(a: int, b: int)
    requires
        0 <= a,
        2 <= b,
    ensures
        0 <= a / b <= a / 2,
{
    lemma_div_pos_is_pos(a, b);
    lemma_div_is_ordered_by_denominator(a, 2, b);
}

/// `10^e` in 64 bits; defined for the exponents that fit, up to `10^19`.
pub fn pow10_u64(e: u8) -> (r: u64)
    requires
        e <= 19,
    ensures
        r as nat == pow10(e as nat),
{
    let mut i: u8 = 0;
    let mut acc: u64 = 1;
    while i < e
        invariant
            i <= e <= 19,
            acc as nat == pow10(i as nat),
        decreases e - i,
    {
        proof {
            lemma_pow10_mono((i + 1) as nat, 19);
            lemma_pow10_values();
            assert(pow10((i + 1) as nat) == 10 * pow10(i as nat));
        }
        acc = acc * 10;
        i = i + 1;
    }
    acc
}

/// `(q * p + r) / p == q` and `(q * p + r) % p == r` whenever `0 <= r < p`.
pub proof fn lemma_div_mul_plus_rem(q: int, p: int, r: int)
    requires
        1 <= p,
        0 <= r < p,
    ensures
        (q * p + r) / p == q,
        (q * p + r) % p == r,
{
    lemma_fundamental_div_mod_converse_div(q * p + r, p, q, r);
    lemma_fundamental_div_mod_converse_mod(q * p + r, p, q, r);
}

} // verus!
