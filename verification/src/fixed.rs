//! The fixed-point value type.
//!
//! `FixedPoint<T, D>` holds a stored integer of type `T` standing for the
//! decimal value `stored / 10^D`.  The precision `D` is part of the type, so
//! values of different precision cannot be mixed by accident.

use vstd::prelude::*;
use crate::arith::{
    lemma_pow10_mono, lemma_pow10_pos, lemma_tdiv_tmod, pow10, tdiv, tmod,
};
use crate::number::Number;

verus! {

/// A decimal number with exactly `D` decimal digits, stored as the integer
/// `stored = value * 10^D` of type `T`.  The sign of the stored integer
/// carries the sign of the whole value.
#[derive(Clone, Copy, Debug, Default, PartialEq, PartialOrd)]
pub struct FixedPoint<T, const D: u8>(pub T);

/// `v * 10^i` stays inside a range containing zero whenever `v * 10^e` does,
/// for `i <= e`.
proof fn lemma_scaled_between(v: int, i: nat, e: nat, lo: int, hi: int)
    requires
        i <= e,
        lo <= v * pow10(e) <= hi,
        lo <= 0 <= hi,
    ensures
        lo <= v * pow10(i) <= hi,
{
    lemma_pow10_mono(i, e);
    lemma_pow10_pos(i);
    if v >= 0 {
        assert(0 <= v * pow10(i) <= v * pow10(e)) by (nonlinear_arith)
            requires
                v >= 0,
                0 < pow10(i) <= pow10(e),
        ;
    } else {
        assert(v * pow10(e) <= v * pow10(i) < 0) by (nonlinear_arith)
            requires
                v < 0,
                0 < pow10(i) <= pow10(e),
        ;
    }
}

/// `10^e` as a storage integer.
pub(crate) fn ten_pow_t<T: Number>(e: u8) -> (r: T)
    requires
        pow10(e as nat) <= T::max_val(),
    ensures
        r.as_int() == pow10(e as nat),
{
    let mut i: u8 = 0;
    let mut acc: T = T::one();
    proof {
        T::lemma_range();
    }
    while i < e
        invariant
            i <= e,
            acc.as_int() == pow10(i as nat),
            pow10(e as nat) <= T::max_val(),
            T::min_val() <= 0,
        decreases e - i,
    {
        proof {
            lemma_pow10_mono((i + 1) as nat, e as nat);
            lemma_pow10_pos(i as nat);
            assert(pow10((i + 1) as nat) == 10 * pow10(i as nat));
        }
        acc = acc.mul10();
        i = i + 1;
    }
    acc
}

impl<T: Number, const D: u8> FixedPoint<T, D> {
    /// The stored integer as a mathematical value.
    pub open spec fn stored_int(self) -> int {
        self.0.as_int()
    }

    /// The number of decimal digits of the type.
    pub fn decimal_length(self) -> (r: u8)
        ensures
            r == D,
    {
        D
    }

    /// `10^D`, the factor relating the stored integer to the decimal value.
    pub fn exp(self) -> (r: usize)
        requires
            pow10(D as nat) <= usize::MAX,
        ensures
            r as nat == pow10(D as nat),
    {
        let mut i: u8 = 0;
        let mut acc: usize = 1;
        while i < D
            invariant
                i <= D,
                acc as nat == pow10(i as nat),
                pow10(D as nat) <= usize::MAX,
            decreases D - i,
        {
            proof {
                lemma_pow10_mono((i + 1) as nat, D as nat);
                lemma_pow10_pos(i as nat);
                assert(pow10((i + 1) as nat) == 10 * pow10(i as nat));
            }
            acc = acc * 10;
            i = i + 1;
        }
        acc
    }

    /// Rescale `number`, an integer already scaled to `decimal` fractional
    /// digits, to the `D` digits of this type by multiplying with
    /// `10^(D - decimal)`.
    pub fn new(number: T, decimal: u8) -> (r: Self)
        requires
            decimal <= D,
            T::min_val() <= number.as_int() * pow10((D - decimal) as nat) <= T::max_val(),
        ensures
            r.stored_int() == number.as_int() * pow10((D - decimal) as nat),
    {
        let e: u8 = D - decimal;
        let mut i: u8 = 0;
        let mut acc: T = number;
        proof {
            T::lemma_range();
            assert(pow10(0) == 1);
            assert(number.as_int() * 1 == number.as_int()) by (nonlinear_arith);
        }
        while i < e
            invariant
                i <= e,
                acc.as_int() == number.as_int() * pow10(i as nat),
                T::min_val() <= number.as_int() * pow10(e as nat) <= T::max_val(),
                T::min_val() <= 0 <= T::max_val(),
            decreases e - i,
    {
            proof {
                lemma_scaled_between(
                    number.as_int(),
                    (i + 1) as nat,
                    e as nat,
                    T::min_val(),
                    T::max_val(),
                );
                assert(pow10((i + 1) as nat) == 10 * pow10(i as nat));
                assert(number.as_int() * pow10((i + 1) as nat) == (number.as_int() * pow10(
                    i as nat,
                )) * 10) by (nonlinear_arith)
                    requires
                        pow10((i + 1) as nat) == 10 * pow10(i as nat),
                ;
            }
            acc = acc.mul10();
            i = i + 1;
        }
        FixedPoint(acc)
    }

    /// The integer part `stored / 10^D`, truncating toward zero, so that the
    /// sign follows the stored value.
    pub fn integer(&self) -> (r: T)
        requires
            pow10(D as nat) <= T::max_val(),
        ensures
            r.as_int() == tdiv(self.stored_int(), pow10(D as nat) as int),
    {
        let p: T = ten_pow_t::<T>(D);
        proof {
            lemma_pow10_pos(D as nat);
        }
        self.0.div_trunc(p)
    }

    /// The decimal remainder `stored % 10^D`; it keeps the sign of the
    /// stored value.
    pub fn decimal(&self) -> (r: T)
        requires
            pow10(D as nat) <= T::max_val(),
        ensures
            r.as_int() == tmod(self.stored_int(), pow10(D as nat) as int),
    {
        let p: T = ten_pow_t::<T>(D);
        proof {
            lemma_pow10_pos(D as nat);
        }
        self.0.rem_trunc(p)
    }

    /// Divide the stored integer by a plain scalar.  Truncation happens on
    /// the stored integer, not on the decimal value: dividing the stored
    /// representation of `1.0` (ten at one digit) by three stores three,
    /// that is `0.3`.
    pub fn div_scalar(self, divisor: T) -> (r: Self)
        requires
            divisor.as_int() != 0,
            !(self.stored_int() == T::min_val() && divisor.as_int() == -1),
        ensures
            r.stored_int() == tdiv(self.stored_int(), divisor.as_int()),
    {
        FixedPoint(self.0.div_trunc(divisor))
    }

    /// The integer part and the decimal remainder reassemble the stored
    /// value: `integer() * 10^D + decimal() == stored`.
    pub proof fn lemma_integer_decimal(self)
        ensures
            pow10(D as nat) * tdiv(self.stored_int(), pow10(D as nat) as int) + tmod(
                self.stored_int(),
                pow10(D as nat) as int,
            ) == self.stored_int(),
    {
        lemma_pow10_pos(D as nat);
        lemma_tdiv_tmod(self.stored_int(), pow10(D as nat) as int);
    }
}

} // verus!
