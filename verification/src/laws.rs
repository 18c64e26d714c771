//! Round-trip law relating formatting and parsing.
//!
//! The canonical display of any stored value is a well-formed literal, and
//! parsing it at the same precision gives back exactly the stored value.
//! Formatting is therefore idempotent across a reparse.

use vstd::prelude::*;
use vstd::math::abs;
use vstd::arithmetic::div_mod::{
    lemma_div_basics, lemma_div_is_strictly_smaller, lemma_fundamental_div_mod,
    lemma_mod_division_less_than_divisor, lemma_multiply_divide_lt,
};
use crate::arith::{
    lemma_div_mul_plus_rem, lemma_pow10_add, lemma_pow10_mono, lemma_pow10_pos, lemma_udiv_bounds,
    pow10,
};
use crate::digits::{
    all_digits, dec_digits, digits_val, is_digit, lemma_dec_digits, lemma_dec_digits_len,
    lemma_digits_val_leading_zeros, lemma_zero_chars_val, zero_chars,
};
use crate::display::{spec_format, trailing_zeros};
use crate::fixed::FixedPoint;
use crate::number::Number;
use crate::parse::{
    first_dot, frac_digits, frac_scaled, int_digits, lemma_first_dot_found, lit_body, lit_mag,
    lit_neg, lit_value, lit_well_formed,
};

verus! {

/// A positive number splits into its trailing-zero count and a residue not
/// ending in zero.
proof fn lemma_trailing_zeros_decompose(n: nat)
    requires
        n >= 1,
    ensures
        ({
            let z = trailing_zeros(n);
            let fr = n / pow10(z);
            &&& n == fr * pow10(z)
            &&& fr % 10 != 0
            &&& fr >= 1
        }),
    decreases n,
{
    let z = trailing_zeros(n);
    if n % 10 != 0 {
        assert(z == 0);
        assert(pow10(0) == 1);
        lemma_div_basics(n as int);
        assert(n / 1 == n);
        assert(n == n * 1) by (nonlinear_arith);
    } else {
        lemma_fundamental_div_mod(n as int, 10);
        let m = n / 10;
        assert(n == 10 * m);
        assert(m >= 1);
        lemma_div_is_strictly_smaller(n as int, 10);
        lemma_trailing_zeros_decompose(m);
        let z1 = trailing_zeros(m);
        assert(z == 1 + z1);
        let fr = m / pow10(z1);
        assert(pow10(z) == 10 * pow10(z1));
        assert(n == fr * pow10(z)) by (nonlinear_arith)
            requires
                n == 10 * m,
                m == fr * pow10(z1),
                pow10(z) == 10 * pow10(z1),
        ;
        lemma_pow10_pos(z);
        lemma_div_mul_plus_rem(fr as int, pow10(z) as int, 0);
        assert(n / pow10(z) == fr);
    }
}

/// Shape of a formatted literal `[sign] integer-digits '.' fraction-digits`:
/// its sign, integer and fraction pieces read back as written.
proof fn lemma_lit_structure(neg: bool, ipd: Seq<char>, fd: Seq<char>)
    requires
        all_digits(ipd),
        ipd.len() >= 1,
        all_digits(fd),
        fd.len() >= 1,
    ensures
        ({
            let sign: Seq<char> = if neg {
                seq!['-']
            } else {
                Seq::empty()
            };
            let s = sign + ipd + seq!['.'] + fd;
            &&& lit_neg(s) == neg
            &&& int_digits(lit_body(s)) == ipd
            &&& frac_digits(lit_body(s)) == fd
            &&& first_dot(lit_body(s)) == ipd.len()
            &&& lit_well_formed(s)
        }),
{
    let sign: Seq<char> = if neg {
        seq!['-']
    } else {
        Seq::empty()
    };
    let s = sign + ipd + seq!['.'] + fd;
    let b = lit_body(s);
    if neg {
        assert(s[0] == '-');
        assert(b =~= ipd + seq!['.'] + fd);
    } else {
        assert(s[0] == ipd[0]);
        assert(is_digit(ipd[0]));
        assert(s[0] != '-');
        assert(b =~= ipd + seq!['.'] + fd);
    }
    let k = ipd.len() as int;
    assert(b[k] == '.');
    assert forall|j: int| 0 <= j < k implies b[j] != '.' by {
        assert(b[j] == ipd[j]);
        assert(is_digit(ipd[j]));
    }
    lemma_first_dot_found(b, k);
    assert(int_digits(b) =~= ipd);
    assert(frac_digits(b) =~= fd);
}

/// The canonical display of a stored value is a well-formed literal which
/// parses back, at the same precision, to exactly that stored value.
pub proof fn lemma_format_parse_round_trip(x: int, d: nat)
    requires
        d <= 255,
    ensures
        lit_well_formed(spec_format(x, d)),
        lit_value(spec_format(x, d), d) == x,
{
    let mag = abs(x);
    let p = pow10(d);
    lemma_pow10_pos(d);
    lemma_fundamental_div_mod(mag as int, p as int);
    lemma_mod_division_less_than_divisor(mag as int, p as int);
    lemma_udiv_bounds(mag as int, p as int);
    let ip = mag / p;
    let frac = mag % p;
    lemma_dec_digits(ip);
    let ipd = dec_digits(ip);
    let s = spec_format(x, d);
    let neg = x < 0;
    let sign: Seq<char> = if neg {
        seq!['-']
    } else {
        Seq::empty()
    };
    if d == 0 || frac == 0 {
        if d == 0 {
            assert(pow10(0) == 1);
            lemma_div_basics(mag as int);
            assert(frac == 0);
            assert(ip == mag);
        }
        let fd = seq!['0'];
        assert(all_digits(fd));
        lemma_lit_structure(neg, ipd, fd);
        assert(s =~= sign + ipd + seq!['.'] + fd);
        let b = lit_body(s);
        assert(int_digits(b) == ipd);
        assert(frac_digits(b) == fd);
        assert(fd.drop_last() =~= Seq::<char>::empty());
        assert(digits_val(Seq::<char>::empty()) == 0);
        assert(fd.last() == '0');
        assert(digits_val(fd) == 0);
        if d >= 1 {
            assert(frac_scaled(fd, d) == 0nat * pow10((d - 1) as nat));
            assert(0nat * pow10((d - 1) as nat) == 0) by (nonlinear_arith);
        } else {
            assert(pow10(1) == 10);
            assert(frac_scaled(fd, d) == digits_val(fd) / pow10(1));
            lemma_div_basics(10);
        }
        assert(lit_mag(s, d) == ip * p);
        assert(mag == p * ip + 0);
        assert(ip * p == p * ip) by (nonlinear_arith);
        assert(lit_mag(s, d) == mag);
    } else {
        let z = trailing_zeros(frac);
        lemma_trailing_zeros_decompose(frac);
        let fr = frac / pow10(z);
        assert(frac == fr * pow10(z));
        // z < d because pow10(z) <= frac < pow10(d)
        lemma_pow10_pos(z);
        assert(fr * pow10(z) >= pow10(z)) by (nonlinear_arith)
            requires
                fr >= 1,
                pow10(z) >= 1,
        ;
        if z >= d {
            lemma_pow10_mono(d, z);
            assert(false);
        }
        let width = (d - z) as nat;
        lemma_pow10_add(z, width);
        assert(frac < pow10(z) * pow10(width));
        lemma_multiply_divide_lt(frac as int, pow10(z) as int, pow10(width) as int);
        assert(fr < pow10(width));
        lemma_dec_digits(fr);
        lemma_dec_digits_len(fr, width);
        let dl = dec_digits(fr);
        let pad = (width - dl.len()) as nat;
        let fd = zero_chars(pad) + dl;
        lemma_zero_chars_val(pad);
        assert(all_digits(fd)) by {
            assert forall|j: int| 0 <= j < fd.len() implies is_digit(fd[j]) by {
                if j < pad {
                    assert(fd[j] == zero_chars(pad)[j]);
                } else {
                    assert(fd[j] == dl[j - pad]);
                }
            }
        }
        assert(fd.len() == width >= 1);
        lemma_lit_structure(neg, ipd, fd);
        assert(s =~= sign + ipd + seq!['.'] + fd);
        let b = lit_body(s);
        assert(int_digits(b) == ipd);
        assert(frac_digits(b) == fd);
        lemma_digits_val_leading_zeros(pad, dl);
        assert(digits_val(fd) == fr);
        // fd has width <= d <= 255 digits, so the scaled fraction pads by
        // exactly the stripped trailing zeros.
        assert(frac_scaled(fd, d) == fr * pow10(z));
        assert(lit_mag(s, d) == ip * p + frac);
        assert(mag == p * ip + frac);
        assert(ip * p == p * ip) by (nonlinear_arith);
        assert(lit_mag(s, d) == mag);
    }
}

/// The display of a negative value always begins with a minus sign, even
/// when the integer part alone is zero.
pub proof fn lemma_negative_sign_preserved(x: int, d: nat)
    requires
        x < 0,
    ensures
        spec_format(x, d).len() > 0,
        spec_format(x, d)[0] == '-',
{
    let mag = abs(x);
    let p = pow10(d);
    lemma_dec_digits(mag / p);
}

impl<T: Number, const D: u8> FixedPoint<T, D> {
    /// Round trip for a concrete value: its display is well formed, denotes
    /// its own stored integer, and that integer fits the storage type, so
    /// parsing the display at the same precision returns an identical value.
    pub proof fn lemma_display_round_trip(self)
        ensures
            lit_well_formed(spec_format(self.stored_int(), D as nat)),
            lit_value(spec_format(self.stored_int(), D as nat), D as nat) == self.stored_int(),
            T::min_val() <= lit_value(spec_format(self.stored_int(), D as nat), D as nat)
                <= T::max_val(),
    {
        self.0.lemma_in_range();
        lemma_format_parse_round_trip(self.stored_int(), D as nat);
    }
}

} // verus!
