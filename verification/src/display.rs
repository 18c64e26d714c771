//! Canonical string formatting.
//!
//! The display of a value is `integer '.' fraction`: the integer part with
//! its sign, then the `D` fractional digits with trailing zeros elided but at
//! least one digit kept, zero-padded on the left to the remaining width.  A
//! negative value whose integer part is zero still shows its leading minus.
//! Formatting never rounds.

use vstd::prelude::*;
use vstd::math::abs;
use vstd::string::{StrSliceExecFns, StringExecFns};
use crate::arith::{
    lemma_pow10_mono, lemma_pow10_pos, lemma_pow10_values, pow10, pow10_u64,
};
use vstd::arithmetic::div_mod::{
    lemma_basic_div, lemma_div_decreases, lemma_div_denominator, lemma_multiply_divide_lt,
    lemma_small_mod,
};
use crate::digits::{
    char_of_digit, dec_digits, lemma_dec_digits, lemma_dec_digits_len, zero_chars,
};
use crate::fixed::FixedPoint;
use crate::number::Number;

verus! {

/// Number of trailing zero digits of `n`; zero for zero itself.
pub open spec fn trailing_zeros(n: nat) -> nat
    decreases n,
{
    if n == 0 || n % 10 != 0 {
        0nat
    } else {
        proof {
            lemma_div_decreases(n as int, 10);
        }
        1 + trailing_zeros(n / 10)
    }
}

/// The canonical display of the stored value `v` at precision `d`.
pub open spec fn spec_format(v: int, d: nat) -> Seq<char> {
    let mag = abs(v);
    let ip = mag / pow10(d);
    let frac = mag % pow10(d);
    let sign: Seq<char> = if v < 0 {
        seq!['-']
    } else {
        Seq::empty()
    };
    if d == 0 || frac == 0 {
        sign + dec_digits(ip) + seq!['.', '0']
    } else {
        let z = trailing_zeros(frac);
        let fr = frac / pow10(z);
        let width = (d - z) as nat;
        sign + dec_digits(ip) + seq!['.'] + zero_chars((width - dec_digits(fr).len()) as nat)
            + dec_digits(fr)
    }
}

/// The one-character string of a digit.
fn digit_str(d: u8) -> (s: &'static str)
    requires
        d < 10,
    ensures
        s@ == seq![char_of_digit(d as nat)],
{
    let r: &'static str = match d {
        0 => "0",
        1 => "1",
        2 => "2",
        3 => "3",
        4 => "4",
        5 => "5",
        6 => "6",
        7 => "7",
        8 => "8",
        _ => "9",
    };
    proof {
        reveal_strlit("0");
        reveal_strlit("1");
        reveal_strlit("2");
        reveal_strlit("3");
        reveal_strlit("4");
        reveal_strlit("5");
        reveal_strlit("6");
        reveal_strlit("7");
        reveal_strlit("8");
        reveal_strlit("9");
        assert(r@ =~= seq![char_of_digit(d as nat)]);
    }
    r
}

/// The decimal digit string of `n`.
fn u64_digits_str(n: u64) -> (s: String)
    ensures
        s@ == dec_digits(n as nat),
    decreases n,
{
    if n < 10 {
        digit_str(n as u8).to_owned()
    } else {
        let mut s = u64_digits_str(n / 10);
        s.append(digit_str((n % 10) as u8));
        proof {
            assert(s@ =~= dec_digits((n / 10) as nat).push(char_of_digit((n % 10) as nat)));
        }
        s
    }
}

/// A run of `k` zero characters.
fn zeros_string(k: usize) -> (s: String)
    ensures
        s@ == zero_chars(k as nat),
{
    let mut s = String::new();
    let mut i: usize = 0;
    proof {
        assert(s@ =~= zero_chars(0));
    }
    while i < k
        invariant
            i <= k,
            s@ == zero_chars(i as nat),
        decreases k - i,
    {
        s.append("0");
        i = i + 1;
        proof {
            reveal_strlit("0");
            assert(s@ =~= zero_chars(i as nat));
        }
    }
    s
}

impl<T: Number, const D: u8> FixedPoint<T, D> {
    /// The canonical string form of the value: the integer part, a point,
    /// and the fractional digits with trailing zeros stripped but at least
    /// one digit kept.  A negative value keeps its minus sign even when the
    /// integer part alone is zero.  No rounding ever happens here.
    #[verifier::rlimit(100)]
    #[verifier::loop_isolation(false)]
    pub fn format(&self) -> (s: String)
        ensures
            s@ == spec_format(self.stored_int(), D as nat),
    {
        let ghost v = self.stored_int();
        let neg = self.0.is_negative();
        let mag = self.0.magnitude_u64();
        proof {
            lemma_pow10_pos(D as nat);
        }
        let ip: u64;
        let frac: u64;
        if D >= 20 {
            proof {
                lemma_pow10_values();
                lemma_pow10_mono(20, D as nat);
                lemma_basic_div(mag as int, pow10(D as nat) as int);
                lemma_small_mod(mag as nat, pow10(D as nat));
            }
            ip = 0;
            frac = mag;
        } else {
            let p = pow10_u64(D);
            ip = mag / p;
            frac = mag % p;
        }
        proof {
            assert(ip as nat == abs(v) / pow10(D as nat));
            assert(frac as nat == abs(v) % pow10(D as nat));
        }
        let mut out = String::new();
        if neg {
            out.append("-");
        }
        let ips = u64_digits_str(ip);
        out.append(ips.as_str());
        out.append(".");
        let ghost sign: Seq<char> = if v < 0 {
            seq!['-']
        } else {
            Seq::empty()
        };
        proof {
            reveal_strlit("-");
            reveal_strlit(".");
            assert(out@ =~= sign + dec_digits(ip as nat) + seq!['.']);
        }
        if D == 0 || frac == 0 {
            out.append("0");
            proof {
                reveal_strlit("0");
                assert(out@ =~= sign + dec_digits(ip as nat) + seq!['.', '0']);
            }
            return out;
        }
        // Strip trailing zeros from the fractional remainder, shrinking the
        // display width accordingly.
        let mut f: u64 = frac;
        let mut width: usize = D as usize;
        proof {
            assert(pow10(0) == 1);
            assert(f as nat == frac as nat / pow10(0));
            assert((f as nat) < pow10(width as nat));
        }
        while f % 10 == 0
            invariant
                1 <= width <= D,
                1 <= f,
                f as nat == frac as nat / pow10((D - width) as nat),
                (f as nat) < pow10(width as nat),
                trailing_zeros(frac as nat) == (D - width) as nat + trailing_zeros(f as nat),
            decreases f,
        {
            proof {
                assert(f >= 10);
                assert(pow10(width as nat) > 10);
                if width < 2 {
                    assert(pow10(1) == 10);
                    assert(false);
                }
                lemma_pow10_pos((D - width) as nat);
                lemma_div_denominator(
                    frac as int,
                    pow10((D - width) as nat) as int,
                    10,
                );
                assert(pow10((D - width + 1) as nat) == 10 * pow10((D - width) as nat));
                assert(pow10((D - width) as nat) as int * 10 == 10 * pow10(
                    (D - width) as nat,
                ) as int) by (nonlinear_arith);
                assert(pow10(width as nat) == 10 * pow10((width - 1) as nat));
                lemma_multiply_divide_lt(f as int, 10, pow10((width - 1) as nat) as int);
                lemma_div_decreases(f as int, 10);
            }
            f = f / 10;
            width = width - 1;
        }
        let ghost z = trailing_zeros(frac as nat);
        proof {
            assert(trailing_zeros(f as nat) == 0);
            assert(z == (D - width) as nat);
            assert(f as nat == frac as nat / pow10(z));
            lemma_dec_digits(f as nat);
            lemma_dec_digits_len(f as nat, width as nat);
        }
        let frs = u64_digits_str(f);
        let flen = frs.as_str().unicode_len();
        let zs = zeros_string(width - flen);
        out.append(zs.as_str());
        out.append(frs.as_str());
        proof {
            assert(out@ =~= sign + dec_digits(ip as nat) + seq!['.'] + zero_chars(
                (width - flen) as nat,
            ) + dec_digits(f as nat));
        }
        out
    }
}

} // verus!
