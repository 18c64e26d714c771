//! String parsing.
//!
//! The accepted grammar is `[-]digits['.'digits]`: a sign is legal only
//! directly before the integer digits, both digit groups must be non-empty,
//! and no other characters may appear.  Fractional digits beyond the
//! precision `D` are truncated toward zero, never rounded.  A malformed
//! string and a value that does not fit the storage type fail with the same
//! error.

use vstd::prelude::*;
use vstd::string::StrSliceExecFns;
use crate::arith::{
    lemma_pow10_mono, lemma_pow10_pos, lemma_pow10_values, pow10, pow10_u64,
};
use crate::digits::{
    all_digits, digit_of, digits_val, is_digit, lemma_digits_take_div,
    lemma_digits_val_prefix,
};
use crate::fixed::FixedPoint;
use crate::number::Number;

verus! {

/// Error of string parsing: the input is not a decimal literal of the
/// grammar, or its value does not fit the storage type.  The two cases are
/// deliberately not distinguished.
#[derive(Clone, Copy, Debug, PartialEq, Eq)]
pub struct ParseError;

/// Index of the first `'.'` in `s`, or `-1` if there is none.
pub open spec fn first_dot(s: Seq<char>) -> int
    decreases s.len(),
{
    if s.len() == 0 {
        -1
    } else if s[0] == '.' {
        0
    } else {
        let r = first_dot(s.drop_first());
        if r < 0 {
            -1
        } else {
            r + 1
        }
    }
}

/// Whether the literal carries a leading minus sign.
pub open spec fn lit_neg(s: Seq<char>) -> bool {
    s.len() > 0 && s[0] == '-'
}

/// The literal without its sign.
pub open spec fn lit_body(s: Seq<char>) -> Seq<char> {
    if lit_neg(s) {
        s.drop_first()
    } else {
        s
    }
}

/// The digits before the first `'.'` of the unsigned body.
pub open spec fn int_digits(b: Seq<char>) -> Seq<char> {
    let d = first_dot(b);
    if d < 0 {
        b
    } else {
        b.take(d)
    }
}

/// The digits after the first `'.'` of the unsigned body.
pub open spec fn frac_digits(b: Seq<char>) -> Seq<char> {
    let d = first_dot(b);
    if d < 0 {
        Seq::empty()
    } else {
        b.skip(d + 1)
    }
}

/// The literal shape `[-]digits['.'digits]`.
pub open spec fn lit_well_formed(s: Seq<char>) -> bool {
    let b = lit_body(s);
    &&& int_digits(b).len() > 0
    &&& all_digits(int_digits(b))
    &&& (first_dot(b) >= 0 ==> frac_digits(b).len() > 0 && all_digits(frac_digits(b)))
}

/// The fractional digits `f` scaled to `d` digits: padded with trailing
/// zeros when `d` exceeds their count, truncated toward zero otherwise.  The
/// counted length is capped at 255, the largest exponent the representation
/// admits.
pub open spec fn frac_scaled(f: Seq<char>, d: nat) -> nat {
    let l: nat = if f.len() <= 255 {
        f.len()
    } else {
        255nat
    };
    if d >= l {
        digits_val(f) * pow10((d - l) as nat)
    } else {
        digits_val(f) / pow10((l - d) as nat)
    }
}

/// The magnitude of a well-formed literal scaled to `d` decimal digits.
pub open spec fn lit_mag(s: Seq<char>, d: nat) -> nat {
    let b = lit_body(s);
    digits_val(int_digits(b)) * pow10(d) + frac_scaled(frac_digits(b), d)
}

/// The stored integer a well-formed literal denotes at precision `d`.
pub open spec fn lit_value(s: Seq<char>, d: nat) -> int {
    if lit_neg(s) {
        -(lit_mag(s, d) as int)
    } else {
        lit_mag(s, d) as int
    }
}

pub(crate) proof fn lemma_first_dot_found(s: Seq<char>, k: int)
    requires
        0 <= k < s.len(),
        s[k] == '.',
        forall|j: int| 0 <= j < k ==> s[j] != '.',
    ensures
        first_dot(s) == k,
    decreases s.len(),
{
    if k > 0 {
        lemma_first_dot_found(s.drop_first(), k - 1);
    }
}

pub(crate) proof fn lemma_first_dot_none(s: Seq<char>)
    requires
        forall|j: int| 0 <= j < s.len() ==> s[j] != '.',
    ensures
        first_dot(s) == -1,
    decreases s.len(),
{
    if s.len() > 0 {
        lemma_first_dot_none(s.drop_first());
    }
}

/// A value whose magnitude exceeds 64 bits fits no storage kind.
proof fn lemma_outside_storage<T: Number>(v: int)
    requires
        v > 0xffff_ffff_ffff_ffff || v < -0x8000_0000_0000_0000,
    ensures
        !(T::min_val() <= v <= T::max_val()),
{
    T::lemma_range();
}

/// Collect the characters of a string.
pub(crate) fn chars_vec(s: &str) -> (v: Vec<char>)
    ensures
        v@ == s@,
{
    let n = s.unicode_len();
    let mut v: Vec<char> = Vec::new();
    let mut i: usize = 0;
    while i < n
        invariant
            i <= n,
            n == s@.len(),
            v@ == s@.take(i as int),
        decreases n - i,
    {
        let c = s.get_char(i);
        v.push(c);
        i = i + 1;
        proof {
            assert(v@ =~= s@.take(i as int));
        }
    }
    proof {
        assert(v@ =~= s@);
    }
    v
}

/// Read the number written by the digit characters `v[start..end]`, if it
/// fits in 64 bits.
fn digits_to_u64(v: &Vec<char>, start: usize, end: usize) -> (r: Option<u64>)
    requires
        start <= end <= v@.len(),
        all_digits(v@.subrange(start as int, end as int)),
    ensures
        match r {
            Some(m) => m as nat == digits_val(v@.subrange(start as int, end as int)),
            None => digits_val(v@.subrange(start as int, end as int)) > u64::MAX,
        },
{
    let ghost whole = v@.subrange(start as int, end as int);
    let mut acc: u64 = 0;
    let mut i: usize = start;
    while i < end
        invariant
            start <= i <= end <= v@.len(),
            all_digits(whole),
            whole == v@.subrange(start as int, end as int),
            acc as nat == digits_val(v@.subrange(start as int, i as int)),
        decreases end - i,
    {
        let ghost pre = v@.subrange(start as int, i as int);
        proof {
            assert(whole[i - start] == v@[i as int]);
            assert(v@.subrange(start as int, (i + 1) as int) =~= pre.push(v@[i as int]));
            assert(pre.push(v@[i as int]).drop_last() =~= pre);
        }
        let d = digit_of(v[i]).unwrap();
        let next = match acc.checked_mul(10) {
            Some(x) => x.checked_add(d as u64),
            None => None,
        };
        match next {
            Some(x) => {
                acc = x;
            },
            None => {
                proof {
                    assert(digits_val(v@.subrange(start as int, (i + 1) as int)) == acc * 10
                        + d);
                    assert(v@.subrange(start as int, (i + 1) as int) =~= whole.take(
                        i + 1 - start,
                    ));
                    lemma_digits_val_prefix(whole, i + 1 - start);
                }
                return None;
            },
        }
        i = i + 1;
    }
    proof {
        assert(whole =~= v@.subrange(start as int, i as int));
    }
    Some(acc)
}

/// Parse the characters of a decimal literal `[-]digits['.'digits]` into a
/// storage integer scaled to `d` decimal digits.
#[verifier::rlimit(100)]
#[verifier::loop_isolation(false)]
pub(crate) fn parse_chars<T: Number>(v: &Vec<char>, d: u8) -> (r: Option<T>)
    ensures
        r is Some <==> lit_well_formed(v@) && T::min_val() <= lit_value(v@, d as nat)
            <= T::max_val(),
        r is Some ==> r->Some_0.as_int() == lit_value(v@, d as nat),
{
    proof {
        T::lemma_range();
        lemma_pow10_pos(d as nat);
    }
    let n = v.len();
    if n == 0 {
        return None;
    }
    let neg = v[0] == '-';
    let start: usize = if neg {
        1
    } else {
        0
    };
    let ghost b = lit_body(v@);
    proof {
        assert(b =~= v@.skip(start as int));
    }
    // Find the first dot, if any; `n` means none.
    let mut dot: usize = n;
    let mut i: usize = start;
    while i < n
        invariant
            start <= i <= n,
            n == v@.len(),
            dot == n ==> forall|j: int| start <= j < i ==> v@[j] != '.',
            dot < n ==> start <= dot < i && v@[dot as int] == '.' && (forall|j: int|
                start <= j < dot ==> v@[j] != '.'),
            dot <= n,
        decreases n - i,
    {
        if dot == n && v[i] == '.' {
            dot = i;
        }
        i = i + 1;
    }
    proof {
        if dot == n {
            lemma_first_dot_none(b);
        } else {
            lemma_first_dot_found(b, dot - start);
        }
    }
    let ihi: usize = if dot < n {
        dot
    } else {
        n
    };
    let ghost ip = int_digits(b);
    proof {
        assert(ip =~= v@.subrange(start as int, ihi as int));
    }
    if ihi == start {
        // empty integer part
        proof {
            assert(ip.len() == 0);
            assert(!lit_well_formed(v@));
        }
        return None;
    }
    // Validate the integer digits.
    let mut i: usize = start;
    while i < ihi
        invariant
            start <= i <= ihi <= n,
            n == v@.len(),
            ip == v@.subrange(start as int, ihi as int),
            forall|j: int| 0 <= j < i - start ==> is_digit(#[trigger] ip[j]),
        decreases ihi - i,
    {
        proof {
            assert(ip[i - start] == v@[i as int]);
        }
        if digit_of(v[i]).is_none() {
            proof {
                assert(!is_digit(ip[i - start]));
                assert(!lit_well_formed(v@));
            }
            return None;
        }
        i = i + 1;
    }
    assert(all_digits(ip));
    // Validate the fractional digits.
    let ghost f = frac_digits(b);
    let flo: usize = if dot < n {
        dot + 1
    } else {
        n
    };
    proof {
        if dot < n {
            assert(f =~= v@.subrange(flo as int, n as int));
        } else {
            assert(f =~= Seq::<char>::empty());
        }
    }
    if dot < n {
        if flo == n {
            // empty fractional part
            proof {
                assert(first_dot(b) == dot - start >= 0);
                assert(frac_digits(b).len() == 0);
                assert(!lit_well_formed(v@));
            }
            return None;
        }
        let mut i: usize = flo;
        while i < n
            invariant
                flo <= i <= n,
                n == v@.len(),
                f == v@.subrange(flo as int, n as int),
                forall|j: int| 0 <= j < i - flo ==> is_digit(#[trigger] f[j]),
            decreases n - i,
        {
            proof {
                assert(f[i - flo] == v@[i as int]);
            }
            if digit_of(v[i]).is_none() {
                proof {
                    assert(!is_digit(f[i - flo]));
                    assert(first_dot(b) >= 0);
                    assert(!lit_well_formed(v@));
                }
                return None;
            }
            i = i + 1;
        }
        assert(all_digits(f));
    }
    assert(lit_well_formed(v@));
    let ghost ip_val = digits_val(ip);
    let ghost f_scaled = frac_scaled(f, d as nat);
    let ghost mag = lit_mag(v@, d as nat);
    proof {
        assert(ip_val * pow10(d as nat) >= ip_val) by (nonlinear_arith)
            requires
                pow10(d as nat) >= 1,
                ip_val >= 0,
        ;
    }
    // The magnitude of the integer part.
    let ip_mag: u64 = match digits_to_u64(v, start, ihi) {
        Some(m) => m,
        None => {
            proof {
                lemma_outside_storage::<T>(lit_value(v@, d as nat));
            }
            return None;
        },
    };
    // The magnitude the fractional digits contribute after scaling to `d`.
    let frac_mag: u64;
    if dot == n {
        frac_mag = 0;
        proof {
            assert(f.len() == 0);
            assert(digits_val(f) == 0);
            assert(f_scaled == 0nat * pow10(d as nat));
            assert(0nat * pow10(d as nat) == 0) by (nonlinear_arith);
        }
    } else {
        let flen: usize = n - flo;
        if flen <= d as usize {
            proof {
                lemma_pow10_pos((d as nat - f.len()) as nat);
                assert(f_scaled == digits_val(f) * pow10((d as nat - f.len()) as nat));
            }
            let m: u64 = match digits_to_u64(v, flo, n) {
                Some(m) => m,
                None => {
                    proof {
                        assert(f_scaled >= digits_val(f)) by (nonlinear_arith)
                            requires
                                f_scaled == digits_val(f) * pow10((d as nat - f.len()) as nat),
                                pow10((d as nat - f.len()) as nat) >= 1,
                                digits_val(f) >= 0,
                        ;
                        lemma_outside_storage::<T>(lit_value(v@, d as nat));
                    }
                    return None;
                },
            };
            let e: u8 = d - (flen as u8);
            proof {
                lemma_pow10_pos(e as nat);
                assert(e as nat == (d as nat - f.len()) as nat);
            }
            if m == 0 {
                frac_mag = 0;
                proof {
                    assert(f_scaled == 0nat * pow10(e as nat));
                    assert(0nat * pow10(e as nat) == 0) by (nonlinear_arith);
                }
            } else if e >= 20 {
                proof {
                    lemma_pow10_values();
                    lemma_pow10_mono(20, e as nat);
                    assert(f_scaled > u64::MAX) by (nonlinear_arith)
                        requires
                            f_scaled == digits_val(f) * pow10(e as nat),
                            digits_val(f) >= 1,
                            pow10(e as nat) > u64::MAX,
                    ;
                    lemma_outside_storage::<T>(lit_value(v@, d as nat));
                }
                return None;
            } else {
                let p = pow10_u64(e);
                match m.checked_mul(p) {
                    Some(x) => {
                        frac_mag = x;
                    },
                    None => {
                        proof {
                            lemma_outside_storage::<T>(lit_value(v@, d as nat));
                        }
                        return None;
                    },
                }
            }
        } else {
            // More fractional digits than precision: truncate toward zero.
            let keep: usize = if flen <= 255 {
                d as usize
            } else {
                flen - 255 + d as usize
            };
            let ghost l: nat = if f.len() <= 255 {
                f.len()
            } else {
                255nat
            };
            proof {
                lemma_digits_take_div(f, (l - d as nat) as nat);
                assert(f.take(f.len() - (l - d as nat)) =~= v@.subrange(
                    flo as int,
                    (flo + keep) as int,
                ));
                assert(all_digits(v@.subrange(flo as int, (flo + keep) as int)));
                if d as nat >= l {
                    // only possible when both are 255
                    assert(l == d as nat);
                    assert(pow10(0) == 1);
                    assert(f_scaled == digits_val(f) * 1nat);
                    assert(digits_val(f) * 1nat == digits_val(f)) by (nonlinear_arith);
                    assert(digits_val(f) / 1nat == digits_val(f));
                } else {
                    assert(f_scaled == digits_val(f) / pow10((l - d as nat) as nat));
                }
                assert(digits_val(v@.subrange(flo as int, (flo + keep) as int)) == f_scaled);
            }
            match digits_to_u64(v, flo, flo + keep) {
                Some(m) => {
                    frac_mag = m;
                },
                None => {
                    proof {
                        lemma_outside_storage::<T>(lit_value(v@, d as nat));
                    }
                    return None;
                },
            }
        }
    }
    assert(frac_mag as nat == f_scaled);
    // Combine: magnitude = integer part * 10^d + fractional contribution.
    let scaled: u64;
    if ip_mag == 0 {
        scaled = 0;
        proof {
            assert(ip_val == 0);
            assert(0nat * pow10(d as nat) == 0) by (nonlinear_arith);
        }
    } else if d >= 20 {
        proof {
            lemma_pow10_values();
            lemma_pow10_mono(20, d as nat);
            assert(ip_val * pow10(d as nat) > u64::MAX) by (nonlinear_arith)
                requires
                    ip_val >= 1,
                    pow10(d as nat) > u64::MAX,
            ;
            lemma_outside_storage::<T>(lit_value(v@, d as nat));
        }
        return None;
    } else {
        let p = pow10_u64(d);
        match ip_mag.checked_mul(p) {
            Some(x) => {
                scaled = x;
            },
            None => {
                proof {
                    lemma_outside_storage::<T>(lit_value(v@, d as nat));
                }
                return None;
            },
        }
    }
    let total: u64 = match scaled.checked_add(frac_mag) {
        Some(x) => x,
        None => {
            proof {
                lemma_outside_storage::<T>(lit_value(v@, d as nat));
            }
            return None;
        },
    };
    assert(total as nat == mag);
    T::from_sign_magnitude(neg, total)
}

impl<T: Number, const D: u8> FixedPoint<T, D> {
    /// Parse the decimal string `s` of shape `[-]digits['.'digits]`.
    /// Fractional digits beyond `D` are truncated toward zero.  Parsing
    /// succeeds exactly when the string is well formed and the scaled value
    /// fits the storage type.
    pub fn parse_str(s: &str) -> (r: Result<Self, ParseError>)
        ensures
            r is Ok <==> lit_well_formed(s@) && T::min_val() <= lit_value(s@, D as nat)
                <= T::max_val(),
            r is Ok ==> r->Ok_0.stored_int() == lit_value(s@, D as nat),
    {
        let v = chars_vec(s);
        match parse_chars::<T>(&v, D) {
            Some(t) => Ok(FixedPoint(t)),
            None => Err(ParseError),
        }
    }
}

impl<T: Number, const D: u8> core::str::FromStr for FixedPoint<T, D> {
    type Err = ParseError;

    fn from_str(s: &str) -> Result<Self, ParseError> {
        Self::parse_str(s)
    }
}

} // verus!
