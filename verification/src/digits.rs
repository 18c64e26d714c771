//! Decimal digit strings and their numeric values.
//!
//! Parsing and formatting are both specified through `digits_val`, the number
//! written by a sequence of digit characters, and `dec_digits`, the canonical
//! digit string of a number.

use vstd::prelude::*;
use crate::arith::{
    lemma_div_mul_plus_rem, lemma_pow10_add, lemma_pow10_pos, pow10,
};
use vstd::arithmetic::div_mod::lemma_fundamental_div_mod;
use vstd::arithmetic::mul::lemma_mul_inequality;

verus! {

/// The numeric value of a decimal digit character, if it is one.
pub open spec fn digit_val(c: char) -> Option<nat> {
    if c == '0' {
        Some(0nat)
    } else if c == '1' {
        Some(1nat)
    } else if c == '2' {
        Some(2nat)
    } else if c == '3' {
        Some(3nat)
    } else if c == '4' {
        Some(4nat)
    } else if c == '5' {
        Some(5nat)
    } else if c == '6' {
        Some(6nat)
    } else if c == '7' {
        Some(7nat)
    } else if c == '8' {
        Some(8nat)
    } else if c == '9' {
        Some(9nat)
    } else {
        None
    }
}

pub open spec fn is_digit(c: char) -> bool {
    digit_val(c) is Some
}

pub open spec fn all_digits(s: Seq<char>) -> bool {
    forall|i: int| 0 <= i < s.len() ==> is_digit(#[trigger] s[i])
}

/// The number written by a sequence of digit characters; zero for the empty
/// sequence.
pub open spec fn digits_val(s: Seq<char>) -> nat
    decreases s.len(),
{
    if s.len() == 0 {
        0nat
    } else {
        digits_val(s.drop_last()) * 10 + digit_val(s.last())->Some_0
    }
}

/// The digit character of a value below ten.
pub open spec fn char_of_digit(d: nat) -> char {
    if d == 0 {
        '0'
    } else if d == 1 {
        '1'
    } else if d == 2 {
        '2'
    } else if d == 3 {
        '3'
    } else if d == 4 {
        '4'
    } else if d == 5 {
        '5'
    } else if d == 6 {
        '6'
    } else if d == 7 {
        '7'
    } else if d == 8 {
        '8'
    } else {
        '9'
    }
}

/// The canonical decimal digit string of `n`: no leading zero except for
/// zero itself.
pub open spec fn dec_digits(n: nat) -> Seq<char>
    decreases n,
{
    if n < 10 {
        seq![char_of_digit(n)]
    } else {
        dec_digits(n / 10).push(char_of_digit(n % 10))
    }
}

/// A run of zero digit characters.
pub open spec fn zero_chars(k: nat) -> Seq<char> {
    Seq::new(k, |i: int| '0')
}

/// A digit string of length `n` writes a number below `10^n`.
pub proof fn lemma_digits_val_bound(s: Seq<char>)
    requires
        all_digits(s),
    ensures
        digits_val(s) < pow10(s.len()),
    decreases s.len(),
{
    if s.len() == 0 {
    } else {
        lemma_digits_val_bound(s.drop_last());
        assert(digit_val(s.last())->Some_0 <= 9);
        assert(pow10(s.len()) == 10 * pow10((s.len() - 1) as nat));
    }
}

/// Concatenation splits the written number.
pub proof fn lemma_digits_val_split(a: Seq<char>, b: Seq<char>)
    ensures
        digits_val(a + b) == digits_val(a) * pow10(b.len()) + digits_val(b),
    decreases b.len(),
{
    if b.len() == 0 {
        assert(a + b =~= a);
        assert(digits_val(a) * 1 == digits_val(a)) by (nonlinear_arith);
    } else {
        lemma_digits_val_split(a, b.drop_last());
        assert((a + b).drop_last() =~= a + b.drop_last());
        assert((a + b).last() == b.last());
        let va = digits_val(a);
        let vb = digits_val(b.drop_last());
        let p = pow10(b.drop_last().len());
        assert(pow10(b.len()) == 10 * p);
        assert((va * p + vb) * 10 == va * (10 * p) + vb * 10) by (nonlinear_arith);
    }
}

/// A prefix never writes a larger number.
pub proof fn lemma_digits_val_prefix(s: Seq<char>, j: int)
    requires
        0 <= j <= s.len(),
    ensures
        digits_val(s) >= digits_val(s.take(j)),
{
    assert(s =~= s.take(j) + s.skip(j));
    lemma_digits_val_split(s.take(j), s.skip(j));
    lemma_pow10_pos(s.skip(j).len());
    lemma_mul_inequality(1, pow10(s.skip(j).len()) as int, digits_val(s.take(j)) as int);
    assert(digits_val(s.take(j)) * 1 == digits_val(s.take(j))) by (nonlinear_arith);
}

/// The canonical digit string of `n` writes `n`, consists of digits, and has
/// as many digits as `n` needs.
pub proof fn lemma_dec_digits(n: nat)
    ensures
        all_digits(dec_digits(n)),
        digits_val(dec_digits(n)) == n,
        1 <= dec_digits(n).len(),
        n < pow10(dec_digits(n).len()),
    decreases n,
{
    if n < 10 {
        let s = dec_digits(n);
        assert(s.drop_last() =~= Seq::<char>::empty());
        assert(digits_val(Seq::<char>::empty()) == 0);
        assert(digit_val(char_of_digit(n)) == Some(n));
        assert(pow10(0) == 1);
        assert(pow10(1) == 10);
    } else {
        lemma_dec_digits(n / 10);
        let s = dec_digits(n);
        let head = dec_digits(n / 10);
        assert(s.drop_last() =~= head);
        assert(s.last() == char_of_digit(n % 10));
        lemma_fundamental_div_mod(n as int, 10);
        assert(digit_val(char_of_digit(n % 10)) == Some(n % 10));
        assert(digits_val(s) == (n / 10) * 10 + n % 10);
        assert(pow10(s.len()) == 10 * pow10(head.len()));
        assert((n / 10) < pow10(head.len()) ==> n == (n / 10) * 10 + n % 10 ==> n % 10 < 10 ==> n
            < 10 * pow10(head.len())) by (nonlinear_arith);
    }
}

/// If `n < 10^k` then its digit string has at most `k` digits.
pub proof fn lemma_dec_digits_len(n: nat, k: nat)
    requires
        n < pow10(k),
        1 <= k,
    ensures
        dec_digits(n).len() <= k,
    decreases n,
{
    if n < 10 {
    } else {
        assert(pow10(k) == 10 * pow10((k - 1) as nat));
        lemma_fundamental_div_mod(n as int, 10);
        assert(n / 10 < pow10((k - 1) as nat)) by (nonlinear_arith)
            requires
                n < 10 * pow10((k - 1) as nat),
                n == (n / 10) * 10 + n % 10,
                0 <= n % 10 < 10,
        ;
        lemma_pow10_pos((k - 1) as nat);
        if k - 1 == 0 {
            assert(n / 10 < 1);
            assert(n < 10);
        } else {
            lemma_dec_digits_len(n / 10, (k - 1) as nat);
        }
    }
}

/// Leading zeros do not change the written number.
pub proof fn lemma_digits_val_leading_zeros(k: nat, s: Seq<char>)
    ensures
        digits_val(zero_chars(k) + s) == digits_val(s),
{
    lemma_zero_chars_val(k);
    lemma_digits_val_split(zero_chars(k), s);
}

pub proof fn lemma_zero_chars_val(k: nat)
    ensures
        all_digits(zero_chars(k)),
        digits_val(zero_chars(k)) == 0,
    decreases k,
{
    if k == 0 {
    } else {
        lemma_zero_chars_val((k - 1) as nat);
        assert(zero_chars(k).drop_last() =~= zero_chars((k - 1) as nat));
        assert(zero_chars(k).last() == '0');
    }
}

/// Dropping the last `k` digits divides the written number by `10^k`.
pub proof fn lemma_digits_take_div(s: Seq<char>, k: nat)
    requires
        all_digits(s),
        k <= s.len(),
    ensures
        digits_val(s.take(s.len() - k)) == digits_val(s) / pow10(k),
{
    let j = s.len() - k;
    assert(s =~= s.take(j as int) + s.skip(j as int));
    lemma_digits_val_split(s.take(j as int), s.skip(j as int));
    assert(all_digits(s.skip(j as int)));
    lemma_digits_val_bound(s.skip(j as int));
    lemma_pow10_pos(k);
    assert(s.skip(j as int).len() == k);
    lemma_div_mul_plus_rem(
        digits_val(s.take(j as int)) as int,
        pow10(k) as int,
        digits_val(s.skip(j as int)) as int,
    );
}

/// Decimal digit characters, exec side.
pub fn digit_of(c: char) -> (r: Option<u8>)
    ensures
        match r {
            Some(d) => digit_val(c) == Some(d as nat) && d < 10,
            None => digit_val(c) is None,
        },
{
    match c {
        '0' => Some(0),
        '1' => Some(1),
        '2' => Some(2),
        '3' => Some(3),
        '4' => Some(4),
        '5' => Some(5),
        '6' => Some(6),
        '7' => Some(7),
        '8' => Some(8),
        '9' => Some(9),
        _ => None,
    }
}

} // verus!
