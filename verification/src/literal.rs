//! Construction from decimal literal tokens.
//!
//! A token has the shape `[-]digits['.'digits][suffix]`, where underscores
//! are ignored as pure formatting and the optional suffix names an integer
//! kind, such as `u16` in `1.25u16`.  The storage kind itself comes from the
//! type the token is parsed into; a present suffix is only checked for
//! shape.  With `from_literal` the type's precision `D` plays the part of an
//! explicitly given precision; with `from_literal_inferred` the token's own
//! fractional digit count must equal `D`, as inference would choose it.

use vstd::prelude::*;
use crate::digits::{digit_of, is_digit};
use crate::fixed::FixedPoint;
use crate::number::Number;
use crate::parse::{
    chars_vec, frac_digits, lemma_first_dot_found, lemma_first_dot_none, lit_body,
    lit_value, lit_well_formed, parse_chars,
};

verus! {

/// The characters that may appear before the suffix of a token.
pub open spec fn is_body_char(c: char) -> bool {
    is_digit(c) || c == '.' || c == '_' || c == '-'
}

/// Index where the suffix of the token starts: the first position holding
/// no digit, point, underscore or minus; the length if there is none.
pub open spec fn suffix_start(s: Seq<char>) -> int
    decreases s.len(),
{
    if s.len() == 0 {
        0
    } else if !is_body_char(s[0]) {
        0
    } else {
        1 + suffix_start(s.drop_first())
    }
}

/// The integer-kind suffixes a token may carry.
pub open spec fn suffix_ok(suf: Seq<char>) -> bool {
    ||| suf == "i8"@
    ||| suf == "u8"@
    ||| suf == "i16"@
    ||| suf == "u16"@
    ||| suf == "i32"@
    ||| suf == "u32"@
    ||| suf == "i64"@
    ||| suf == "u64"@
    ||| suf == "i128"@
    ||| suf == "u128"@
    ||| suf == "isize"@
    ||| suf == "usize"@
}

/// The token with its suffix removed and its underscores dropped.
pub open spec fn strip_underscores(s: Seq<char>) -> Seq<char>
    decreases s.len(),
{
    if s.len() == 0 {
        Seq::empty()
    } else if s.last() == '_' {
        strip_underscores(s.drop_last())
    } else {
        strip_underscores(s.drop_last()).push(s.last())
    }
}

/// The decimal literal a token encloses.
pub open spec fn token_body(s: Seq<char>) -> Seq<char> {
    strip_underscores(s.take(suffix_start(s)))
}

/// A token is well formed when its suffix, if any, names an integer kind
/// and its body is a decimal literal.
pub open spec fn token_well_formed(s: Seq<char>) -> bool {
    let k = suffix_start(s);
    &&& (k == s.len() || suffix_ok(s.skip(k)))
    &&& lit_well_formed(token_body(s))
}

/// The stored integer a well-formed token denotes at precision `d`.
pub open spec fn token_value(s: Seq<char>, d: nat) -> int {
    lit_value(token_body(s), d)
}

/// The number of fractional digits the token itself carries; the precision
/// inference would choose.
pub open spec fn token_frac_len(s: Seq<char>) -> nat {
    frac_digits(lit_body(token_body(s))).len()
}

proof fn lemma_suffix_start_at(s: Seq<char>, k: int)
    requires
        0 <= k <= s.len(),
        forall|j: int| 0 <= j < k ==> is_body_char(#[trigger] s[j]),
        k < s.len() ==> !is_body_char(s[k]),
    ensures
        suffix_start(s) == k,
    decreases s.len(),
{
    if s.len() > 0 && k > 0 {
        lemma_suffix_start_at(s.drop_first(), k - 1);
    }
}

fn is_body_char_at(v: &Vec<char>, i: usize) -> (b: bool)
    requires
        i < v@.len(),
    ensures
        b == is_body_char(v@[i as int]),
{
    let c = v[i];
    digit_of(c).is_some() || c == '.' || c == '_' || c == '-'
}

/// Whether `v[lo..hi]` spells exactly the string `t`.
fn range_eq_str(v: &Vec<char>, lo: usize, hi: usize, t: &str) -> (r: bool)
    requires
        lo <= hi <= v@.len(),
    ensures
        r == (v@.subrange(lo as int, hi as int) == t@),
{
    let tn = t.unicode_len();
    if hi - lo != tn {
        return false;
    }
    let mut i: usize = 0;
    while i < tn
        invariant
            i <= tn,
            tn == t@.len(),
            lo <= hi <= v@.len(),
            hi - lo == tn,
            forall|j: int| 0 <= j < i ==> v@[lo + j] == t@[j],
        decreases tn - i,
    {
        if v[lo + i] != t.get_char(i) {
            proof {
                assert(v@.subrange(lo as int, hi as int)[i as int] != t@[i as int]);
            }
            return false;
        }
        i = i + 1;
    }
    proof {
        assert(v@.subrange(lo as int, hi as int) =~= t@);
    }
    true
}

/// Split the token: validate the suffix and return the cleaned body.
fn token_body_vec(v: &Vec<char>) -> (r: Option<Vec<char>>)
    ensures
        r is Some <==> (suffix_start(v@) == v@.len() || suffix_ok(v@.skip(suffix_start(v@)))),
        r is Some ==> r->Some_0@ == token_body(v@),
{
    let n = v.len();
    let mut k: usize = 0;
    while k < n && is_body_char_at(v, k)
        invariant
            k <= n,
            n == v@.len(),
            forall|j: int| 0 <= j < k ==> is_body_char(#[trigger] v@[j]),
        decreases n - k,
    {
        k = k + 1;
    }
    proof {
        lemma_suffix_start_at(v@, k as int);
    }
    if k < n {
        let ok = range_eq_str(v, k, n, "i8") || range_eq_str(v, k, n, "u8") || range_eq_str(
            v,
            k,
            n,
            "i16",
        ) || range_eq_str(v, k, n, "u16") || range_eq_str(v, k, n, "i32") || range_eq_str(
            v,
            k,
            n,
            "u32",
        ) || range_eq_str(v, k, n, "i64") || range_eq_str(v, k, n, "u64") || range_eq_str(
            v,
            k,
            n,
            "i128",
        ) || range_eq_str(v, k, n, "u128") || range_eq_str(v, k, n, "isize") || range_eq_str(
            v,
            k,
            n,
            "usize",
        );
        proof {
            assert(v@.subrange(k as int, n as int) =~= v@.skip(k as int));
        }
        if !ok {
            return None;
        }
    }
    let mut body: Vec<char> = Vec::new();
    let mut i: usize = 0;
    proof {
        assert(v@.take(0) =~= Seq::<char>::empty());
    }
    while i < k
        invariant
            i <= k <= n,
            n == v@.len(),
            body@ == strip_underscores(v@.take(i as int)),
        decreases k - i,
    {
        let c = v[i];
        proof {
            assert(v@.take(i + 1).drop_last() =~= v@.take(i as int));
            assert(v@.take(i + 1).last() == v@[i as int]);
        }
        if c != '_' {
            body.push(c);
        }
        i = i + 1;
    }
    Some(body)
}

impl<T: Number, const D: u8> FixedPoint<T, D> {
    /// Construct a value from a decimal literal token
    /// `[-]digits['.'digits][suffix]`; underscores among the digits are
    /// ignored.  The type's own precision `D` acts as the explicitly given
    /// precision: fractional digits are padded or truncated to `D` exactly
    /// as string parsing does.
    pub fn from_literal(lit: &str) -> (r: Option<Self>)
        ensures
            r is Some <==> token_well_formed(lit@) && T::min_val() <= token_value(
                lit@,
                D as nat,
            ) <= T::max_val(),
            r is Some ==> r->Some_0.stored_int() == token_value(lit@, D as nat),
    {
        let v = chars_vec(lit);
        let body = match token_body_vec(&v) {
            Some(b) => b,
            None => {
                return None;
            },
        };
        match parse_chars::<T>(&body, D) {
            Some(t) => Some(FixedPoint(t)),
            None => None,
        }
    }

    /// Construct a value from a decimal literal token whose precision is
    /// inferred: the token's own fractional digit count (zero without a
    /// point) must equal `D`.
    pub fn from_literal_inferred(lit: &str) -> (r: Option<Self>)
        ensures
            r is Some <==> token_well_formed(lit@) && token_frac_len(lit@) == D as nat
                && T::min_val() <= token_value(lit@, D as nat) <= T::max_val(),
            r is Some ==> r->Some_0.stored_int() == token_value(lit@, D as nat),
    {
        let v = chars_vec(lit);
        let body = match token_body_vec(&v) {
            Some(b) => b,
            None => {
                return None;
            },
        };
        let flen = frac_len_of(&body);
        if flen != D as usize {
            return None;
        }
        match parse_chars::<T>(&body, D) {
            Some(t) => Some(FixedPoint(t)),
            None => None,
        }
    }
}

/// The fractional digit count of a literal's characters.
#[verifier::loop_isolation(false)]
fn frac_len_of(body: &Vec<char>) -> (r: usize)
    ensures
        r as nat == frac_digits(lit_body(body@)).len(),
{
    let n = body.len();
    let start: usize = if n > 0 && body[0] == '-' {
        1
    } else {
        0
    };
    let ghost b = lit_body(body@);
    proof {
        assert(b =~= body@.skip(start as int));
    }
    let mut dot: usize = n;
    let mut i: usize = start;
    while i < n
        invariant
            start <= i <= n,
            n == body@.len(),
            dot == n ==> forall|j: int| start <= j < i ==> body@[j] != '.',
            dot < n ==> start <= dot < i && body@[dot as int] == '.' && (forall|j: int|
                start <= j < dot ==> body@[j] != '.'),
            dot <= n,
        decreases n - i,
    {
        if dot == n && body[i] == '.' {
            dot = i;
        }
        i = i + 1;
    }
    proof {
        if dot == n {
            lemma_first_dot_none(b);
        } else {
            lemma_first_dot_found(b, dot - start);
        }
    }
    if dot == n {
        0
    } else {
        proof {
            assert(frac_digits(b) =~= body@.skip(dot + 1));
        }
        n - dot - 1
    }
}

} // verus!
