//! Numbers as the text of a parameter gives them.
//!
//! A real is kept as the shortest decimal text of a double. Two doubles are equal where their
//! texts are, but for the two zeros. An integer is compared with them as the double nearest
//! to it.

use vstd::prelude::*;

use crate::ast::{ParamView, Parameter};
use crate::read::{digits_value, is_digit};
use crate::text::{same_text, text_chars};

verus! {

/// How often a number is halved until a double holds it exactly.
pub open spec fn halvings(n: nat) -> nat
    decreases n,
{
    if n < 0x20_0000_0000_0000 {
        0
    } else {
        1 + halvings(n / 2)
    }
}

pub open spec fn power_of_two(k: nat) -> nat
    decreases k,
{
    if k == 0 {
        1
    } else {
        2 * power_of_two((k - 1) as nat)
    }
}

/// The whole number that is the double nearest to a whole number; of two nearest ones the
/// one with the even significand.
pub open spec fn nearest_double(n: nat) -> nat {
    let scale = power_of_two(halvings(n));
    let low = n / scale;
    let rest = n % scale;
    if 2 * rest > scale || (2 * rest == scale && low % 2 == 1) {
        (low + 1) * scale
    } else {
        low * scale
    }
}

pub open spec fn magnitude(v: i64) -> nat {
    if v < 0 {
        (-v) as nat
    } else {
        v as nat
    }
}

/// Whether a text is made of digits, and of one at least.
pub open spec fn all_digits(s: Seq<char>) -> bool {
    s.len() > 0 && forall|i: int| 0 <= i < s.len() ==> is_digit(#[trigger] s[i])
}

/// The whole number that a text of digits with an optional sign stands for, where its
/// magnitude is below 2^64. Zero has no sign.
pub open spec fn whole_text(s: Seq<char>) -> Option<(bool, nat)> {
    let negative = s.len() > 0 && s[0] == '-';
    let digits = if negative {
        s.drop_first()
    } else {
        s
    };
    if all_digits(digits) && digits_value(digits) <= u64::MAX {
        Some((negative && digits_value(digits) != 0, nearest_double(digits_value(digits))))
    } else {
        None
    }
}

/// The whole number that a numeric parameter stands for, if it is one below 2^64.
pub open spec fn whole_number(p: ParamView) -> Option<(bool, nat)> {
    match p {
        ParamView::Integer(v) => Some(
            (
                v < 0,
                nearest_double(magnitude(v)),
            ),
        ),
        ParamView::Real(s) => whole_text(s),
        _ => None,
    }
}

pub open spec fn is_number(p: ParamView) -> bool {
    p is Integer || p is Real
}

/// A number that is neither infinite nor undefined.
pub open spec fn is_finite_number(p: ParamView) -> bool {
    match p {
        ParamView::Integer(_) => true,
        ParamView::Real(s) => s != "inf"@ && s != "-inf"@ && s != "NaN"@,
        _ => false,
    }
}

/// Two finite numbers are equal as doubles.
pub open spec fn same_number(a: ParamView, b: ParamView) -> bool {
    match (whole_number(a), whole_number(b)) {
        (Some(x), Some(y)) => x == y,
        (None, None) => a == b,
        _ => false,
    }
}

pub proof fn lemma_halvings(n: nat)
    requires
        n <= u64::MAX,
    ensures
        halvings(n) <= 11,
        power_of_two(halvings(n)) <= 2048,
        power_of_two(halvings(n)) >= 1,
{
    reveal_with_fuel(halvings, 13);
    reveal_with_fuel(power_of_two, 13);
}

/// The double nearest to a whole number.
pub fn nearest_double_of(n: u64) -> (out: u128)
    ensures
        out == nearest_double(n as nat),
{
    let mut scale: u128 = 1;
    let mut top: u64 = n;
    let ghost mut k: nat = 0;
    proof {
        lemma_halvings(n as nat);
    }
    while top >= 0x20_0000_0000_0000
        invariant
            halvings(n as nat) == k + halvings(top as nat),
            halvings(n as nat) <= 11,
            scale == power_of_two(k),
            scale <= 2048,
            k <= 11,
        decreases top,
    {
        top = top / 2;
        proof {
            k = k + 1;
            reveal_with_fuel(power_of_two, 13);
        }
        scale = scale * 2;
    }
    let low: u128 = n as u128 / scale;
    let rest: u128 = n as u128 % scale;
    proof {
        vstd::arithmetic::div_mod::lemma_fundamental_div_mod(n as int, scale as int);
    }
    assert((low + 1) * scale == low * scale + scale && low * scale == scale * low)
        by (nonlinear_arith);
    if 2 * rest > scale || (2 * rest == scale && low % 2 == 1) {
        (low + 1) * scale
    } else {
        low * scale
    }
}

/// The whole number that a text of digits with an optional sign stands for.
fn read_whole(text: &str) -> (out: Option<(bool, u128)>)
    ensures
        out is Some == whole_text(text@) is Some,
        out matches Some(w) ==> (w.0, w.1 as nat) == whole_text(text@)->Some_0,
{
    let chars = text_chars(text);
    let negative = chars.len() > 0 && chars[0] == '-';
    let from: usize = if negative {
        1
    } else {
        0
    };
    let ghost digits = if negative {
        text@.drop_first()
    } else {
        text@
    };
    assert(digits =~= text@.skip(from as int));
    if chars.len() == from {
        return None;
    }
    let mut value: u128 = 0;
    let mut i: usize = from;
    assert(digits.take(0) =~= Seq::empty());
    while i < chars.len()
        invariant
            from <= i <= chars.len(),
            chars@ == text@,
            digits == text@.skip(from as int),
            whole_text(text@) is Some ==> all_digits(digits) && digits_value(digits) <= u64::MAX,
            forall|j: int| 0 <= j < i - from ==> is_digit(#[trigger] digits[j]),
            value == digits_value(digits.take(i - from)),
            value <= u64::MAX,
        decreases chars.len() - i,
    {
        let c = chars[i];
        assert(digits[i - from] == c);
        if !('0' <= c && c <= '9') {
            assert(!is_digit(digits[i - from]));
            return None;
        }
        value = value * 10 + (c as u32 - 48) as u128;
        i = i + 1;
        assert(digits.take(i - from).drop_last() =~= digits.take(i - from - 1));
        assert(digits.take(i - from).last() == c);
        if value > 0xFFFF_FFFF_FFFF_FFFF {
            proof {
                lemma_value_grows(digits, i - from);
            }
            return None;
        }
    }
    assert(digits.take(digits.len() as int) =~= digits);
    assert(all_digits(digits));
    Some((negative && value != 0, nearest_double_of(value as u64)))
}

/// More digits make no smaller number.
pub proof fn lemma_value_grows(s: Seq<char>, n: int)
    requires
        0 <= n <= s.len(),
    ensures
        all_digits(s) ==> digits_value(s.take(n)) <= digits_value(s),
    decreases s.len(),
{
    if n == s.len() {
        assert(s.take(n) =~= s);
    } else {
        assert(s.drop_last().take(n) =~= s.take(n));
        lemma_value_grows(s.drop_last(), n);
        if all_digits(s) && s.len() > 1 {
            assert forall|i: int| 0 <= i < s.drop_last().len() implies is_digit(
                #[trigger] s.drop_last()[i],
            ) by {
                assert(s.drop_last()[i] == s[i]);
            }
        }
        if s.len() == 1 {
            assert(s.take(0) =~= Seq::empty());
        }
    }
}

/// The whole number that a numeric parameter stands for.
fn read_number(param: &Parameter) -> (out: Option<(bool, u128)>)
    ensures
        out is Some == whole_number(param@) is Some,
        out matches Some(w) ==> (w.0, w.1 as nat) == whole_number(param@)->Some_0,
{
    match param {
        Parameter::Integer(v) => {
            let n: u64 = if *v == i64::MIN {
                9_223_372_036_854_775_808
            } else if *v < 0 {
                (-*v) as u64
            } else {
                *v as u64
            };
            Some((*v < 0, nearest_double_of(n)))
        },
        Parameter::Real(s) => read_whole(s.as_str()),
        _ => None,
    }
}

/// Whether a parameter is a number that is neither infinite nor undefined.
pub fn is_finite(param: &Parameter) -> (out: bool)
    ensures
        out == is_finite_number(param@),
{
    match param {
        Parameter::Integer(_) => true,
        Parameter::Real(s) => !same_text(s.as_str(), "inf") && !same_text(s.as_str(), "-inf")
            && !same_text(s.as_str(), "NaN"),
        _ => false,
    }
}

/// Two finite numbers are equal as doubles.
pub fn equal_numbers(a: &Parameter, b: &Parameter) -> (out: bool)
    requires
        is_number(a@),
        is_number(b@),
    ensures
        out == same_number(a@, b@),
{
    match (read_number(a), read_number(b)) {
        (Some(x), Some(y)) => x.0 == y.0 && x.1 == y.1,
        (None, None) => crate::ast::same_param(a, b),
        _ => false,
    }
}

} // verus!
