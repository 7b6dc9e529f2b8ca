//! Chains of repeated sites in one solid.

use vstd::prelude::*;

use crate::minify::capped;

verus! {

/// How far apart two numbers are.
pub open spec fn distance(a: usize, b: usize) -> nat {
    if a >= b {
        (a - b) as nat
    } else {
        (b - a) as nat
    }
}

/// How far apart the first `n` numbers of a list and those that mirror them are, in all.
pub open spec fn mirror_difference(values: Seq<usize>, n: int) -> nat
    decreases n,
{
    if n <= 0 {
        0
    } else {
        mirror_difference(values, n - 1) + distance(values[n - 1], values[values.len() - n])
    }
}

/// How far a list is from one that reads the same from both ends.
pub fn symmetric_abs_difference(values: &[usize]) -> (out: usize)
    ensures
        out == capped(mirror_difference(values@, values@.len() as int / 2)),
{
    let half: usize = values.len() / 2;
    let mut out: usize = 0;
    let mut i: usize = 0;
    while i < half
        invariant
            i <= half,
            half == values@.len() as int / 2,
            out == capped(mirror_difference(values@, i as int)),
        decreases half - i,
    {
        let a: usize = values[i];
        let b: usize = values[values.len() - 1 - i];
        let d: usize = if a >= b {
            a - b
        } else {
            b - a
        };
        out = out.saturating_add(d);
        i = i + 1;
    }
    out
}

/// A list that reads the same from both ends is at no distance from one that does.
pub proof fn law_palindrome_is_symmetric(values: Seq<usize>, n: int)
    requires
        values.reverse() == values,
        n <= values.len(),
    ensures
        mirror_difference(values, n) == 0,
    decreases n,
{
    if n > 0 {
        law_palindrome_is_symmetric(values, n - 1);
        assert(values.reverse()[n - 1] == values[n - 1]);
    }
}

/// A list at no distance from one that reads the same from both ends does so itself.
pub proof fn law_symmetric_is_palindrome(values: Seq<usize>)
    requires
        mirror_difference(values, values.len() as int / 2) == 0,
    ensures
        values.reverse() == values,
{
    assert forall|i: int| 0 <= i < values.len() implies values.reverse()[i] == values[i] by {
        let k = if i < values.len() / 2 {
            i
        } else {
            values.len() - 1 - i
        };
        if k < values.len() as int / 2 {
            lemma_no_difference(values, values.len() as int / 2, k);
        }
    }
    assert(values.reverse() =~= values);
}

proof fn lemma_no_difference(values: Seq<usize>, n: int, k: int)
    requires
        mirror_difference(values, n) == 0,
        0 <= k < n <= values.len(),
    ensures
        values[k] == values[values.len() - 1 - k],
    decreases n,
{
    if k < n - 1 {
        lemma_no_difference(values, n - 1, k);
    }
}

} // verus!
