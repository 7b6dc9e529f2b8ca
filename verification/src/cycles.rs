//! Closed sequences, whose start does not matter.

use vstd::prelude::*;

use crate::texts::{
    is_less, law_text_order_is_strict, law_text_order_is_transitive, text_less, texts_view,
};

verus! {

/// A sequence that starts in another place of a cycle.
pub open spec fn rotated(items: Seq<Seq<char>>, by: int) -> Seq<Seq<char>> {
    items.skip(by) + items.take(by)
}

/// Whether a sequence comes before another of the same length.
pub open spec fn comes_first(a: Seq<Seq<char>>, b: Seq<Seq<char>>) -> bool {
    exists|i: int|
        0 <= i < a.len() && i < b.len() && text_less(#[trigger] a[i], b[i]) && forall|j: int|
            0 <= j < i ==> a[j] == b[j]
}

/// Whether a sequence is the start of a cycle that comes first.
pub open spec fn is_canonical(items: Seq<Seq<char>>, first: Seq<Seq<char>>) -> bool {
    &&& exists|k: int| 0 <= k <= items.len() && first == #[trigger] rotated(items, k)
    &&& forall|k: int| 0 <= k <= items.len() ==> !comes_first(#[trigger] rotated(items, k), first)
}

fn rotate(items: &Vec<String>, by: usize) -> (out: Vec<String>)
    requires
        by <= items@.len(),
    ensures
        texts_view(out@) == rotated(texts_view(items@), by as int),
{
    let ghost texts = texts_view(items@);
    let mut out: Vec<String> = Vec::new();
    let mut i: usize = by;
    assert(texts_view(out@) =~= texts.subrange(by as int, by as int));
    while i < items.len()
        invariant
            by <= i <= items.len(),
            texts == texts_view(items@),
            texts_view(out@) == texts.subrange(by as int, i as int),
        decreases items.len() - i,
    {
        let ghost before = out@;
        out.push(items[i].clone());
        i = i + 1;
        assert(texts_view(out@) =~= texts_view(before).push(texts[i - 1]));
        assert(texts.subrange(by as int, i as int) =~= texts.subrange(by as int, i - 1).push(
            texts[i - 1],
        ));
    }
    assert(texts_view(out@) =~= texts.skip(by as int));
    let mut k: usize = 0;
    assert(texts.skip(by as int) + texts.take(0) =~= texts.skip(by as int));
    while k < by
        invariant
            k <= by <= items.len(),
            texts == texts_view(items@),
            texts_view(out@) == texts.skip(by as int) + texts.take(k as int),
        decreases by - k,
    {
        let ghost before = out@;
        out.push(items[k].clone());
        k = k + 1;
        assert(texts_view(out@) =~= texts_view(before).push(texts[k - 1]));
        assert(texts.skip(by as int) + texts.take(k as int) =~= (texts.skip(by as int)
            + texts.take(k - 1)).push(texts[k - 1]));
    }
    out
}

fn is_first(a: &Vec<String>, b: &Vec<String>) -> (out: bool)
    requires
        a@.len() == b@.len(),
    ensures
        out == comes_first(texts_view(a@), texts_view(b@)),
{
    let ghost x = texts_view(a@);
    let ghost y = texts_view(b@);
    let mut i: usize = 0;
    while i < a.len()
        invariant
            i <= a.len(),
            a@.len() == b@.len(),
            x == texts_view(a@),
            y == texts_view(b@),
            forall|j: int| 0 <= j < i ==> x[j] == y[j],
        decreases a.len() - i,
    {
        assert(x[i as int] == a@[i as int]@ && y[i as int] == b@[i as int]@);
        if is_less(a[i].as_str(), b[i].as_str()) {
            assert(text_less(x[i as int], y[i as int]));
            return true;
        }
        if is_less(b[i].as_str(), a[i].as_str()) {
            proof {
                law_text_order_is_strict(y[i as int], x[i as int]);
                assert forall|k: int|
                    0 <= k < x.len() && text_less(#[trigger] x[k], y[k]) implies exists|j: int|
                    0 <= j < k && x[j] != y[j] by {
                    if k < i {
                        law_text_order_is_strict(x[k], x[k]);
                    }
                    assert(k > i);
                    assert(x[i as int] != y[i as int]);
                }
            }
            return false;
        }
        proof {
            law_text_order_is_strict(x[i as int], y[i as int]);
        }
        i = i + 1;
    }
    proof {
        assert forall|k: int| 0 <= k < x.len() implies !text_less(#[trigger] x[k], y[k]) by {
            law_text_order_is_strict(x[k], x[k]);
        }
    }
    false
}

proof fn lemma_first_is_transitive(a: Seq<Seq<char>>, b: Seq<Seq<char>>, c: Seq<Seq<char>>)
    requires
        a.len() == b.len() == c.len(),
        comes_first(a, b),
        !comes_first(c, b),
    ensures
        !comes_first(c, a),
{
    if comes_first(c, a) {
        let i = choose|i: int|
            0 <= i < a.len() && i < b.len() && text_less(#[trigger] a[i], b[i]) && forall|j: int|
                0 <= j < i ==> a[j] == b[j];
        let k = choose|k: int|
            0 <= k < c.len() && k < a.len() && text_less(#[trigger] c[k], a[k]) && forall|j: int|
                0 <= j < k ==> c[j] == a[j];
        let m = if i < k {
            i
        } else {
            k
        };
        if i == k {
            law_text_order_is_transitive(c[m], a[m], b[m]);
        }
        assert(text_less(c[m], b[m]));
        assert forall|j: int| 0 <= j < m implies c[j] == b[j] by {
            assert(a[j] == b[j]);
        }
        assert(comes_first(c, b));
    }
}

/// The start of a cycle that comes first.
pub fn canonical_cycle(items: &Vec<String>) -> (out: Vec<String>)
    ensures
        is_canonical(texts_view(items@), texts_view(out@)),
{
    let ghost texts = texts_view(items@);
    let mut best = rotate(items, 0);
    let mut at: usize = 0;
    let mut by: usize = 0;
    assert forall|k: int| 0 <= k <= 0 implies !comes_first(
        #[trigger] rotated(texts, k),
        texts_view(best@),
    ) by {
        assert(rotated(texts, 0) == texts_view(best@));
        lemma_none_before_itself(texts_view(best@));
    }
    while by < items.len()
        invariant
            at <= by <= items.len(),
            texts == texts_view(items@),
            texts_view(best@) == rotated(texts, at as int),
            best@.len() == items@.len(),
            forall|k: int|
                0 <= k <= by ==> !comes_first(#[trigger] rotated(texts, k), texts_view(best@)),
        decreases items.len() - by,
    {
        by = by + 1;
        let candidate = rotate(items, by);
        assert(texts_view(candidate@).len() == candidate@.len());
        assert(rotated(texts, by as int).len() == texts.len());
        if is_first(&candidate, &best) {
            proof {
                assert forall|k: int| 0 <= k <= by implies !comes_first(
                    #[trigger] rotated(texts, k),
                    texts_view(candidate@),
                ) by {
                    if k < by {
                        lemma_first_is_transitive(
                            texts_view(candidate@),
                            texts_view(best@),
                            rotated(texts, k),
                        );
                    } else {
                        lemma_none_before_itself(texts_view(candidate@));
                    }
                }
            }
            at = by;
            best = candidate;
        }
    }
    best
}

proof fn lemma_none_before_itself(a: Seq<Seq<char>>)
    ensures
        !comes_first(a, a),
{
    assert forall|i: int| 0 <= i < a.len() implies !text_less(#[trigger] a[i], a[i]) by {
        law_text_order_is_strict(a[i], a[i]);
    }
}

/// The start that comes first.
pub open spec fn first_start(items: Seq<Seq<char>>) -> Seq<Seq<char>> {
    choose|first: Seq<Seq<char>>| is_canonical(items, first)
}

/// There is only one start that comes first.
pub(crate) proof fn lemma_first_start(items: Seq<Seq<char>>, first: Seq<Seq<char>>)
    requires
        is_canonical(items, first),
    ensures
        first_start(items) == first,
{
    assert(rotated(items, 0) =~= items);
    law_cycle_has_one_start(items, 0, first_start(items), first);
}

/// Whether a sequence is a start of a cycle.
spec fn is_start(items: Seq<Seq<char>>, start: Seq<Seq<char>>) -> bool {
    exists|k: int| 0 <= k <= items.len() && start == #[trigger] rotated(items, k)
}

/// What is a start of a cycle is one wherever the cycle starts.
proof fn lemma_start_elsewhere(a: Seq<Seq<char>>, by: int, k: int)
    requires
        0 <= by <= a.len(),
        0 <= k <= a.len(),
    ensures
        is_start(rotated(a, by), rotated(a, k)),
{
    let b = rotated(a, by);
    let n = a.len();
    let there = if k >= by {
        k - by
    } else {
        k - by + n
    };
    lemma_rotated_twice(a, by, there);
    lemma_rotated_around(a);
    assert(rotated(b, there) == rotated(a, k));
}

/// A start of a cycle that starts elsewhere is one of the cycle.
proof fn lemma_start_here(a: Seq<Seq<char>>, by: int, m: int)
    requires
        0 <= by <= a.len(),
        0 <= m <= a.len(),
    ensures
        is_start(a, rotated(rotated(a, by), m)),
{
    let n = a.len();
    let back = if by + m <= n {
        by + m
    } else {
        by + m - n
    };
    lemma_rotated_twice(a, by, m);
    assert(rotated(a, back) == rotated(rotated(a, by), m));
}

/// A start that comes first comes before no other start.
proof fn lemma_none_before(items: Seq<Seq<char>>, first: Seq<Seq<char>>, other: Seq<Seq<char>>)
    requires
        is_canonical(items, first),
        is_start(items, other),
    ensures
        !comes_first(other, first),
        other.len() == items.len(),
        first.len() == items.len(),
{
    let k = choose|k: int| 0 <= k <= items.len() && other == #[trigger] rotated(items, k);
    assert(!comes_first(rotated(items, k), first));
}

/// Wherever a cycle starts, the start that comes first is the same.
pub proof fn law_cycle_has_one_start(
    a: Seq<Seq<char>>,
    by: int,
    first: Seq<Seq<char>>,
    second: Seq<Seq<char>>,
)
    requires
        0 <= by <= a.len(),
        is_canonical(a, first),
        is_canonical(rotated(a, by), second),
    ensures
        first == second,
{
    let b = rotated(a, by);
    assert(b.len() == a.len());
    let k = choose|k: int| 0 <= k <= a.len() && first == #[trigger] rotated(a, k);
    let m = choose|m: int| 0 <= m <= b.len() && second == #[trigger] rotated(b, m);
    lemma_start_elsewhere(a, by, k);
    lemma_start_here(a, by, m);
    lemma_none_before(b, second, first);
    lemma_none_before(a, first, second);
    if first != second {
        lemma_one_comes_first(first, second);
    }
}

proof fn lemma_rotated_twice(a: Seq<Seq<char>>, by: int, m: int)
    requires
        0 <= by <= a.len(),
        0 <= m <= a.len(),
    ensures
        rotated(rotated(a, by), m) == rotated(
            a,
            if by + m <= a.len() {
                by + m
            } else {
                by + m - a.len()
            },
        ),
        rotated(a, by).len() == a.len(),
{
    let b = rotated(a, by);
    let n = a.len();
    let back = if by + m <= n {
        by + m
    } else {
        by + m - n
    };
    let x = rotated(b, m);
    let y = rotated(a, back);
    assert forall|i: int| 0 <= i < n implies x[i] == y[i] by {
        let j = if i < n - m {
            i + m
        } else {
            i + m - n
        };
        assert(x[i] == b[j]);
        assert(b[j] == a[if j < n - by {
            j + by
        } else {
            j + by - n
        }]);
        assert(y[i] == a[if i < n - back {
            i + back
        } else {
            i + back - n
        }]);
    }
    assert(x =~= y);
}

proof fn lemma_rotated_around(a: Seq<Seq<char>>)
    ensures
        rotated(a, a.len() as int) == rotated(a, 0),
{
    assert(rotated(a, a.len() as int) =~= rotated(a, 0));
}

proof fn lemma_one_comes_first(a: Seq<Seq<char>>, b: Seq<Seq<char>>)
    requires
        a.len() == b.len(),
        a != b,
    ensures
        comes_first(a, b) || comes_first(b, a),
    decreases a.len(),
{
    if a.len() == 0 {
        assert(a =~= b);
    } else if a.drop_last() == b.drop_last() {
        let i = a.len() - 1;
        assert forall|j: int| 0 <= j < i implies a[j] == b[j] by {
            assert(a.drop_last()[j] == a[j] && b.drop_last()[j] == b[j]);
        }
        if a[i] == b[i] {
            assert(a =~= b);
        }
        law_text_order_is_strict(a[i], b[i]);
    } else {
        lemma_one_comes_first(a.drop_last(), b.drop_last());
        if comes_first(a.drop_last(), b.drop_last()) {
            lemma_first_longer(a, b);
        } else {
            lemma_first_longer(b, a);
        }
    }
}

proof fn lemma_first_longer(a: Seq<Seq<char>>, b: Seq<Seq<char>>)
    requires
        a.len() == b.len(),
        a.len() > 0,
        comes_first(a.drop_last(), b.drop_last()),
    ensures
        comes_first(a, b),
{
    let x = a.drop_last();
    let y = b.drop_last();
    let i = choose|i: int|
        0 <= i < x.len() && i < y.len() && text_less(#[trigger] x[i], y[i]) && forall|j: int|
            0 <= j < i ==> x[j] == y[j];
    assert(text_less(a[i], b[i]));
    assert forall|j: int| 0 <= j < i implies a[j] == b[j] by {
        assert(x[j] == y[j]);
    }
}

/// Whether cells are all those of a grid, each once.
pub open spec fn is_full_grid(cells: Seq<[i64; 2]>, nu: usize, nv: usize) -> bool {
    &&& cells.len() == nu * nv
    &&& forall|u: int, v: int|
        0 <= u < nu && 0 <= v < nv ==> #[trigger] has_cell(cells, u, v)
}

pub open spec fn has_cell(cells: Seq<[i64; 2]>, u: int, v: int) -> bool {
    exists|i: int| 0 <= i < cells.len() && (#[trigger] cells[i])[0] == u && cells[i][1] == v
}

fn find_cell(cells: &Vec<[i64; 2]>, u: usize, v: usize) -> (out: bool)
    ensures
        out == has_cell(cells@, u as int, v as int),
{
    let mut i: usize = 0;
    while i < cells.len()
        invariant
            i <= cells.len(),
            forall|k: int| 0 <= k < i ==> !((#[trigger] cells@[k])[0] == u && cells@[k][1] == v),
        decreases cells.len() - i,
    {
        let cell = cells[i];
        if cell[0] as i128 == u as i128 && cell[1] as i128 == v as i128 {
            assert(cells@[i as int][0] == u && cells@[i as int][1] == v);
            return true;
        }
        i = i + 1;
    }
    false
}

/// Whether cells are all those of a grid, each once.
pub fn covers_full_grid(cells: &Vec<[i64; 2]>, nu: usize, nv: usize) -> (out: bool)
    ensures
        out == is_full_grid(cells@, nu, nv),
{
    match nu.checked_mul(nv) {
        Some(n) => {
            if cells.len() != n {
                return false;
            }
        },
        None => {
            assert(cells.len() <= usize::MAX);
            return false;
        },
    }
    let mut u: usize = 0;
    while u < nu
        invariant
            u <= nu,
            forall|a: int, b: int| 0 <= a < u && 0 <= b < nv ==> #[trigger] has_cell(cells@, a, b),
        decreases nu - u,
    {
        let mut v: usize = 0;
        while v < nv
            invariant
                u < nu,
                v <= nv,
                forall|a: int, b: int|
                    0 <= a < u && 0 <= b < nv ==> #[trigger] has_cell(cells@, a, b),
                forall|b: int| 0 <= b < v ==> #[trigger] has_cell(cells@, u as int, b),
            decreases nv - v,
        {
            if !find_cell(cells, u, v) {
                return false;
            }
            v = v + 1;
        }
        u = u + 1;
    }
    true
}

} // verus!
