//! Lists of texts: their order, and what they give when they are joined.

use vstd::prelude::*;

use crate::text::text_chars;

verus! {

/// The texts of strings.
pub open spec fn texts_view(items: Seq<String>) -> Seq<Seq<char>> {
    Seq::new(items.len(), |i: int| items[i]@)
}

/// Whether a text comes before another: at the first character where they differ it has the
/// smaller one, or it ends there.
pub open spec fn text_less(a: Seq<char>, b: Seq<char>) -> bool
    decreases a.len(),
{
    if b.len() == 0 {
        false
    } else if a.len() == 0 {
        true
    } else if a[0] == b[0] {
        text_less(a.skip(1), b.skip(1))
    } else {
        (a[0] as int) < (b[0] as int)
    }
}

/// No text comes before itself, and of two texts only one comes first.
pub proof fn law_text_order_is_strict(a: Seq<char>, b: Seq<char>)
    ensures
        !text_less(a, a),
        text_less(a, b) ==> !text_less(b, a),
        a != b ==> text_less(a, b) || text_less(b, a),
    decreases a.len(),
{
    if a.len() == 0 {
        if b.len() == 0 {
            assert(a =~= b);
        }
    } else {
        if b.len() > 0 {
            law_text_order_is_strict(a.skip(1), b.skip(1));
            if a[0] == b[0] && a.skip(1) == b.skip(1) {
                assert(a =~= seq![a[0]] + a.skip(1));
                assert(b =~= seq![b[0]] + b.skip(1));
                assert(a == b);
            }
            if a[0] == b[0] {
                assert(text_less(a, b) == text_less(a.skip(1), b.skip(1)));
                assert(text_less(b, a) == text_less(b.skip(1), a.skip(1)));
            } else {
                assert((a[0] as int) != (b[0] as int));
                assert(text_less(b, a) == ((b[0] as int) < (a[0] as int)));
            }
        } else {
            law_text_order_is_strict(a.skip(1), a.skip(1));
        }
    }
}

/// What comes before a text comes before all that this one comes before.
pub proof fn law_text_order_is_transitive(a: Seq<char>, b: Seq<char>, c: Seq<char>)
    requires
        text_less(a, b),
        text_less(b, c),
    ensures
        text_less(a, c),
    decreases a.len(),
{
    if a.len() > 0 && a[0] == b[0] && b[0] == c[0] {
        law_text_order_is_transitive(a.skip(1), b.skip(1), c.skip(1));
    }
}

/// The number of a character.
fn char_code(c: char) -> (out: u32)
    ensures
        out == c as int,
{
    c as u32
}

/// Whether a text comes before another.
pub fn is_less(a: &str, b: &str) -> (out: bool)
    ensures
        out == text_less(a@, b@),
{
    let left = text_chars(a);
    let right = text_chars(b);
    let mut i: usize = 0;
    assert(a@.skip(0) =~= a@ && b@.skip(0) =~= b@);
    while i < left.len() && i < right.len()
        invariant
            i <= left.len(),
            i <= right.len(),
            left@ == a@,
            right@ == b@,
            text_less(a@, b@) == text_less(a@.skip(i as int), b@.skip(i as int)),
        decreases left.len() - i,
    {
        let ghost rest = a@.skip(i as int);
        let ghost other = b@.skip(i as int);
        assert(rest[0] == a@[i as int] && other[0] == b@[i as int]);
        if left[i] != right[i] {
            return char_code(left[i]) < char_code(right[i]);
        }
        assert(rest.skip(1) =~= a@.skip(i + 1));
        assert(other.skip(1) =~= b@.skip(i + 1));
        i = i + 1;
    }
    i < right.len()
}

/// A list with one more text in its place.
pub open spec fn text_put(sorted: Seq<Seq<char>>, item: Seq<char>) -> Seq<Seq<char>>
    decreases sorted.len(),
{
    if sorted.len() == 0 || !text_less(item, sorted.last()) {
        sorted.push(item)
    } else {
        text_put(sorted.drop_last(), item).push(sorted.last())
    }
}

/// The first `n` texts in order.
pub open spec fn sorted_texts(items: Seq<Seq<char>>, n: nat) -> Seq<Seq<char>>
    decreases n,
{
    if n == 0 {
        Seq::empty()
    } else {
        text_put(sorted_texts(items, (n - 1) as nat), items[n - 1])
    }
}

proof fn lemma_text_put_at(sorted: Seq<Seq<char>>, item: Seq<char>, at: int)
    requires
        0 <= at <= sorted.len(),
        at > 0 ==> !text_less(item, sorted[at - 1]),
        forall|k: int| at <= k < sorted.len() ==> text_less(item, #[trigger] sorted[k]),
    ensures
        text_put(sorted, item) == sorted.insert(at, item),
    decreases sorted.len(),
{
    if at == sorted.len() {
        assert(sorted.insert(at, item) =~= sorted.push(item));
    } else {
        let shorter = sorted.drop_last();
        assert(text_less(item, sorted.last()));
        lemma_text_put_at(shorter, item, at);
        assert(shorter.insert(at, item).push(sorted.last()) =~= sorted.insert(at, item));
    }
}

/// Puts a text into an ordered list.
pub(crate) fn put_text(sorted: &mut Vec<String>, item: String)
    ensures
        texts_view(final(sorted)@) == text_put(texts_view(old(sorted)@), item@),
{
    let mut at: usize = sorted.len();
    while at > 0 && is_less(item.as_str(), sorted[at - 1].as_str())
        invariant
            at <= sorted.len(),
            forall|k: int| at <= k < sorted.len() ==> text_less(item@, (#[trigger] sorted@[k])@),
        decreases at,
    {
        at = at - 1;
    }
    let ghost before = texts_view(sorted@);
    proof {
        assert forall|k: int| at <= k < before.len() implies text_less(
            item@,
            #[trigger] before[k],
        ) by {
            assert(before[k] == sorted@[k]@);
        }
        lemma_text_put_at(before, item@, at as int);
    }
    sorted.insert(at, item);
    assert(texts_view(sorted@) =~= before.insert(at as int, item@));
}

/// Whether texts stand in order.
pub open spec fn in_order(items: Seq<Seq<char>>) -> bool {
    forall|i: int, j: int| 0 <= i < j < items.len() ==> !text_less(#[trigger] items[j], #[trigger] items[i])
}

proof fn lemma_text_put(sorted: Seq<Seq<char>>, item: Seq<char>)
    requires
        in_order(sorted),
    ensures
        in_order(text_put(sorted, item)),
        text_put(sorted, item).to_multiset() =~= sorted.to_multiset().insert(item),
        text_put(sorted, item).len() == sorted.len() + 1,
        forall|k: int|
            0 <= k <= sorted.len() ==> (#[trigger] text_put(sorted, item)[k] == item
                || sorted.contains(text_put(sorted, item)[k])),
    decreases sorted.len(),
{
    broadcast use vstd::seq_lib::group_to_multiset_ensures;

    let out = text_put(sorted, item);
    if sorted.len() == 0 || !text_less(item, sorted.last()) {
        assert forall|i: int, j: int| 0 <= i < j < out.len() implies !text_less(
            #[trigger] out[j],
            #[trigger] out[i],
        ) by {
            if j == sorted.len() && i < sorted.len() - 1 && text_less(item, sorted[i]) {
                let last = sorted.last();
                law_text_order_is_strict(item, last);
                law_text_order_is_strict(last, sorted[i]);
                assert(!text_less(last, sorted[i]));
                if item == last {
                } else {
                    law_text_order_is_transitive(last, item, sorted[i]);
                }
            }
        }
        assert forall|k: int| 0 <= k <= sorted.len() implies (#[trigger] out[k] == item
            || sorted.contains(out[k])) by {
            if k < sorted.len() {
                assert(out[k] == sorted[k]);
            }
        }
    } else {
        let shorter = sorted.drop_last();
        let last = sorted.last();
        let inner = text_put(shorter, item);
        lemma_text_put(shorter, item);
        assert forall|i: int, j: int| 0 <= i < j < out.len() implies !text_less(
            #[trigger] out[j],
            #[trigger] out[i],
        ) by {
            if j == sorted.len() {
                assert(out[j] == last && out[i] == inner[i]);
                if inner[i] == item {
                    law_text_order_is_strict(item, last);
                } else {
                    let k = choose|k: int| 0 <= k < shorter.len() && shorter[k] == inner[i];
                    assert(sorted[k] == inner[i]);
                }
            } else {
                assert(out[j] == inner[j] && out[i] == inner[i]);
            }
        }
        assert(sorted =~= shorter.push(last));
        assert forall|k: int| 0 <= k <= sorted.len() implies (#[trigger] out[k] == item
            || sorted.contains(out[k])) by {
            if k < sorted.len() {
                assert(out[k] == inner[k]);
                if inner[k] != item {
                    let m = choose|m: int| 0 <= m < shorter.len() && shorter[m] == inner[k];
                    assert(sorted[m] == out[k]);
                }
            } else {
                assert(sorted[sorted.len() - 1] == out[k]);
            }
        }
    }
}

/// Ordered texts are the same texts, in order.
pub proof fn law_texts_are_sorted(items: Seq<Seq<char>>, n: nat)
    requires
        n <= items.len(),
    ensures
        in_order(sorted_texts(items, n)),
        sorted_texts(items, n).to_multiset() =~= items.take(n as int).to_multiset(),
    decreases n,
{
    broadcast use vstd::seq_lib::group_to_multiset_ensures;

    if n == 0 {
        assert(items.take(0) =~= Seq::<Seq<char>>::empty());
    } else {
        law_texts_are_sorted(items, (n - 1) as nat);
        lemma_text_put(sorted_texts(items, (n - 1) as nat), items[n - 1]);
        assert(items.take(n as int) =~= items.take(n - 1).push(items[n - 1]));
    }
}

/// The first `n` texts with a separator between them.
pub open spec fn joined_texts(items: Seq<Seq<char>>, between: Seq<char>, n: nat) -> Seq<char>
    decreases n,
{
    if n == 0 {
        Seq::empty()
    } else if n == 1 {
        items[0]
    } else {
        joined_texts(items, between, (n - 1) as nat) + between + items[n - 1]
    }
}

/// Appends texts with a separator between them.
pub(crate) fn push_joined(out: &mut String, items: &Vec<String>, between: &str)
    ensures
        final(out)@ == old(out)@ + joined_texts(texts_view(items@), between@, items@.len()),
{
    let ghost texts = texts_view(items@);
    let ghost before = out@;
    let mut i: usize = 0;
    assert(out@ =~= before + joined_texts(texts, between@, 0));
    while i < items.len()
        invariant
            i <= items.len(),
            texts == texts_view(items@),
            out@ == before + joined_texts(texts, between@, i as nat),
        decreases items.len() - i,
    {
        assert(texts[i as int] == items@[i as int]@);
        if i > 0 {
            out.append(between);
        }
        out.append(items[i].as_str());
        i = i + 1;
        assert(out@ =~= before + joined_texts(texts, between@, i as nat));
    }
}

/// Whether strings hold the same texts.
pub(crate) fn same_texts(a: &Vec<String>, b: &Vec<String>) -> (out: bool)
    ensures
        out == (texts_view(a@) == texts_view(b@)),
{
    if a.len() != b.len() {
        assert(texts_view(a@).len() != texts_view(b@).len());
        return false;
    }
    let mut i: usize = 0;
    while i < a.len()
        invariant
            i <= a.len(),
            a.len() == b.len(),
            forall|k: int| 0 <= k < i ==> (#[trigger] a@[k])@ == b@[k]@,
        decreases a.len() - i,
    {
        if !crate::text::same_text(a[i].as_str(), b[i].as_str()) {
            assert(texts_view(a@)[i as int] != texts_view(b@)[i as int]);
            return false;
        }
        i = i + 1;
    }
    assert(texts_view(a@) =~= texts_view(b@));
    true
}

} // verus!
