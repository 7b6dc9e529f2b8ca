//! What the text of an entity tells: texts that are alike come from entities that are alike.

use vstd::prelude::*;

use crate::ast::{EntityView, NameView, ParamView, RecordView};
use crate::refs::{
    entity_refs, list_refs, map_entity, map_record, map_refs, param_refs, records_refs,
};
use crate::text::{decimal, escaped, hex_unit, is_plain, utf16_hex};
use crate::write::{list_text, param_text, record_text, records_text};

verus! {

/// Whether a character ends a word.
pub open spec fn is_delimiter(c: char) -> bool {
    c == ',' || c == '(' || c == ')' || c == '\'' || c == '|'
}

/// Whether a text is a word: not empty, and without delimiters.
pub open spec fn is_word(s: Seq<char>) -> bool {
    s.len() > 0 && forall|i: int| 0 <= i < s.len() ==> !is_delimiter(#[trigger] s[i])
}

/// Whether a text is empty or starts with a delimiter.
pub open spec fn starts_apart(s: Seq<char>) -> bool {
    s.len() == 0 || is_delimiter(s[0])
}

/// Whether a text can stand behind a parameter.
pub open spec fn closes(s: Seq<char>) -> bool {
    s.len() == 0 || s[0] == ',' || s[0] == ')' || s[0] == '|'
}

pub open spec fn is_digit(c: char) -> bool {
    48 <= c as int <= 57
}

/// Whether a parameter has the words that the grammar of exchange files asks for.
pub open spec fn is_sound(p: ParamView) -> bool
    decreases p,
{
    match p {
        ParamView::Typed { keyword, parameter } => is_word(keyword) && is_sound(*parameter),
        ParamView::Real(s) => is_word(s) && s[0] != '#',
        ParamView::Enumeration(s) => is_word(s),
        ParamView::List(items) => all_sound(items),
        ParamView::Ref(NameView::ConstantEntity(s)) => is_word(s) && !is_digit(s[0]),
        ParamView::Ref(NameView::ConstantValue(s)) => is_word(s),
        _ => true,
    }
}

pub open spec fn all_sound(items: Seq<ParamView>) -> bool
    decreases items,
{
    if items.len() == 0 {
        true
    } else {
        is_sound(items[0]) && all_sound(items.skip(1))
    }
}

pub open spec fn is_sound_record(record: RecordView) -> bool {
    is_word(record.name) && record.parameter is List && is_sound(record.parameter)
}

/// Whether all records of an entity are sound.
pub open spec fn is_sound_entity(entity: EntityView) -> bool {
    forall|i: int| 0 <= i < entity.records().len() ==> is_sound_record(#[trigger] entity.records()[i])
}

/// Whether different ids of a set have different images.
pub open spec fn separates(f: spec_fn(u64) -> u64, ids: Set<u64>) -> bool {
    forall|a: u64, b: u64|
        ids.contains(a) && ids.contains(b) && #[trigger] f(a) == #[trigger] f(b) ==> a == b
}

pub open spec fn within(refs: Seq<u64>, ids: Set<u64>) -> bool {
    forall|i: int| 0 <= i < refs.len() ==> ids.contains(#[trigger] refs[i])
}

pub proof fn lemma_decimal_digits(n: nat)
    ensures
        decimal(n).len() > 0,
        forall|i: int| 0 <= i < decimal(n).len() ==> is_digit(#[trigger] decimal(n)[i]),
    decreases n,
{
    if n >= 10 {
        lemma_decimal_digits(n / 10);
    }
}

/// The value of a digit.
spec fn digit_value(c: char) -> int {
    c as int - 48
}

/// The value of decimal digits.
spec fn value(s: Seq<char>) -> int
    decreases s.len(),
{
    if s.len() == 0 {
        0
    } else {
        10 * value(s.drop_last()) + digit_value(s.last())
    }
}

proof fn lemma_decimal_value(n: nat)
    ensures
        value(decimal(n)) == n,
    decreases n,
{
    if n >= 10 {
        lemma_decimal_value(n / 10);
        assert(decimal(n).drop_last() =~= decimal(n / 10));
    } else {
        assert(decimal(n).drop_last() =~= Seq::empty());
        reveal_with_fuel(value, 2);
    }
}

/// Different numbers have different digits.
pub proof fn lemma_decimal_injective(a: nat, b: nat)
    requires
        decimal(a) == decimal(b),
    ensures
        a == b,
{
    lemma_decimal_value(a);
    lemma_decimal_value(b);
}

/// Words before delimiters can be told apart from what follows.
proof fn lemma_split_word(a: Seq<char>, r: Seq<char>, b: Seq<char>, s: Seq<char>)
    requires
        is_word(a),
        is_word(b),
        starts_apart(r),
        starts_apart(s),
        a + r == b + s,
    ensures
        a == b,
        r == s,
{
    let t = a + r;
    if a.len() < b.len() {
        assert(r.len() > 0);
        assert(t[a.len() as int] == r[0]);
        assert(t[a.len() as int] == b[a.len() as int]);
    } else if b.len() < a.len() {
        assert(s.len() > 0);
        assert((b + s)[b.len() as int] == s[0]);
        assert(t[b.len() as int] == a[b.len() as int]);
    }
    assert(a =~= b) by {
        assert forall|i: int| 0 <= i < a.len() implies a[i] == b[i] by {
            assert(t[i] == a[i]);
            assert((b + s)[i] == b[i]);
        }
    }
    assert(r =~= s) by {
        assert(t.len() == (b + s).len());
        assert forall|i: int| 0 <= i < r.len() implies r[i] == s[i] by {
            assert(t[a.len() + i] == r[i]);
            assert((b + s)[b.len() + i] == s[i]);
        }
    }
}

/// Texts without an apostrophe, before one, can be told apart from what follows.
proof fn lemma_split_quoted(a: Seq<char>, r: Seq<char>, b: Seq<char>, s: Seq<char>)
    requires
        !a.contains('\''),
        !b.contains('\''),
        a + seq!['\''] + r == b + seq!['\''] + s,
    ensures
        a == b,
        r == s,
{
    let t = a + seq!['\''] + r;
    let u = b + seq!['\''] + s;
    if a.len() < b.len() {
        assert(t[a.len() as int] == '\'');
        assert(u[a.len() as int] == b[a.len() as int]);
        assert(b.contains('\''));
    } else if b.len() < a.len() {
        assert(u[b.len() as int] == '\'');
        assert(t[b.len() as int] == a[b.len() as int]);
        assert(a.contains('\''));
    }
    assert(a =~= b) by {
        assert forall|i: int| 0 <= i < a.len() implies a[i] == b[i] by {
            assert(t[i] == a[i]);
            assert(u[i] == b[i]);
        }
    }
    assert(r =~= s) by {
        assert(t.len() == u.len());
        assert forall|i: int| 0 <= i < r.len() implies r[i] == s[i] by {
            assert(t[a.len() + 1 + i] == r[i]);
            assert(u[b.len() + 1 + i] == s[i]);
        }
    }
}

spec fn all_plain(s: Seq<char>) -> bool {
    forall|i: int| 0 <= i < s.len() ==> is_plain(#[trigger] s[i])
}

proof fn lemma_plain_parts(a: Seq<char>, b: Seq<char>)
    requires
        all_plain(a),
        all_plain(b),
    ensures
        all_plain(a + b),
{
    assert forall|i: int| 0 <= i < (a + b).len() implies is_plain(#[trigger] (a + b)[i]) by {
        if i < a.len() {
            assert((a + b)[i] == a[i]);
        } else {
            assert((a + b)[i] == b[i - a.len()]);
        }
    }
}

proof fn lemma_hex_plain(unit: int)
    requires
        0 <= unit < 0x10000,
    ensures
        all_plain(hex_unit(unit)),
{
    let h = hex_unit(unit);
    assert(0 <= unit / 4096 < 16 && 0 <= (unit / 256) % 16 < 16 && 0 <= (unit / 16) % 16 < 16 && 0
        <= unit % 16 < 16);
    assert(is_plain(h[0]) && is_plain(h[1]) && is_plain(h[2]) && is_plain(h[3]));
}

proof fn lemma_char_bound(c: char)
    ensures
        0 <= c as int,
        (c as int) < 0x110000,
{
}

/// An escaped text holds plain characters only.
pub proof fn lemma_escaped_plain(s: Seq<char>, open: bool)
    ensures
        forall|i: int| 0 <= i < escaped(s, open).len() ==> is_plain(#[trigger] escaped(s, open)[i]),
    decreases s.len(),
{
    reveal_strlit("\\X0\\");
    reveal_strlit("\\X2\\");
    assert(all_plain("\\X0\\"@));
    assert(all_plain("\\X2\\"@));
    assert(all_plain(Seq::<char>::empty()));
    if s.len() > 0 {
        let c = s[0];
        if is_plain(c) {
            lemma_escaped_plain(s.drop_first(), false);
            let close = if open {
                "\\X0\\"@
            } else {
                Seq::empty()
            };
            assert(all_plain(seq![c]));
            lemma_plain_parts(close, seq![c]);
            lemma_plain_parts(close + seq![c], escaped(s.drop_first(), false));
        } else {
            lemma_escaped_plain(s.drop_first(), true);
            let begin = if open {
                Seq::empty()
            } else {
                "\\X2\\"@
            };
            let code = c as int;
            lemma_char_bound(c);
            if code < 0x10000 {
                lemma_hex_plain(code);
            } else {
                lemma_hex_plain(0xD800 + (code - 0x10000) / 0x400);
                lemma_hex_plain(0xDC00 + (code - 0x10000) % 0x400);
                lemma_plain_parts(
                    hex_unit(0xD800 + (code - 0x10000) / 0x400),
                    hex_unit(0xDC00 + (code - 0x10000) % 0x400),
                );
            }
            lemma_plain_parts(begin, utf16_hex(c));
            lemma_plain_parts(begin + utf16_hex(c), escaped(s.drop_first(), true));
        }
    }
}

/// What is plain stays what it is.
pub proof fn lemma_plain_stays(s: Seq<char>)
    requires
        forall|i: int| 0 <= i < s.len() ==> is_plain(#[trigger] s[i]),
    ensures
        escaped(s, false) == s,
    decreases s.len(),
{
    if s.len() > 0 {
        assert(is_plain(s[0]));
        assert forall|i: int| 0 <= i < s.drop_first().len() implies is_plain(
            #[trigger] s.drop_first()[i],
        ) by {
            assert(s.drop_first()[i] == s[i + 1]);
        }
        lemma_plain_stays(s.drop_first());
        assert(seq![s[0]] + s.drop_first() =~= s);
        assert(Seq::<char>::empty() + seq![s[0]] =~= seq![s[0]]);
    } else {
        assert(s =~= Seq::empty());
    }
}

/// Whether a parameter is written as one word.
pub open spec fn is_leaf(p: ParamView) -> bool {
    !(p is Typed) && !(p is List) && !(p is String)
}

proof fn lemma_leaf_word(p: ParamView)
    requires
        is_leaf(p),
        is_sound(p),
    ensures
        is_word(param_text(p)),
        !(p matches ParamView::Ref(NameView::Entity(_))) ==> !(param_text(p)[0] == '#'
            && param_text(p).len() > 1 && is_digit(param_text(p)[1])),
{
    let t = param_text(p);
    match p {
        ParamView::Integer(v) => {
            if v < 0 {
                lemma_decimal_digits((-(v as int)) as nat);
                let d = decimal((-(v as int)) as nat);
                assert forall|i: int| 0 <= i < t.len() implies !is_delimiter(#[trigger] t[i]) by {
                    if i > 0 {
                        assert(t[i] == d[i - 1]);
                    }
                }
            } else {
                lemma_decimal_digits(v as nat);
            }
        },
        ParamView::Real(s) => {
            assert forall|i: int| 0 <= i < t.len() implies !is_delimiter(#[trigger] t[i]) by {
                if i < s.len() {
                    assert(t[i] == s[i]);
                }
            }
            assert(t[0] == s[0]);
        },
        ParamView::Enumeration(s) => {
            assert forall|i: int| 0 <= i < t.len() implies !is_delimiter(#[trigger] t[i]) by {
                if 0 < i < t.len() - 1 {
                    assert(t[i] == s[i - 1]);
                }
            }
        },
        ParamView::Ref(NameView::Entity(id)) => {
            lemma_decimal_digits(id as nat);
            assert forall|i: int| 0 <= i < t.len() implies !is_delimiter(#[trigger] t[i]) by {
                if i > 0 {
                    assert(t[i] == decimal(id as nat)[i - 1]);
                }
            }
        },
        ParamView::Ref(NameView::Value(id)) => {
            lemma_decimal_digits(id as nat);
            assert forall|i: int| 0 <= i < t.len() implies !is_delimiter(#[trigger] t[i]) by {
                if i > 0 {
                    assert(t[i] == decimal(id as nat)[i - 1]);
                }
            }
        },
        ParamView::Ref(NameView::ConstantEntity(s)) => {
            assert forall|i: int| 0 <= i < t.len() implies !is_delimiter(#[trigger] t[i]) by {
                if i > 0 {
                    assert(t[i] == s[i - 1]);
                }
            }
            assert(t[1] == s[0]);
        },
        ParamView::Ref(NameView::ConstantValue(s)) => {
            assert forall|i: int| 0 <= i < t.len() implies !is_delimiter(#[trigger] t[i]) by {
                if i > 0 {
                    assert(t[i] == s[i - 1]);
                }
            }
        },
        _ => {},
    }
}

/// Leaves with the same text, once renamed, have the same text before.
proof fn lemma_same_leaf(a: ParamView, b: ParamView, f: spec_fn(u64) -> u64, ids: Set<u64>)
    requires
        is_leaf(a),
        is_leaf(b),
        is_sound(a),
        is_sound(b),
        separates(f, ids),
        within(param_refs(a), ids),
        within(param_refs(b), ids),
        param_text(map_refs(a, f)) == param_text(map_refs(b, f)),
    ensures
        param_text(a) == param_text(b),
        param_refs(a) == param_refs(b),
{
    lemma_leaf_word(map_refs(a, f));
    lemma_leaf_word(map_refs(b, f));
    let ta = param_text(map_refs(a, f));
    let tb = param_text(map_refs(b, f));
    if let ParamView::Ref(NameView::Entity(x)) = a {
        lemma_decimal_digits(f(x) as nat);
        assert(ta[1] == decimal(f(x) as nat)[0]);
        if let ParamView::Ref(NameView::Entity(y)) = b {
            assert(ta.skip(1) =~= decimal(f(x) as nat));
            assert(tb.skip(1) =~= decimal(f(y) as nat));
            lemma_decimal_injective(f(x) as nat, f(y) as nat);
            assert(param_refs(a)[0] == x);
            assert(param_refs(b)[0] == y);
            assert(x == y);
        }
    } else if let ParamView::Ref(NameView::Entity(y)) = b {
        lemma_decimal_digits(f(y) as nat);
        assert(tb[1] == decimal(f(y) as nat)[0]);
    }
}

/// A list with every entity reference replaced by its image.
pub open spec fn map_items(items: Seq<ParamView>, f: spec_fn(u64) -> u64) -> Seq<ParamView> {
    Seq::new(items.len(), |i: int| map_refs(items[i], f))
}

proof fn lemma_mapped_list(items: Seq<ParamView>, f: spec_fn(u64) -> u64)
    ensures
        map_refs(ParamView::List(items), f) == ParamView::List(map_items(items, f)),
{
    let out = map_refs(ParamView::List(items), f)->List_0;
    assert(out =~= map_items(items, f));
}

/// The first item of a list can be written first.
proof fn lemma_list_text_front(items: Seq<ParamView>)
    requires
        items.len() >= 2,
    ensures
        list_text(items) == param_text(items[0]) + seq![','] + list_text(items.skip(1)),
    decreases items.len(),
{
    if items.len() == 2 {
        reveal_with_fuel(list_text, 2);
        assert(items.drop_last()[0] == items[0]);
        assert(items.skip(1)[0] == items[1]);
        assert(items.drop_last().len() == 1);
    } else {
        let front = items.drop_last();
        lemma_list_text_front(front);
        assert(front.skip(1) =~= items.skip(1).drop_last());
        assert(items.skip(1).last() == items.last());
        assert(list_text(items.skip(1)) == list_text(front.skip(1)) + seq![','] + param_text(
            items.last(),
        ));
        assert(list_text(items) =~= param_text(items[0]) + seq![','] + list_text(items.skip(1)));
    }
}

proof fn lemma_list_refs_front(items: Seq<ParamView>)
    requires
        items.len() >= 1,
    ensures
        list_refs(items) == param_refs(items[0]) + list_refs(items.skip(1)),
    decreases items.len(),
{
    if items.len() == 1 {
        assert(items.drop_last() =~= Seq::empty());
        assert(items.skip(1) =~= Seq::empty());
        assert(list_refs(items) =~= param_refs(items[0]) + list_refs(items.skip(1)));
    } else {
        let front = items.drop_last();
        lemma_list_refs_front(front);
        assert(front.skip(1) =~= items.skip(1).drop_last());
        assert(items.skip(1).last() == items.last());
        assert(list_refs(items) =~= param_refs(items[0]) + list_refs(items.skip(1)));
    }
}

proof fn lemma_within_parts(a: Seq<u64>, b: Seq<u64>, ids: Set<u64>)
    requires
        within(a + b, ids),
    ensures
        within(a, ids),
        within(b, ids),
{
    assert forall|i: int| 0 <= i < a.len() implies ids.contains(#[trigger] a[i]) by {
        assert((a + b)[i] == a[i]);
    }
    assert forall|i: int| 0 <= i < b.len() implies ids.contains(#[trigger] b[i]) by {
        assert((a + b)[a.len() + i] == b[i]);
    }
}

/// The text of a parameter is not empty and starts with neither a comma nor a closing bracket.
proof fn lemma_text_start(p: ParamView)
    requires
        is_sound(p),
    ensures
        param_text(p).len() > 0,
        p is List ==> param_text(p)[0] == '(',
        p is String ==> param_text(p)[0] == '\'',
        !(p is List) && !(p is String) ==> !is_delimiter(param_text(p)[0]),
{
    if is_leaf(p) {
        lemma_leaf_word(p);
    } else if p is Typed {
        assert(param_text(p)[0] == p->keyword[0]);
    }
}

pub proof fn lemma_mapped_sound(p: ParamView, f: spec_fn(u64) -> u64)
    requires
        is_sound(p),
    ensures
        is_sound(map_refs(p, f)),
    decreases p,
{
    match p {
        ParamView::Typed { parameter, .. } => {
            lemma_mapped_sound(*parameter, f);
        },
        ParamView::List(items) => {
            lemma_mapped_list(items, f);
            lemma_mapped_items_sound(items, f);
        },
        _ => {},
    }
}

proof fn lemma_mapped_items_sound(items: Seq<ParamView>, f: spec_fn(u64) -> u64)
    requires
        all_sound(items),
    ensures
        all_sound(map_items(items, f)),
    decreases items,
{
    if items.len() > 0 {
        lemma_mapped_sound(items[0], f);
        lemma_mapped_items_sound(items.skip(1), f);
        assert(map_items(items, f).skip(1) =~= map_items(items.skip(1), f));
    }
}

/// Parameters with the same text, once renamed, have the same text and the same references
/// before, and what follows is the same.
pub proof fn lemma_same_param(
    a: ParamView,
    r: Seq<char>,
    b: ParamView,
    s: Seq<char>,
    f: spec_fn(u64) -> u64,
    ids: Set<u64>,
)
    requires
        is_sound(a),
        is_sound(b),
        closes(r) || a is List,
        closes(s) || b is List,
        separates(f, ids),
        within(param_refs(a), ids),
        within(param_refs(b), ids),
        param_text(map_refs(a, f)) + r == param_text(map_refs(b, f)) + s,
    ensures
        param_text(a) == param_text(b),
        param_refs(a) == param_refs(b),
        r == s,
    decreases a,
{
    let fa = map_refs(a, f);
    let fb = map_refs(b, f);
    let ta = param_text(fa);
    let tb = param_text(fb);
    lemma_mapped_sound(a, f);
    lemma_mapped_sound(b, f);
    lemma_text_start(fa);
    lemma_text_start(fb);
    assert((ta + r)[0] == ta[0]);
    assert((tb + s)[0] == tb[0]);
    if a is List {
        assert(b is List);
        let xs = a->List_0;
        let ys = b->List_0;
        lemma_mapped_list(xs, f);
        lemma_mapped_list(ys, f);
        let u = list_text(map_items(xs, f)) + seq![')'] + r;
        let v = list_text(map_items(ys, f)) + seq![')'] + s;
        assert(ta + r =~= seq!['('] + u);
        assert(tb + s =~= seq!['('] + v);
        assert((seq!['('] + u).skip(1) =~= u);
        assert((seq!['('] + v).skip(1) =~= v);
        lemma_same_items(xs, r, ys, s, f, ids);
    } else if a is String {
        assert(b is String);
        let x = escaped(a->String_0, false);
        let y = escaped(b->String_0, false);
        lemma_escaped_plain(a->String_0, false);
        lemma_escaped_plain(b->String_0, false);
        let u = x + seq!['\''] + r;
        let v = y + seq!['\''] + s;
        assert(ta + r =~= seq!['\''] + u);
        assert(tb + s =~= seq!['\''] + v);
        assert((seq!['\''] + u).skip(1) =~= u);
        assert((seq!['\''] + v).skip(1) =~= v);
        assert(!x.contains('\''));
        assert(!y.contains('\''));
        lemma_split_quoted(x, r, y, s);
    } else if a is Typed {
        let ka = a->keyword;
        let ia = param_text(*fa->parameter);
        let rest_a = seq!['('] + ia + seq![')'] + r;
        assert(ta + r =~= ka + rest_a);
        if b is Typed {
            let kb = b->keyword;
            let ib = param_text(*fb->parameter);
            let rest_b = seq!['('] + ib + seq![')'] + s;
            assert(tb + s =~= kb + rest_b);
            lemma_split_word(ka, rest_a, kb, rest_b);
            assert(rest_a.skip(1) =~= ia + (seq![')'] + r));
            assert(rest_b.skip(1) =~= ib + (seq![')'] + s));
            lemma_same_param(
                *a->parameter,
                seq![')'] + r,
                *b->parameter,
                seq![')'] + s,
                f,
                ids,
            );
            assert((seq![')'] + r).skip(1) =~= r);
            assert((seq![')'] + s).skip(1) =~= s);
        } else {
            lemma_leaf_word(fb);
            lemma_split_word(ka, rest_a, tb, s);
            assert(rest_a[0] == '(');
        }
    } else {
        lemma_leaf_word(fa);
        if b is Typed {
            let kb = b->keyword;
            let ib = param_text(*fb->parameter);
            let rest_b = seq!['('] + ib + seq![')'] + s;
            assert(tb + s =~= kb + rest_b);
            lemma_split_word(ta, r, kb, rest_b);
            assert(rest_b[0] == '(');
        } else {
            lemma_leaf_word(fb);
            lemma_split_word(ta, r, tb, s);
            lemma_same_leaf(a, b, f, ids);
        }
    }
}

/// Lists with the same text, once renamed, have the same text and the same references before,
/// and what follows is the same.
pub proof fn lemma_same_items(
    a: Seq<ParamView>,
    r: Seq<char>,
    b: Seq<ParamView>,
    s: Seq<char>,
    f: spec_fn(u64) -> u64,
    ids: Set<u64>,
)
    requires
        all_sound(a),
        all_sound(b),
        separates(f, ids),
        within(list_refs(a), ids),
        within(list_refs(b), ids),
        list_text(map_items(a, f)) + seq![')'] + r == list_text(map_items(b, f)) + seq![')'] + s,
    ensures
        list_text(a) == list_text(b),
        list_refs(a) == list_refs(b),
        r == s,
    decreases a,
{
    let fa = map_items(a, f);
    let fb = map_items(b, f);
    let ta = list_text(fa) + seq![')'] + r;
    let tb = list_text(fb) + seq![')'] + s;
    if a.len() == 0 && b.len() == 0 {
        assert(ta =~= seq![')'] + r);
        assert(tb =~= seq![')'] + s);
        assert(ta.skip(1) =~= r);
        assert(tb.skip(1) =~= s);
        assert(a =~= b);
    } else if a.len() == 0 {
        lemma_items_start(b, f);
        assert(ta =~= seq![')'] + r);
        assert(ta[0] == ')');
        assert(tb[0] == list_text(fb)[0]);
    } else if b.len() == 0 {
        lemma_items_start(a, f);
        assert(tb =~= seq![')'] + s);
        assert(tb[0] == ')');
        assert(ta[0] == list_text(fa)[0]);
    } else {
        let rest_a = items_rest(a, r, f);
        let rest_b = items_rest(b, s, f);
        lemma_items_first(a, r, f);
        lemma_items_first(b, s, f);
        lemma_list_refs_front(a);
        lemma_list_refs_front(b);
        lemma_within_parts(param_refs(a[0]), list_refs(a.skip(1)), ids);
        lemma_within_parts(param_refs(b[0]), list_refs(b.skip(1)), ids);
        lemma_same_param(a[0], rest_a, b[0], rest_b, f, ids);
        if a.len() == 1 && b.len() == 1 {
            assert(rest_a.skip(1) =~= r);
            assert(rest_b.skip(1) =~= s);
            assert(a.skip(1) =~= Seq::empty());
            assert(b.skip(1) =~= Seq::empty());
        } else if a.len() == 1 {
            assert(rest_a[0] == ')');
            assert(rest_b[0] == ',');
        } else if b.len() == 1 {
            assert(rest_b[0] == ')');
            assert(rest_a[0] == ',');
        } else {
            let ua = list_text(map_items(a.skip(1), f)) + seq![')'] + r;
            let ub = list_text(map_items(b.skip(1), f)) + seq![')'] + s;
            assert(rest_a.skip(1) =~= ua);
            assert(rest_b.skip(1) =~= ub);
            lemma_same_items(a.skip(1), r, b.skip(1), s, f, ids);
            lemma_list_text_front(a);
            lemma_list_text_front(b);
        }
    }
}

/// What stands behind the first item of a list and the list itself.
spec fn items_rest(items: Seq<ParamView>, r: Seq<char>, f: spec_fn(u64) -> u64) -> Seq<char> {
    if items.len() == 1 {
        seq![')'] + r
    } else {
        seq![','] + list_text(map_items(items.skip(1), f)) + seq![')'] + r
    }
}

proof fn lemma_items_first(items: Seq<ParamView>, r: Seq<char>, f: spec_fn(u64) -> u64)
    requires
        items.len() > 0,
    ensures
        list_text(map_items(items, f)) + seq![')'] + r == param_text(map_refs(items[0], f))
            + items_rest(items, r, f),
        closes(items_rest(items, r, f)),
{
    let mapped = map_items(items, f);
    assert(mapped[0] == map_refs(items[0], f));
    if items.len() > 1 {
        lemma_list_text_front(mapped);
        assert(mapped.skip(1) =~= map_items(items.skip(1), f));
    }
    assert(list_text(mapped) + seq![')'] + r =~= param_text(mapped[0]) + items_rest(items, r, f));
}

proof fn lemma_items_start(items: Seq<ParamView>, f: spec_fn(u64) -> u64)
    requires
        items.len() > 0,
        all_sound(items),
    ensures
        list_text(map_items(items, f)).len() > 0,
        list_text(map_items(items, f))[0] != ')',
{
    let mapped = map_items(items, f);
    lemma_mapped_sound(items[0], f);
    lemma_text_start(mapped[0]);
    if items.len() > 1 {
        lemma_list_text_front(mapped);
    }
}

/// Records with the same text, once renamed, have the same text and the same references
/// before, and what follows is the same.
pub proof fn lemma_same_record(
    a: RecordView,
    r: Seq<char>,
    b: RecordView,
    s: Seq<char>,
    f: spec_fn(u64) -> u64,
    ids: Set<u64>,
)
    requires
        is_sound_record(a),
        is_sound_record(b),
        separates(f, ids),
        within(param_refs(a.parameter), ids),
        within(param_refs(b.parameter), ids),
        record_text(map_record(a, f)) + r == record_text(map_record(b, f)) + s,
    ensures
        record_text(a) == record_text(b),
        param_refs(a.parameter) == param_refs(b.parameter),
        r == s,
{
    let pa = param_text(map_refs(a.parameter, f));
    let pb = param_text(map_refs(b.parameter, f));
    lemma_mapped_list(a.parameter->List_0, f);
    lemma_mapped_list(b.parameter->List_0, f);
    assert(record_text(map_record(a, f)) + r =~= a.name + (pa + r));
    assert(record_text(map_record(b, f)) + s =~= b.name + (pb + s));
    assert((pa + r)[0] == '(');
    assert((pb + s)[0] == '(');
    lemma_split_word(a.name, pa + r, b.name, pb + s);
    lemma_same_param(a.parameter, r, b.parameter, s, f, ids);
}

spec fn map_records(records: Seq<RecordView>, f: spec_fn(u64) -> u64) -> Seq<RecordView> {
    Seq::new(records.len(), |i: int| map_record(records[i], f))
}

proof fn lemma_records_text_front(records: Seq<RecordView>)
    requires
        records.len() >= 1,
    ensures
        records_text(records) == record_text(records[0]) + records_text(records.skip(1)),
        records_refs(records) == param_refs(records[0].parameter) + records_refs(records.skip(1)),
    decreases records.len(),
{
    if records.len() == 1 {
        assert(records.drop_last() =~= Seq::empty());
        assert(records.skip(1) =~= Seq::empty());
        assert(records_text(records) =~= record_text(records[0]) + records_text(records.skip(1)));
        assert(records_refs(records) =~= param_refs(records[0].parameter) + records_refs(
            records.skip(1),
        ));
    } else {
        let front = records.drop_last();
        lemma_records_text_front(front);
        assert(front.skip(1) =~= records.skip(1).drop_last());
        assert(records.skip(1).last() == records.last());
        assert(records_text(records) =~= record_text(records[0]) + records_text(records.skip(1)));
        assert(records_refs(records) =~= param_refs(records[0].parameter) + records_refs(
            records.skip(1),
        ));
    }
}

proof fn lemma_same_records(
    a: Seq<RecordView>,
    r: Seq<char>,
    b: Seq<RecordView>,
    s: Seq<char>,
    f: spec_fn(u64) -> u64,
    ids: Set<u64>,
)
    requires
        forall|i: int| 0 <= i < a.len() ==> is_sound_record(#[trigger] a[i]),
        forall|i: int| 0 <= i < b.len() ==> is_sound_record(#[trigger] b[i]),
        separates(f, ids),
        within(records_refs(a), ids),
        within(records_refs(b), ids),
        records_text(map_records(a, f)) + seq![')'] + r == records_text(map_records(b, f))
            + seq![')'] + s,
    ensures
        records_text(a) == records_text(b),
        records_refs(a) == records_refs(b),
        r == s,
    decreases a.len(),
{
    let fa = map_records(a, f);
    let fb = map_records(b, f);
    let ta = records_text(fa) + seq![')'] + r;
    let tb = records_text(fb) + seq![')'] + s;
    if a.len() == 0 && b.len() == 0 {
        assert(ta =~= seq![')'] + r);
        assert(tb =~= seq![')'] + s);
        assert(ta.skip(1) =~= r);
        assert(tb.skip(1) =~= s);
        assert(a =~= b);
    } else if a.len() == 0 {
        lemma_records_text_front(fb);
        assert(is_sound_record(b[0]));
        assert(ta =~= seq![')'] + r);
        assert(ta[0] == ')');
        assert(tb[0] == b[0].name[0]);
    } else if b.len() == 0 {
        lemma_records_text_front(fa);
        assert(is_sound_record(a[0]));
        assert(tb =~= seq![')'] + s);
        assert(tb[0] == ')');
        assert(ta[0] == a[0].name[0]);
    } else {
        lemma_records_text_front(fa);
        lemma_records_text_front(fb);
        lemma_records_text_front(a);
        lemma_records_text_front(b);
        assert(fa.skip(1) =~= map_records(a.skip(1), f));
        assert(fb.skip(1) =~= map_records(b.skip(1), f));
        let ra = records_text(map_records(a.skip(1), f)) + seq![')'] + r;
        let rb = records_text(map_records(b.skip(1), f)) + seq![')'] + s;
        assert(ta =~= record_text(map_record(a[0], f)) + ra);
        assert(tb =~= record_text(map_record(b[0], f)) + rb);
        lemma_within_parts(param_refs(a[0].parameter), records_refs(a.skip(1)), ids);
        lemma_within_parts(param_refs(b[0].parameter), records_refs(b.skip(1)), ids);
        lemma_same_record(a[0], ra, b[0], rb, f, ids);
        assert forall|i: int| 0 <= i < a.skip(1).len() implies is_sound_record(
            #[trigger] a.skip(1)[i],
        ) by {
            assert(a.skip(1)[i] == a[i + 1]);
        }
        assert forall|i: int| 0 <= i < b.skip(1).len() implies is_sound_record(
            #[trigger] b.skip(1)[i],
        ) by {
            assert(b.skip(1)[i] == b[i + 1]);
        }
        lemma_same_records(a.skip(1), r, b.skip(1), s, f, ids);
    }
}

/// The text of an entity without its id.
pub open spec fn body_text(entity: EntityView) -> Seq<char> {
    match entity {
        EntityView::Simple { record, .. } => record_text(record),
        EntityView::Complex { subsuper, .. } => seq!['('] + records_text(subsuper) + seq![')'],
    }
}

/// Entities with the same text, once renamed, have the same text before.
pub proof fn law_text_survives_renaming(
    a: EntityView,
    b: EntityView,
    f: spec_fn(u64) -> u64,
    ids: Set<u64>,
)
    requires
        is_sound_entity(a),
        is_sound_entity(b),
        separates(f, ids),
        within(entity_refs(a), ids),
        within(entity_refs(b), ids),
        body_text(map_entity(a, f)) == body_text(map_entity(b, f)),
    ensures
        body_text(a) == body_text(b),
{
    let empty = Seq::<char>::empty();
    let ta = body_text(map_entity(a, f));
    let tb = body_text(map_entity(b, f));
    match a {
        EntityView::Simple { record: ra, .. } => {
            assert(a.records()[0] == ra);
            lemma_single(ra);
            match b {
                EntityView::Simple { record: rb, .. } => {
                    assert(b.records()[0] == rb);
                    lemma_single(rb);
                    assert(ta + empty =~= ta);
                    assert(tb + empty =~= tb);
                    lemma_same_record(ra, empty, rb, empty, f, ids);
                },
                EntityView::Complex { .. } => {
                    assert(ta[0] == ra.name[0]);
                    assert(tb[0] == '(');
                },
            }
        },
        EntityView::Complex { subsuper: xs, .. } => match b {
            EntityView::Simple { record: rb, .. } => {
                assert(b.records()[0] == rb);
                assert(tb[0] == rb.name[0]);
                assert(ta[0] == '(');
            },
            EntityView::Complex { subsuper: ys, .. } => {
                let fx = map_records(xs, f);
                let fy = map_records(ys, f);
                assert(map_entity(a, f)->subsuper =~= fx);
                assert(map_entity(b, f)->subsuper =~= fy);
                assert(ta.skip(1) =~= records_text(fx) + seq![')'] + empty);
                assert(tb.skip(1) =~= records_text(fy) + seq![')'] + empty);
                lemma_same_records(xs, empty, ys, empty, f, ids);
            },
        },
    }
}

proof fn lemma_single(record: RecordView)
    ensures
        records_refs(seq![record]) == param_refs(record.parameter),
{
    reveal_with_fuel(records_refs, 2);
    assert(seq![record].drop_last() =~= Seq::empty());
    assert(records_refs(seq![record]) =~= param_refs(record.parameter));
}

} // verus!
