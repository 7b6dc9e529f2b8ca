//! Marking empty aggregates in what the writer has written.

use vstd::prelude::*;

use crate::ast::{EntityView, ExchangeView, NameView, ParamView, RecordView, SectionView};
use crate::grammar::{
    all_fit, fits, fits_entities, fits_record, fits_records, fits_sections, is_figure, is_keyword,
    is_real_word, is_upper, Rules,
};
use crate::scan::{lex_step, occurs, occurs_at, Lex};
use crate::shim::{
    data_at, empty_aggregate, first_at, is_space, marked, marked_aggregate, marker, may_hold_empty,
    prepared, space_len,
};
use crate::text::{decimal, escaped};
use crate::unambiguous::{is_digit, is_leaf, lemma_decimal_digits, lemma_escaped_plain};
use crate::write::{
    entities_text, entity_text, exchange_text, header_text, list_text, param_text, record_text,
    records_text, section_text, sections_text,
};

verus! {

/// A parameter with a mark in each empty aggregate.
pub open spec fn mark(p: ParamView) -> ParamView
    decreases p,
{
    match p {
        ParamView::List(items) => if items.len() == 0 {
            ParamView::List(seq![ParamView::Enumeration(marker())])
        } else {
            ParamView::List(mark_items(items))
        },
        ParamView::Typed { keyword, parameter } => ParamView::Typed {
            keyword,
            parameter: Box::new(mark(*parameter)),
        },
        other => other,
    }
}

pub open spec fn mark_items(items: Seq<ParamView>) -> Seq<ParamView>
    decreases items,
{
    if items.len() == 0 {
        Seq::empty()
    } else {
        mark_items(items.drop_last()).push(mark(items.last()))
    }
}

pub open spec fn mark_record(record: RecordView) -> RecordView {
    RecordView { name: record.name, parameter: mark(record.parameter) }
}

pub open spec fn mark_records(records: Seq<RecordView>) -> Seq<RecordView> {
    Seq::new(records.len(), |i: int| mark_record(records[i]))
}

pub open spec fn mark_entity(entity: EntityView) -> EntityView {
    match entity {
        EntityView::Simple { id, record } => EntityView::Simple { id, record: mark_record(record) },
        EntityView::Complex { id, subsuper } => EntityView::Complex {
            id,
            subsuper: mark_records(subsuper),
        },
    }
}

pub open spec fn mark_entities(entities: Seq<EntityView>) -> Seq<EntityView> {
    Seq::new(entities.len(), |i: int| mark_entity(entities[i]))
}

pub open spec fn mark_sections(sections: Seq<SectionView>) -> Seq<SectionView> {
    Seq::new(
        sections.len(),
        |i: int|
            SectionView { meta: sections[i].meta, entities: mark_entities(sections[i].entities) },
    )
}

/// A structure with a mark in each empty aggregate of its entities.
pub open spec fn mark_exchange(exchange: ExchangeView) -> ExchangeView {
    ExchangeView { data: mark_sections(exchange.data), ..exchange }
}

/// Whether a parameter holds an empty aggregate.
pub open spec fn has_empty(p: ParamView) -> bool
    decreases p,
{
    match p {
        ParamView::List(items) => items.len() == 0 || list_has_empty(items),
        ParamView::Typed { parameter, .. } => has_empty(*parameter),
        _ => false,
    }
}

pub open spec fn list_has_empty(items: Seq<ParamView>) -> bool
    decreases items,
{
    items.len() > 0 && (list_has_empty(items.drop_last()) || has_empty(items.last()))
}

pub open spec fn records_have_empty(records: Seq<RecordView>) -> bool
    decreases records.len(),
{
    records.len() > 0 && (records_have_empty(records.drop_last()) || has_empty(
        records.last().parameter,
    ))
}

pub open spec fn entities_have_empty(entities: Seq<EntityView>) -> bool
    decreases entities.len(),
{
    entities.len() > 0 && (entities_have_empty(entities.drop_last()) || records_have_empty(
        entities.last().records(),
    ))
}

pub open spec fn sections_have_empty(sections: Seq<SectionView>) -> bool
    decreases sections.len(),
{
    sections.len() > 0 && (sections_have_empty(sections.drop_last()) || entities_have_empty(
        sections.last().entities,
    ))
}

/// What marking makes of a text outside of strings and comments.
pub open spec fn after_marks(s: Seq<char>) -> Seq<char> {
    marked(s, Lex::Code).0
}

pub open spec fn finds_empty(s: Seq<char>) -> bool {
    marked(s, Lex::Code).1
}

/// Whether characters mean nothing to the marking.
pub open spec fn is_inert(s: Seq<char>) -> bool {
    forall|i: int|
        0 <= i < s.len() ==> #[trigger] s[i] != '(' && s[i] != '\'' && s[i] != '/'
}

/// Whether what follows does not go on with a string.
pub open spec fn is_clear(s: Seq<char>) -> bool {
    s.len() == 0 || s[0] != '\''
}

proof fn lemma_inert(w: Seq<char>, rest: Seq<char>)
    requires
        is_inert(w),
    ensures
        after_marks(w + rest) == w + after_marks(rest),
        finds_empty(w + rest) == finds_empty(rest),
    decreases w.len(),
{
    let s = w + rest;
    if w.len() == 0 {
        assert(s =~= rest);
        assert(w + after_marks(rest) =~= after_marks(rest));
    } else {
        assert(s[0] == w[0]);
        assert(lex_step(s, Lex::Code) == (1int, Lex::Code));
        assert(s.skip(1) =~= w.skip(1) + rest);
        assert forall|i: int| 0 <= i < w.skip(1).len() implies #[trigger] w.skip(1)[i] != '('
            && w.skip(1)[i] != '\'' && w.skip(1)[i] != '/' by {
            assert(w.skip(1)[i] == w[i + 1]);
        }
        lemma_inert(w.skip(1), rest);
        assert(s.take(1) + after_marks(w.skip(1) + rest) =~= w + after_marks(rest)) by {
            assert(s.take(1) =~= seq![w[0]]);
            assert(seq![w[0]] + w.skip(1) =~= w);
            assert(seq![w[0]] + (w.skip(1) + after_marks(rest)) =~= w + after_marks(rest));
        }
    }
}

/// Inside a string nothing is marked.
proof fn lemma_inside(e: Seq<char>, rest: Seq<char>)
    requires
        !e.contains('\''),
        is_clear(rest),
    ensures
        marked(e + seq!['\''] + rest, Lex::Text).0 == e + seq!['\''] + after_marks(rest),
        marked(e + seq!['\''] + rest, Lex::Text).1 == finds_empty(rest),
    decreases e.len(),
{
    let s = e + seq!['\''] + rest;
    if e.len() == 0 {
        assert(s =~= seq!['\''] + rest);
        assert(s[0] == '\'');
        if rest.len() > 0 {
            assert(s[1] == rest[0]);
        }
        assert(lex_step(s, Lex::Text) == (1int, Lex::Code));
        assert(s.skip(1) =~= rest);
        assert(s.take(1) + after_marks(rest) =~= e + seq!['\''] + after_marks(rest));
    } else {
        assert(s[0] == e[0]);
        assert(e.contains(e[0]));
        assert(lex_step(s, Lex::Text) == (1int, Lex::Text));
        assert(s.skip(1) =~= e.skip(1) + seq!['\''] + rest);
        assert(!e.skip(1).contains('\'')) by {
            if e.skip(1).contains('\'') {
                let i = choose|i: int| 0 <= i < e.skip(1).len() && e.skip(1)[i] == '\'';
                assert(e[i + 1] == '\'');
            }
        }
        lemma_inside(e.skip(1), rest);
        assert(s.take(1) =~= seq![e[0]]);
        assert(seq![e[0]] + (e.skip(1) + seq!['\''] + after_marks(rest)) =~= e + seq!['\'']
            + after_marks(rest));
    }
}

proof fn lemma_string(e: Seq<char>, rest: Seq<char>)
    requires
        !e.contains('\''),
        is_clear(rest),
    ensures
        after_marks(seq!['\''] + e + seq!['\''] + rest) == seq!['\''] + e + seq!['\'']
            + after_marks(rest),
        finds_empty(seq!['\''] + e + seq!['\''] + rest) == finds_empty(rest),
{
    let s = seq!['\''] + e + seq!['\''] + rest;
    assert(s[0] == '\'');
    assert(lex_step(s, Lex::Code) == (1int, Lex::Text));
    assert(s.skip(1) =~= e + seq!['\''] + rest);
    lemma_inside(e, rest);
    assert(s.take(1) =~= seq!['\'']);
    assert(seq!['\''] + (e + seq!['\''] + after_marks(rest)) =~= seq!['\''] + e + seq!['\'']
        + after_marks(rest));
}

/// An opening bracket before anything but white space and a closing one.
proof fn lemma_open(rest: Seq<char>)
    requires
        rest.len() > 0,
        rest[0] != ')',
        !is_space(rest[0]),
    ensures
        after_marks(seq!['('] + rest) == seq!['('] + after_marks(rest),
        finds_empty(seq!['('] + rest) == finds_empty(rest),
{
    let s = seq!['('] + rest;
    assert(s.skip(1) =~= rest);
    assert(s[1] == rest[0]);
    assert(space_len(s.skip(1)) == 0);
    assert(!empty_aggregate(s));
    assert(lex_step(s, Lex::Code) == (1int, Lex::Code));
    assert(s.take(1) =~= seq!['(']);
}

proof fn lemma_empty(rest: Seq<char>)
    ensures
        after_marks(seq!['(', ')'] + rest) == marked_aggregate() + after_marks(rest),
        finds_empty(seq!['(', ')'] + rest),
        param_text(ParamView::List(seq![ParamView::Enumeration(marker())])) == marked_aggregate(),
{
    let s = seq!['(', ')'] + rest;
    assert(s[0] == '(' && s[1] == ')');
    assert(s.skip(1)[0] == ')');
    assert(space_len(s.skip(1)) == 0);
    assert(empty_aggregate(s));
    assert(s.skip(2) =~= rest);
    reveal_strlit("(.STEPREDOXEMPTYAGGREGATE.)");
    reveal_strlit("STEPREDOXEMPTYAGGREGATE");
    reveal_with_fuel(list_text, 2);
    let inner = seq![ParamView::Enumeration(marker())];
    assert(list_text(inner) == param_text(inner[0]));
    assert(param_text(ParamView::List(inner)) =~= marked_aggregate());
}

/// Whether a text starts so that an aggregate is not empty.
spec fn starts_item(s: Seq<char>) -> bool {
    s.len() > 0 && s[0] != ')' && !is_space(s[0])
}

proof fn lemma_keyword_inert(s: Seq<char>)
    requires
        is_keyword(s),
    ensures
        is_inert(s),
        starts_item(s),
{
    assert forall|i: int| 0 <= i < s.len() implies #[trigger] s[i] != '(' && s[i] != '\'' && s[i]
        != '/' by {
        assert(is_upper(s[i]) || is_figure(s[i]));
    }
}

proof fn lemma_digits_inert(n: nat)
    ensures
        is_inert(decimal(n)),
        starts_item(decimal(n)),
{
    lemma_decimal_digits(n);
    assert forall|i: int| 0 <= i < decimal(n).len() implies #[trigger] decimal(n)[i] != '('
        && decimal(n)[i] != '\'' && decimal(n)[i] != '/' by {
        assert(is_digit(decimal(n)[i]));
    }
    assert(is_digit(decimal(n)[0]));
}

proof fn lemma_inert_sum(a: Seq<char>, b: Seq<char>)
    requires
        is_inert(a),
        is_inert(b),
    ensures
        is_inert(a + b),
{
    assert forall|i: int| 0 <= i < (a + b).len() implies #[trigger] (a + b)[i] != '(' && (a + b)[i]
        != '\'' && (a + b)[i] != '/' by {
        if i < a.len() {
            assert((a + b)[i] == a[i]);
        } else {
            assert((a + b)[i] == b[i - a.len()]);
        }
    }
}

/// The rules that what is marked keeps.
pub open spec fn real_rules(rules: Rules) -> bool {
    forall|s: Seq<char>| #[trigger] (rules.reals)(s) ==> is_real_word(s)
}

proof fn lemma_leaf_inert(p: ParamView, rules: Rules)
    requires
        is_leaf(p),
        fits(p, rules),
        real_rules(rules),
    ensures
        is_inert(param_text(p)),
        starts_item(param_text(p)),
        mark(p) == p,
        !has_empty(p),
{
    let t = param_text(p);
    match p {
        ParamView::Integer(v) => {
            if v < 0 {
                lemma_digits_inert((-(v as int)) as nat);
                assert(is_inert(seq!['-']));
                lemma_inert_sum(seq!['-'], decimal((-(v as int)) as nat));
            } else {
                lemma_digits_inert(v as nat);
            }
        },
        ParamView::Real(s) => {
            reveal_strlit("inf");
            reveal_strlit("-inf");
            assert("inf"@.len() == 3 && "-inf"@.len() == 4);
            assert(is_inert(s)) by {
                if s == "inf"@ {
                    assert(s[0] == 'i' && s[1] == 'n' && s[2] == 'f');
                } else if s == "-inf"@ {
                    assert(s[0] == '-' && s[1] == 'i' && s[2] == 'n' && s[3] == 'f');
                }
            }
            assert(starts_item(s)) by {
                if s == "inf"@ {
                    assert(s[0] == 'i');
                } else if s == "-inf"@ {
                    assert(s[0] == '-');
                }
            }
            assert(is_inert(seq!['.']));
            lemma_inert_sum(s, seq!['.']);
            assert(s + seq!['.'] =~= s.push('.'));
            assert(t[0] == s[0]);
        },
        ParamView::Enumeration(s) => {
            lemma_keyword_inert(s);
            assert(is_inert(seq!['.']));
            lemma_inert_sum(seq!['.'], s);
            lemma_inert_sum(seq!['.'] + s, seq!['.']);
        },
        ParamView::Ref(NameView::Entity(id)) => {
            lemma_digits_inert(id as nat);
            assert(is_inert(seq!['#']));
            lemma_inert_sum(seq!['#'], decimal(id as nat));
        },
        ParamView::Ref(NameView::Value(id)) => {
            lemma_digits_inert(id as nat);
            assert(is_inert(seq!['@']));
            lemma_inert_sum(seq!['@'], decimal(id as nat));
        },
        ParamView::Ref(NameView::ConstantEntity(s)) => {
            lemma_keyword_inert(s);
            assert(is_inert(seq!['#']));
            lemma_inert_sum(seq!['#'], s);
        },
        ParamView::Ref(NameView::ConstantValue(s)) => {
            lemma_keyword_inert(s);
            assert(is_inert(seq!['@']));
            lemma_inert_sum(seq!['@'], s);
        },
        _ => {},
    }
}

/// What the text of a parameter starts with.
proof fn lemma_starts_item(p: ParamView, rules: Rules)
    requires
        fits(p, rules),
        real_rules(rules),
    ensures
        starts_item(param_text(p)),
{
    match p {
        ParamView::Typed { keyword, .. } => {
            lemma_keyword_inert(keyword);
            assert(param_text(p)[0] == keyword[0]);
        },
        ParamView::List(_) => {},
        ParamView::String(_) => {},
        _ => {
            lemma_leaf_inert(p, rules);
        },
    }
}

/// Marking the text of a parameter gives the text of the marked parameter.
#[verifier::spinoff_prover]
#[verifier::rlimit(60)]
proof fn lemma_marks_param(p: ParamView, rest: Seq<char>, rules: Rules)
    requires
        fits(p, rules),
        real_rules(rules),
        is_clear(rest),
    ensures
        after_marks(param_text(p) + rest) == param_text(mark(p)) + after_marks(rest),
        finds_empty(param_text(p) + rest) == (has_empty(p) || finds_empty(rest)),
        mark(p) is List == p is List,
    decreases p, 0nat,
{
    match p {
        ParamView::Typed { keyword, parameter } => {
            let inner = *parameter;
            lemma_keyword_inert(keyword);
            lemma_starts_item(inner, rules);
            let tail = seq![')'] + rest;
            let s3 = param_text(inner) + tail;
            assert(param_text(p) + rest =~= keyword + (seq!['('] + s3));
            assert(s3[0] == param_text(inner)[0]);
            lemma_inert(keyword, seq!['('] + s3);
            lemma_open(s3);
            lemma_marks_param(inner, tail, rules);
            assert(is_inert(seq![')']));
            lemma_inert(seq![')'], rest);
            assert(keyword + (seq!['('] + (param_text(mark(inner)) + (seq![')'] + after_marks(
                rest,
            )))) =~= param_text(mark(p)) + after_marks(rest));
        },
        ParamView::List(items) => {
            if items.len() == 0 {
                assert(param_text(p) + rest =~= seq!['(', ')'] + rest);
                lemma_empty(rest);
            } else {
                let tail = seq![')'] + rest;
                let s2 = list_text(items) + tail;
                assert(param_text(p) + rest =~= seq!['('] + s2);
                lemma_list_starts(items, rules);
                assert(s2[0] == list_text(items)[0]);
                lemma_open(s2);
                lemma_marks_items(items, tail, rules);
                assert(is_inert(seq![')']));
                lemma_inert(seq![')'], rest);
                assert(seq!['('] + (list_text(mark_items(items)) + (seq![')'] + after_marks(rest)))
                    =~= param_text(mark(p)) + after_marks(rest));
            }
        },
        ParamView::String(s) => {
            let e = escaped(s, false);
            lemma_escaped_plain(s, false);
            assert(!e.contains('\''));
            lemma_string(e, rest);
            assert(param_text(p) + rest =~= seq!['\''] + e + seq!['\''] + rest);
            assert(param_text(p) + after_marks(rest) =~= seq!['\''] + e + seq!['\''] + after_marks(
                rest,
            ));
        },
        _ => {
            lemma_leaf_inert(p, rules);
            lemma_inert(param_text(p), rest);
        },
    }
}

proof fn lemma_list_starts(items: Seq<ParamView>, rules: Rules)
    requires
        items.len() > 0,
        all_fit(items, rules),
        real_rules(rules),
    ensures
        starts_item(list_text(items)),
    decreases items.len(),
{
    if items.len() == 1 {
        lemma_starts_item(items.last(), rules);
    } else {
        lemma_list_starts(items.drop_last(), rules);
        assert(list_text(items)[0] == list_text(items.drop_last())[0]);
    }
}

proof fn lemma_marks_items(items: Seq<ParamView>, rest: Seq<char>, rules: Rules)
    requires
        items.len() > 0,
        all_fit(items, rules),
        real_rules(rules),
        is_clear(rest),
    ensures
        after_marks(list_text(items) + rest) == list_text(mark_items(items)) + after_marks(rest),
        finds_empty(list_text(items) + rest) == (list_has_empty(items) || finds_empty(rest)),
        mark_items(items).len() == items.len(),
    decreases items, 1nat,
{
    lemma_mark_len(items);
    let last = items.last();
    let marked_list = mark_items(items);
    assert(marked_list.last() == mark(last));
    assert(marked_list.drop_last() =~= mark_items(items.drop_last()));
    lemma_marks_param(last, rest, rules);
    if items.len() == 1 {
        assert(!list_has_empty(items.drop_last()));
        assert(items[0] == last);
    } else {
        let front = items.drop_last();
        let more = seq![','] + (param_text(last) + rest);
        assert(list_text(items) + rest =~= list_text(front) + more);
        lemma_marks_items(front, more, rules);
        assert(is_inert(seq![',']));
        lemma_inert(seq![','], param_text(last) + rest);
        lemma_mark_len(front);
        assert(list_text(mark_items(front)) + (seq![','] + (param_text(mark(last)) + after_marks(
            rest,
        ))) =~= list_text(marked_list) + after_marks(rest));
    }
}

proof fn lemma_mark_len(items: Seq<ParamView>)
    ensures
        mark_items(items).len() == items.len(),
        forall|i: int| 0 <= i < items.len() ==> #[trigger] mark_items(items)[i] == mark(items[i]),
    decreases items,
{
    if items.len() > 0 {
        lemma_mark_len(items.drop_last());
    }
}

/// A record's text is marked in its list only.
proof fn lemma_marks_record(record: RecordView, rest: Seq<char>, rules: Rules)
    requires
        fits_record(record, rules),
        real_rules(rules),
        rules.empties,
        is_clear(rest),
    ensures
        after_marks(record_text(record) + rest) == record_text(mark_record(record)) + after_marks(
            rest,
        ),
        finds_empty(record_text(record) + rest) == (has_empty(record.parameter) || finds_empty(
            rest,
        )),
{
    lemma_keyword_inert(record.name);
    let t = param_text(record.parameter);
    assert(record_text(record) + rest =~= record.name + (t + rest));
    lemma_inert(record.name, t + rest);
    lemma_marks_param(record.parameter, rest, rules);
    assert(record.name + (param_text(mark(record.parameter)) + after_marks(rest)) =~= record_text(
        mark_record(record),
    ) + after_marks(rest));
}

proof fn lemma_marks_records(records: Seq<RecordView>, rest: Seq<char>, rules: Rules)
    requires
        fits_records(records, rules),
        real_rules(rules),
        rules.empties,
        is_clear(rest),
    ensures
        after_marks(records_text(records) + rest) == records_text(mark_records(records))
            + after_marks(rest),
        finds_empty(records_text(records) + rest) == (records_have_empty(records) || finds_empty(
            rest,
        )),
    decreases records.len(),
{
    let out = mark_records(records);
    if records.len() == 0 {
        assert(records_text(records) + rest =~= rest);
        assert(records_text(out) + after_marks(rest) =~= after_marks(rest));
    } else {
        let front = records.drop_last();
        let last = records.last();
        assert(fits_record(records[records.len() - 1], rules));
        assert forall|i: int| 0 <= i < front.len() implies fits_record(
            #[trigger] front[i],
            rules,
        ) by {
            assert(front[i] == records[i]);
        }
        let more = record_text(last) + rest;
        assert(more[0] == last.name[0]);
        lemma_keyword_inert(last.name);
        assert(last.name[0] != '\'');
        assert(records_text(records) + rest =~= records_text(front) + more);
        lemma_marks_records(front, more, rules);
        lemma_marks_record(last, rest, rules);
        assert(out.drop_last() =~= mark_records(front));
        assert(out.last() == mark_record(last));
        assert(records_text(mark_records(front)) + (record_text(mark_record(last)) + after_marks(
            rest,
        )) =~= records_text(out) + after_marks(rest));
    }
}

#[verifier::rlimit(30)]
proof fn lemma_marks_entity(entity: EntityView, rest: Seq<char>, rules: Rules)
    requires
        fits_records(entity.records(), rules),
        entity.records().len() > 0,
        real_rules(rules),
        rules.empties,
        is_clear(rest),
    ensures
        after_marks(entity_text(entity) + rest) == entity_text(mark_entity(entity)) + after_marks(
            rest,
        ),
        finds_empty(entity_text(entity) + rest) == (records_have_empty(entity.records())
            || finds_empty(rest)),
{
    let id = entity.id();
    lemma_digits_inert(id as nat);
    assert(is_inert(seq!['#']) && is_inert(seq!['=']) && is_inert(seq![';']) && is_inert(
        seq![')', ';'],
    ));
    lemma_inert_sum(seq!['#'], decimal(id as nat));
    lemma_inert_sum(seq!['#'] + decimal(id as nat), seq!['=']);
    let head = seq!['#'] + decimal(id as nat) + seq!['='];
    match entity {
        EntityView::Simple { record, .. } => {
            assert(entity.records()[0] == record);
            assert(fits_record(entity.records()[0], rules));
            let tail = seq![';'] + rest;
            assert(entity_text(entity) + rest =~= head + (record_text(record) + tail));
            lemma_inert(head, record_text(record) + tail);
            lemma_marks_record(record, tail, rules);
            lemma_inert(seq![';'], rest);
            assert(head + (record_text(mark_record(record)) + (seq![';'] + after_marks(rest)))
                =~= entity_text(mark_entity(entity)) + after_marks(rest));
            reveal_with_fuel(records_have_empty, 2);
            assert(entity.records().last() == record);
        },
        EntityView::Complex { subsuper, .. } => {
            let tail = seq![')', ';'] + rest;
            let body = records_text(subsuper) + tail;
            assert(entity_text(entity) + rest =~= head + (seq!['('] + body));
            lemma_inert(head, seq!['('] + body);
            lemma_records_start(subsuper, rules);
            assert(body[0] == records_text(subsuper)[0]);
            lemma_open(body);
            lemma_marks_records(subsuper, tail, rules);
            lemma_inert(seq![')', ';'], rest);
            assert(head + (seq!['('] + (records_text(mark_records(subsuper)) + (seq![')', ';']
                + after_marks(rest)))) =~= entity_text(mark_entity(entity)) + after_marks(rest));
        },
    }
}

proof fn lemma_records_start(records: Seq<RecordView>, rules: Rules)
    requires
        records.len() > 0,
        fits_records(records, rules),
    ensures
        starts_item(records_text(records)),
    decreases records.len(),
{
    let front = records.drop_last();
    assert(fits_record(records[records.len() - 1], rules));
    lemma_keyword_inert(records.last().name);
    if records.len() == 1 {
        assert(records_text(front) =~= Seq::empty());
        assert(records_text(records)[0] == records.last().name[0]);
    } else {
        assert forall|i: int| 0 <= i < front.len() implies fits_record(
            #[trigger] front[i],
            rules,
        ) by {
            assert(front[i] == records[i]);
        }
        lemma_records_start(front, rules);
        assert(records_text(records)[0] == records_text(front)[0]);
    }
}

/// Whether every entity has a record.
pub open spec fn none_bare(entities: Seq<EntityView>) -> bool {
    forall|i: int| 0 <= i < entities.len() ==> (#[trigger] entities[i]).records().len() > 0
}

proof fn lemma_marks_entities(entities: Seq<EntityView>, rest: Seq<char>, rules: Rules)
    requires
        fits_entities(entities, rules),
        none_bare(entities),
        real_rules(rules),
        rules.empties,
        is_clear(rest),
    ensures
        after_marks(entities_text(entities) + rest) == entities_text(mark_entities(entities))
            + after_marks(rest),
        finds_empty(entities_text(entities) + rest) == (entities_have_empty(entities)
            || finds_empty(rest)),
    decreases entities.len(),
{
    let out = mark_entities(entities);
    if entities.len() == 0 {
        assert(entities_text(entities) + rest =~= rest);
        assert(entities_text(out) + after_marks(rest) =~= after_marks(rest));
    } else {
        let front = entities.drop_last();
        let last = entities.last();
        assert(fits_records(entities[entities.len() - 1].records(), rules));
        assert(entities[entities.len() - 1].records().len() > 0);
        assert forall|i: int| 0 <= i < front.len() implies fits_records(
            (#[trigger] front[i]).records(),
            rules,
        ) && front[i].records().len() > 0 by {
            assert(front[i] == entities[i]);
            assert(fits_records(entities[i].records(), rules));
        }
        let tail = seq!['\n'] + rest;
        let more = entity_text(last) + tail;
        assert(more[0] == '#');
        assert(entities_text(entities) + rest =~= entities_text(front) + more);
        lemma_marks_entities(front, more, rules);
        lemma_marks_entity(last, tail, rules);
        assert(is_inert(seq!['\n']));
        lemma_inert(seq!['\n'], rest);
        assert(out.drop_last() =~= mark_entities(front));
        assert(out.last() == mark_entity(last));
        assert(entities_text(mark_entities(front)) + (entity_text(mark_entity(last)) + (seq!['\n']
            + after_marks(rest))) =~= entities_text(out) + after_marks(rest));
    }
}

/// A list without empty aggregates is marked nowhere.
proof fn lemma_unmarked(p: ParamView)
    requires
        !has_empty(p),
    ensures
        mark(p) == p,
    decreases p,
{
    match p {
        ParamView::List(items) => {
            lemma_unmarked_items(items);
        },
        ParamView::Typed { parameter, .. } => {
            lemma_unmarked(*parameter);
        },
        _ => {},
    }
}

proof fn lemma_unmarked_items(items: Seq<ParamView>)
    requires
        !list_has_empty(items),
    ensures
        mark_items(items) == items,
    decreases items,
{
    if items.len() > 0 {
        lemma_unmarked_items(items.drop_last());
        lemma_unmarked(items.last());
        assert(items.drop_last().push(items.last()) =~= items);
    } else {
        assert(items =~= Seq::empty());
    }
}

/// What may not hold empty aggregates holds none.
proof fn lemma_full(p: ParamView, rules: Rules)
    requires
        fits(p, rules),
        !rules.empties,
    ensures
        !has_empty(p),
    decreases p,
{
    match p {
        ParamView::List(items) => {
            lemma_full_items(items, rules);
        },
        ParamView::Typed { parameter, .. } => {
            lemma_full(*parameter, rules);
        },
        _ => {},
    }
}

pub proof fn lemma_full_items(items: Seq<ParamView>, rules: Rules)
    requires
        all_fit(items, rules),
        !rules.empties,
    ensures
        !list_has_empty(items),
    decreases items,
{
    if items.len() > 0 {
        lemma_full_items(items.drop_last(), rules);
        lemma_full(items.last(), rules);
    }
}

proof fn lemma_literals()
    ensures
        is_inert("DATA;\n"@),
        "DATA;\n"@ == "DATA;"@ + seq!['\n'],
        "DATA;"@.len() == 5,
        "DATA("@ == "DATA"@ + seq!['('],
        is_inert("DATA"@),
        is_inert(");\n"@),
        ");\n"@.len() > 0,
        ");\n"@[0] == ')',
        is_inert("ENDSEC;\n"@),
        "ENDSEC;\n"@.len() == 8,
        "ENDSEC;\n"@[0] == 'E',
        "ENDSEC;\n"@[7] == '\n',
        is_inert("END-ISO-10303-21;\n"@),
        "END-ISO-10303-21;\n"@.len() > 0,
        "END-ISO-10303-21;\n"@[0] == 'E',
        "DATA("@.len() > 0,
        "DATA("@[0] == 'D',
        "DATA;\n"@[0] == 'D',
        "DATA;\n"@.len() > 0,
        "DATA;"@[0] == 'D',
{
    reveal_strlit("DATA;\n");
    reveal_strlit("DATA;");
    reveal_strlit("DATA(");
    reveal_strlit("DATA");
    reveal_strlit(");\n");
    reveal_strlit("ENDSEC;\n");
    reveal_strlit("END-ISO-10303-21;\n");
    assert("DATA;\n"@ =~= "DATA;"@ + seq!['\n']);
    assert("DATA("@ =~= "DATA"@ + seq!['(']);
}

/// The rules for the lists that stand before the entities of a section.
pub open spec fn metas_fit(sections: Seq<SectionView>, rules: Rules) -> bool {
    forall|i: int| 0 <= i < sections.len() ==> all_fit((#[trigger] sections[i]).meta, rules)
}

pub open spec fn sections_none_bare(sections: Seq<SectionView>) -> bool {
    forall|i: int| 0 <= i < sections.len() ==> none_bare((#[trigger] sections[i]).entities)
}

#[verifier::rlimit(30)]
proof fn lemma_marks_section(section: SectionView, rest: Seq<char>, rules: Rules, full: Rules)
    requires
        fits_entities(section.entities, rules),
        none_bare(section.entities),
        all_fit(section.meta, full),
        real_rules(rules),
        real_rules(full),
        rules.empties,
        !full.empties,
        is_clear(rest),
    ensures
        ({
            let out = SectionView {
                meta: section.meta,
                entities: mark_entities(section.entities),
            };
            &&& after_marks(section_text(section) + rest) == section_text(out) + after_marks(rest)
            &&& finds_empty(section_text(section) + rest) == (entities_have_empty(
                section.entities,
            ) || finds_empty(rest))
        }),
{
    lemma_literals();
    let out = SectionView { meta: section.meta, entities: mark_entities(section.entities) };
    let tail = "ENDSEC;\n"@ + rest;
    let body = entities_text(section.entities) + tail;
    assert(is_clear(tail)) by {
        assert(tail[0] == 'E');
    }
    lemma_marks_entities(section.entities, tail, rules);
    lemma_inert("ENDSEC;\n"@, rest);
    let marked_body = entities_text(out.entities) + ("ENDSEC;\n"@ + after_marks(rest));
    if section.meta.len() == 0 {
        assert(section_text(section) + rest =~= "DATA;\n"@ + body);
        lemma_inert("DATA;\n"@, body);
        assert("DATA;\n"@ + marked_body =~= section_text(out) + after_marks(rest));
    } else {
        lemma_marks_meta(section.meta, body, full);
        assert(section_text(section) + rest =~= "DATA("@ + list_text(section.meta) + ");\n"@
            + body);
        assert("DATA("@ + list_text(section.meta) + ");\n"@ + marked_body =~= section_text(out)
            + after_marks(rest));
    }
}

proof fn lemma_marks_meta(meta: Seq<ParamView>, body: Seq<char>, full: Rules)
    requires
        meta.len() > 0,
        all_fit(meta, full),
        real_rules(full),
        !full.empties,
    ensures
        after_marks("DATA("@ + list_text(meta) + ");\n"@ + body) == "DATA("@ + list_text(meta)
            + ");\n"@ + after_marks(body),
        finds_empty("DATA("@ + list_text(meta) + ");\n"@ + body) == finds_empty(body),
{
    lemma_literals();
    let after = ");\n"@ + body;
    let inner = list_text(meta) + after;
    assert("DATA("@ + list_text(meta) + ");\n"@ + body =~= "DATA"@ + (seq!['('] + inner));
    lemma_inert("DATA"@, seq!['('] + inner);
    lemma_list_starts(meta, full);
    assert(inner[0] == list_text(meta)[0]);
    lemma_open(inner);
    assert(is_clear(after)) by {
        assert(after[0] == ')');
    }
    lemma_marks_items(meta, after, full);
    lemma_full_items(meta, full);
    lemma_unmarked_items(meta);
    lemma_inert(");\n"@, body);
    assert("DATA"@ + (seq!['('] + (list_text(meta) + (");\n"@ + after_marks(body)))) =~= "DATA("@
        + list_text(meta) + ");\n"@ + after_marks(body));
}

proof fn lemma_section_start(section: SectionView)
    ensures
        section_text(section).len() > 0,
        section_text(section)[0] == 'D',
{
    lemma_literals();
}

proof fn lemma_marks_sections(sections: Seq<SectionView>, rest: Seq<char>, rules: Rules, full: Rules)
    requires
        fits_sections(sections, rules),
        sections_none_bare(sections),
        metas_fit(sections, full),
        real_rules(rules),
        real_rules(full),
        rules.empties,
        !full.empties,
        is_clear(rest),
    ensures
        after_marks(sections_text(sections) + rest) == sections_text(mark_sections(sections))
            + after_marks(rest),
        finds_empty(sections_text(sections) + rest) == (sections_have_empty(sections)
            || finds_empty(rest)),
    decreases sections.len(),
{
    let out = mark_sections(sections);
    if sections.len() == 0 {
        assert(sections_text(sections) + rest =~= rest);
        assert(sections_text(out) + after_marks(rest) =~= after_marks(rest));
    } else {
        let front = sections.drop_last();
        let last = sections.last();
        let n = sections.len() - 1;
        assert(fits_entities(sections[n].entities, rules) && none_bare(sections[n].entities)
            && all_fit(sections[n].meta, full));
        assert forall|i: int| 0 <= i < front.len() implies fits_entities(
            (#[trigger] front[i]).entities,
            rules,
        ) && none_bare(front[i].entities) && all_fit(front[i].meta, full) by {
            assert(front[i] == sections[i]);
            assert(fits_entities(sections[i].entities, rules));
            assert(all_fit(sections[i].meta, full));
        }
        let more = section_text(last) + rest;
        lemma_section_start(last);
        assert(more[0] == section_text(last)[0]);
        assert(sections_text(sections) + rest =~= sections_text(front) + more);
        lemma_marks_sections(front, more, rules, full);
        lemma_marks_section(last, rest, rules, full);
        assert(out.drop_last() =~= mark_sections(front));
        assert(sections_text(mark_sections(front)) + (section_text(out.last()) + after_marks(rest))
            =~= sections_text(out) + after_marks(rest));
    }
}

/// The first section can be written first.
proof fn lemma_sections_front(sections: Seq<SectionView>)
    requires
        sections.len() > 0,
    ensures
        sections_text(sections) == section_text(sections[0]) + sections_text(sections.skip(1)),
        sections_have_empty(sections) == (entities_have_empty(sections[0].entities)
            || sections_have_empty(sections.skip(1))),
    decreases sections.len(),
{
    if sections.len() == 1 {
        assert(sections.drop_last() =~= Seq::empty());
        assert(sections.skip(1) =~= Seq::empty());
        reveal_with_fuel(sections_text, 2);
        reveal_with_fuel(sections_have_empty, 2);
        assert(sections_text(sections) =~= section_text(sections[0]) + sections_text(
            sections.skip(1),
        ));
    } else {
        let front = sections.drop_last();
        lemma_sections_front(front);
        assert(front.skip(1) =~= sections.skip(1).drop_last());
        assert(sections.skip(1).last() == sections.last());
        assert(sections_text(sections) =~= section_text(sections[0]) + sections_text(
            sections.skip(1),
        ));
    }
}

/// What stands before the sections.
pub open spec fn preamble(exchange: ExchangeView) -> Seq<char> {
    "ISO-10303-21;\nHEADER;\n"@ + header_text(exchange.header) + "ENDSEC;\n"@
}

/// A text found in a part is found in the whole.
proof fn lemma_occurs_in(a: Seq<char>, t: Seq<char>, b: Seq<char>, pattern: Seq<char>)
    requires
        occurs(t, pattern),
    ensures
        occurs(a + t + b, pattern),
{
    let i = choose|i: int| occurs_at(t, pattern, i);
    let whole = a + t + b;
    assert(whole.subrange(a.len() + i, a.len() + i + pattern.len()) =~= t.subrange(
        i,
        i + pattern.len(),
    ));
    assert(occurs_at(whole, pattern, a.len() + i));
}

proof fn lemma_empty_occurs(p: ParamView)
    requires
        has_empty(p),
    ensures
        occurs(param_text(p), "()"@),
    decreases p,
{
    let none = Seq::<char>::empty();
    match p {
        ParamView::List(items) => {
            if items.len() == 0 {
                reveal_strlit("()");
                assert("()"@.len() == 2 && "()"@[0] == '(' && "()"@[1] == ')');
                assert(list_text(items) =~= none);
                assert(param_text(p) =~= "()"@);
                assert(param_text(p).subrange(0, 2) =~= "()"@);
                assert(occurs_at(param_text(p), "()"@, 0));
            } else {
                lemma_empty_occurs_list(items);
                lemma_occurs_in(seq!['('], list_text(items), seq![')'], "()"@);
            }
        },
        ParamView::Typed { keyword, parameter } => {
            lemma_empty_occurs(*parameter);
            lemma_occurs_in(keyword + seq!['('], param_text(*parameter), seq![')'], "()"@);
        },
        _ => {},
    }
}

proof fn lemma_empty_occurs_list(items: Seq<ParamView>)
    requires
        list_has_empty(items),
    ensures
        occurs(list_text(items), "()"@),
    decreases items,
{
    let none = Seq::<char>::empty();
    if items.len() == 1 {
        assert(!list_has_empty(items.drop_last()));
        lemma_empty_occurs(items.last());
    } else if list_has_empty(items.drop_last()) {
        lemma_empty_occurs_list(items.drop_last());
        lemma_occurs_in(
            none,
            list_text(items.drop_last()),
            seq![','] + param_text(items.last()),
            "()"@,
        );
        assert(none + list_text(items.drop_last()) + (seq![','] + param_text(items.last()))
            =~= list_text(items));
    } else {
        lemma_empty_occurs(items.last());
        lemma_occurs_in(
            list_text(items.drop_last()) + seq![','],
            param_text(items.last()),
            none,
            "()"@,
        );
        assert(list_text(items.drop_last()) + seq![','] + param_text(items.last()) + none
            =~= list_text(items));
    }
}

proof fn lemma_empty_occurs_records(records: Seq<RecordView>)
    requires
        records_have_empty(records),
    ensures
        occurs(records_text(records), "()"@),
    decreases records.len(),
{
    let none = Seq::<char>::empty();
    let front = records.drop_last();
    let last = records.last();
    if records_have_empty(front) {
        lemma_empty_occurs_records(front);
        lemma_occurs_in(none, records_text(front), record_text(last), "()"@);
        assert(none + records_text(front) + record_text(last) =~= records_text(records));
    } else {
        lemma_empty_occurs(last.parameter);
        lemma_occurs_in(records_text(front) + last.name, param_text(last.parameter), none, "()"@);
        assert(records_text(front) + last.name + param_text(last.parameter) + none
            =~= records_text(records));
    }
}

proof fn lemma_empty_occurs_entities(entities: Seq<EntityView>)
    requires
        entities_have_empty(entities),
    ensures
        occurs(entities_text(entities), "()"@),
    decreases entities.len(),
{
    let none = Seq::<char>::empty();
    let front = entities.drop_last();
    let last = entities.last();
    if entities_have_empty(front) {
        lemma_empty_occurs_entities(front);
        lemma_occurs_in(
            none,
            entities_text(front),
            entity_text(last) + seq!['\n'],
            "()"@,
        );
        assert(none + entities_text(front) + (entity_text(last) + seq!['\n']) =~= entities_text(
            entities,
        ));
    } else {
        lemma_empty_occurs_records(last.records());
        let t = records_text(last.records());
        match last {
            EntityView::Simple { id, record } => {
                reveal_with_fuel(records_text, 2);
                assert(last.records().drop_last() =~= Seq::empty());
                assert(last.records().last() == record);
                assert(t =~= record_text(record));
                let head = entities_text(front) + (seq!['#'] + decimal(id as nat) + seq!['=']);
                lemma_occurs_in(head, t, seq![';', '\n'], "()"@);
                assert(head + t + seq![';', '\n'] =~= entities_text(entities));
            },
            EntityView::Complex { id, subsuper } => {
                let head = entities_text(front) + (seq!['#'] + decimal(id as nat) + seq![
                    '=',
                    '(',
                ]);
                lemma_occurs_in(head, t, seq![')', ';', '\n'], "()"@);
                assert(head + t + seq![')', ';', '\n'] =~= entities_text(entities));
            },
        }
    }
}

proof fn lemma_empty_occurs_sections(sections: Seq<SectionView>)
    requires
        sections_have_empty(sections),
    ensures
        occurs(sections_text(sections), "()"@),
    decreases sections.len(),
{
    let none = Seq::<char>::empty();
    let front = sections.drop_last();
    let last = sections.last();
    if sections_have_empty(front) {
        lemma_empty_occurs_sections(front);
        lemma_occurs_in(none, sections_text(front), section_text(last), "()"@);
        assert(none + sections_text(front) + section_text(last) =~= sections_text(sections));
    } else {
        lemma_empty_occurs_entities(last.entities);
        let head = if last.meta.len() == 0 {
            "DATA;\n"@
        } else {
            "DATA("@ + list_text(last.meta) + ");\n"@
        };
        lemma_occurs_in(
            sections_text(front) + head,
            entities_text(last.entities),
            "ENDSEC;\n"@,
            "()"@,
        );
        assert(sections_text(front) + head + entities_text(last.entities) + "ENDSEC;\n"@
            =~= sections_text(sections));
    }
}

/// Behind a preamble without `DATA;` the first section starts with the first `DATA;`.
proof fn lemma_data_at(before: Seq<char>, after: Seq<char>)
    requires
        !occurs(before, "DATA;"@),
        before.len() > 0,
        before.last() == '\n',
    ensures
        occurs(before + "DATA;"@ + after, "DATA;"@),
        data_at(before + "DATA;"@ + after) == before.len(),
{
    let t = before + "DATA;"@ + after;
    let n = before.len() as int;
    reveal_strlit("DATA;");
    assert("DATA;"@.len() == 5);
    assert(t.subrange(n, n + 5) =~= "DATA;"@);
    assert(occurs_at(t, "DATA;"@, n));
    assert forall|j: int| 0 <= j < n implies !occurs_at(t, "DATA;"@, j) by {
        if occurs_at(t, "DATA;"@, j) {
            let found = t.subrange(j, j + 5);
            assert(found == "DATA;"@);
            if j + 5 <= n {
                assert(before.subrange(j, j + 5) =~= found);
                assert(occurs_at(before, "DATA;"@, j));
            } else {
                let k = n - 1 - j;
                assert(found[k] == t[n - 1]);
                assert(t[n - 1] == before.last());
                assert("DATA;"@[0] == 'D' && "DATA;"@[1] == 'A' && "DATA;"@[2] == 'T'
                    && "DATA;"@[3] == 'A' && "DATA;"@[4] == ';');
                assert(found[k] == "DATA;"@[k]);
                assert(k == 0 || k == 1 || k == 2 || k == 3 || k == 4);
            }
        }
    }
    assert(first_at(t, "DATA;"@, n));
    let other = data_at(t);
    assert(first_at(t, "DATA;"@, other));
    if other < n {
        assert(!occurs_at(t, "DATA;"@, other));
    } else if n < other {
        assert(!occurs_at(t, "DATA;"@, n));
    }
}

/// What stands behind the first `DATA;`.
spec fn data_body(first: SectionView, others: Seq<SectionView>) -> Seq<char> {
    seq!['\n'] + (entities_text(first.entities) + ("ENDSEC;\n"@ + (sections_text(others)
        + "END-ISO-10303-21;\n"@)))
}

proof fn lemma_body_marked(first: SectionView, others: Seq<SectionView>, rules: Rules, full: Rules)
    requires
        fits_entities(first.entities, rules),
        none_bare(first.entities),
        fits_sections(others, rules),
        sections_none_bare(others),
        metas_fit(others, full),
        real_rules(rules),
        real_rules(full),
        rules.empties,
        !full.empties,
    ensures
        after_marks(data_body(first, others)) == data_body(
            SectionView { meta: first.meta, entities: mark_entities(first.entities) },
            mark_sections(others),
        ),
        finds_empty(data_body(first, others)) == (entities_have_empty(first.entities)
            || sections_have_empty(others)),
{
    lemma_literals();
    let end = "END-ISO-10303-21;\n"@;
    let none = Seq::<char>::empty();
    assert(end + none =~= end);
    lemma_inert(end, none);
    assert(after_marks(none) =~= none);
    assert(after_marks(end) =~= end);
    let rest = sections_text(others) + end;
    lemma_marks_sections(others, end, rules, full);
    lemma_inert("ENDSEC;\n"@, rest);
    let tail = "ENDSEC;\n"@ + rest;
    assert(is_clear(tail)) by {
        assert(tail[0] == 'E');
    }
    lemma_marks_entities(first.entities, tail, rules);
    assert(is_inert(seq!['\n']));
    lemma_inert(seq!['\n'], entities_text(first.entities) + tail);
}

/// A structure as what stands before the first `DATA;`, and what stands behind it.
proof fn lemma_text_parts(exchange: ExchangeView)
    requires
        exchange.data.len() > 0,
        exchange.data[0].meta.len() == 0,
    ensures
        exchange_text(exchange) == preamble(exchange) + "DATA;"@ + data_body(
            exchange.data[0],
            exchange.data.skip(1),
        ),
{
    lemma_literals();
    lemma_sections_front(exchange.data);
    let first = exchange.data[0];
    let others = sections_text(exchange.data.skip(1));
    let end = "END-ISO-10303-21;\n"@;
    let section = section_text(first);
    assert(section =~= "DATA;"@ + (seq!['\n'] + (entities_text(first.entities) + "ENDSEC;\n"@)));
    assert(exchange_text(exchange) =~= preamble(exchange) + ((section + others) + end));
    assert((section + others) + end =~= "DATA;"@ + data_body(first, exchange.data.skip(1)));
    assert(preamble(exchange) + ("DATA;"@ + data_body(first, exchange.data.skip(1))) =~= preamble(
        exchange,
    ) + "DATA;"@ + data_body(first, exchange.data.skip(1)));
}

/// Where a structure holds an empty aggregate, its text may.
proof fn lemma_body_holds_empty(first: SectionView, others: Seq<SectionView>)
    requires
        entities_have_empty(first.entities) || sections_have_empty(others),
    ensures
        may_hold_empty(data_body(first, others)),
{
    let body = data_body(first, others);
    let end = "END-ISO-10303-21;\n"@;
    if entities_have_empty(first.entities) {
        lemma_empty_occurs_entities(first.entities);
        let tail = "ENDSEC;\n"@ + (sections_text(others) + end);
        lemma_occurs_in(seq!['\n'], entities_text(first.entities), tail, "()"@);
        assert(seq!['\n'] + entities_text(first.entities) + tail =~= body);
    } else {
        lemma_empty_occurs_sections(others);
        let head = seq!['\n'] + entities_text(first.entities) + "ENDSEC;\n"@;
        lemma_occurs_in(head, sections_text(others), end, "()"@);
        assert(head + sections_text(others) + end =~= body);
    }
}

/// What goes to the parser from what the writer has written: the text of the structure with
/// its empty aggregates marked.
pub proof fn law_prepared_is_marked(exchange: ExchangeView, rules: Rules, full: Rules)
    requires
        exchange.data.len() > 0,
        exchange.data[0].meta.len() == 0,
        !occurs(preamble(exchange), "DATA;"@),
        !occurs(exchange_text(exchange), ".STEPREDOXEMPTYAGGREGATE."@),
        fits_sections(exchange.data, rules),
        sections_none_bare(exchange.data),
        metas_fit(exchange.data, full),
        real_rules(rules),
        real_rules(full),
        rules.empties,
        !full.empties,
    ensures
        prepared(exchange_text(exchange)) == Some(
            (exchange_text(mark_exchange(exchange)), sections_have_empty(exchange.data)),
        ),
{
    lemma_literals();
    let text = exchange_text(exchange);
    let before = preamble(exchange);
    let first = exchange.data[0];
    let others = exchange.data.skip(1);
    let out = mark_exchange(exchange);
    lemma_text_parts(exchange);
    lemma_text_parts(out);
    assert(out.data.skip(1) =~= mark_sections(others));
    lemma_sections_front(exchange.data);
    let inner = data_body(first, others);
    assert(before.last() == "ENDSEC;\n"@[7]);
    lemma_data_at(before, inner);
    let start = before.len() + 5;
    assert(text.skip(start as int) =~= inner);
    assert(text.take(start as int) =~= before + "DATA;"@);
    assert forall|i: int| 0 <= i < others.len() implies fits_entities(
        (#[trigger] others[i]).entities,
        rules,
    ) && none_bare(others[i].entities) && all_fit(others[i].meta, full) by {
        assert(others[i] == exchange.data[i + 1]);
        assert(fits_entities(exchange.data[i + 1].entities, rules));
        assert(all_fit(exchange.data[i + 1].meta, full));
    }
    assert(fits_entities(exchange.data[0].entities, rules));
    assert(none_bare(exchange.data[0].entities));
    lemma_body_marked(first, others, rules, full);
    if sections_have_empty(exchange.data) {
        lemma_body_holds_empty(first, others);
    } else {
        lemma_sections_unmarked(exchange.data);
    }
}

proof fn lemma_records_unmarked(records: Seq<RecordView>)
    requires
        !records_have_empty(records),
    ensures
        mark_records(records) == records,
    decreases records.len(),
{
    if records.len() > 0 {
        lemma_records_unmarked(records.drop_last());
        lemma_unmarked(records.last().parameter);
        assert(mark_records(records).drop_last() =~= mark_records(records.drop_last()));
        assert(mark_records(records).last() == records.last());
        assert(mark_records(records) =~= records) by {
            assert forall|i: int| 0 <= i < records.len() implies mark_record(records[i])
                == records[i] by {
                if i < records.len() - 1 {
                    assert(mark_records(records.drop_last())[i] == records.drop_last()[i]);
                }
            }
        }
    } else {
        assert(mark_records(records) =~= records);
    }
}

proof fn lemma_entities_unmarked(entities: Seq<EntityView>)
    requires
        !entities_have_empty(entities),
    ensures
        mark_entities(entities) == entities,
    decreases entities.len(),
{
    if entities.len() > 0 {
        let front = entities.drop_last();
        lemma_entities_unmarked(front);
        lemma_records_unmarked(entities.last().records());
        let last = entities.last();
        match last {
            EntityView::Simple { record, .. } => {
                assert(mark_records(last.records())[0] == last.records()[0]);
            },
            EntityView::Complex { .. } => {},
        }
        assert(mark_entities(entities) =~= entities) by {
            assert forall|i: int| 0 <= i < entities.len() implies mark_entity(entities[i])
                == entities[i] by {
                if i < entities.len() - 1 {
                    assert(mark_entities(front)[i] == front[i]);
                }
            }
        }
    } else {
        assert(mark_entities(entities) =~= entities);
    }
}

pub proof fn lemma_sections_unmarked(sections: Seq<SectionView>)
    requires
        !sections_have_empty(sections),
    ensures
        mark_sections(sections) == sections,
    decreases sections.len(),
{
    if sections.len() > 0 {
        let front = sections.drop_last();
        lemma_sections_unmarked(front);
        lemma_entities_unmarked(sections.last().entities);
        assert(mark_sections(sections) =~= sections) by {
            assert forall|i: int| 0 <= i < sections.len() implies #[trigger] mark_sections(
                sections,
            )[i] == sections[i] by {
                if i < sections.len() - 1 {
                    assert(mark_sections(front)[i] == front[i]);
                }
            }
        }
    } else {
        assert(mark_sections(sections) =~= sections);
    }
}

} // verus!
