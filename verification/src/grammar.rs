//! The words of exchange files.

use vstd::prelude::*;

use crate::ast::{EntityView, ExchangeView, NameView, ParamView, RecordView, SectionView};
use crate::refs::{map_entity, map_record, map_refs};
use crate::text::is_plain;
use crate::unambiguous::{
    all_sound, is_delimiter, is_sound, is_sound_entity, is_sound_record, is_word, map_items,
};

verus! {

pub open spec fn is_upper(c: char) -> bool {
    ('A' <= c && c <= 'Z') || c == '_'
}

pub open spec fn is_figure(c: char) -> bool {
    '0' <= c && c <= '9'
}

/// Whether a text is a keyword: upper-case letters, underscores and digits, where the first
/// character is no digit.
pub open spec fn is_keyword(s: Seq<char>) -> bool {
    &&& s.len() > 0
    &&& is_upper(s[0])
    &&& forall|i: int| 0 <= i < s.len() ==> is_upper(#[trigger] s[i]) || is_figure(s[i])
}

/// Whether a text is a number in decimal: digits, perhaps behind a minus sign, perhaps with a
/// point.
pub open spec fn is_decimal(s: Seq<char>) -> bool {
    &&& s.len() > 0
    &&& is_figure(s[0]) || s[0] == '-'
    &&& forall|i: int|
        0 <= i < s.len() ==> is_figure(#[trigger] s[i]) || s[i] == '-' || s[i] == '.'
}

/// What a structure may hold: which reals, whether empty aggregates, and whether strings of
/// plain characters only.
pub struct Rules {
    pub reals: spec_fn(Seq<char>) -> bool,
    pub empties: bool,
    pub plain: bool,
}

pub open spec fn fits_string(s: Seq<char>, plain: bool) -> bool {
    if plain {
        forall|i: int| 0 <= i < s.len() ==> is_plain(#[trigger] s[i])
    } else {
        !s.contains('\'')
    }
}

/// Whether a parameter keeps the rules.
pub open spec fn fits(p: ParamView, rules: Rules) -> bool
    decreases p,
{
    match p {
        ParamView::Typed { keyword, parameter } => is_keyword(keyword) && fits(*parameter, rules),
        ParamView::Integer(v) => v > i64::MIN,
        ParamView::Real(s) => (rules.reals)(s),
        ParamView::String(s) => fits_string(s, rules.plain),
        ParamView::Enumeration(s) => is_keyword(s),
        ParamView::List(items) => (rules.empties || items.len() > 0) && all_fit(items, rules),
        ParamView::Ref(NameView::ConstantEntity(s)) => is_keyword(s),
        ParamView::Ref(NameView::ConstantValue(s)) => is_keyword(s),
        _ => true,
    }
}

pub open spec fn all_fit(items: Seq<ParamView>, rules: Rules) -> bool
    decreases items,
{
    if items.len() == 0 {
        true
    } else {
        all_fit(items.drop_last(), rules) && fits(items.last(), rules)
    }
}

/// Whether a record keeps the rules. Its list may be empty in any case.
pub open spec fn fits_record(record: RecordView, rules: Rules) -> bool {
    &&& is_keyword(record.name)
    &&& record.parameter matches ParamView::List(items)
    &&& all_fit(items, rules)
}

pub open spec fn fits_records(records: Seq<RecordView>, rules: Rules) -> bool {
    forall|i: int| 0 <= i < records.len() ==> fits_record(#[trigger] records[i], rules)
}

pub open spec fn fits_entities(entities: Seq<EntityView>, rules: Rules) -> bool {
    forall|i: int|
        0 <= i < entities.len() ==> fits_records((#[trigger] entities[i]).records(), rules)
}

pub open spec fn fits_sections(sections: Seq<SectionView>, rules: Rules) -> bool {
    forall|i: int|
        0 <= i < sections.len() ==> fits_entities((#[trigger] sections[i]).entities, rules)
}

/// Whether a list holds a real.
pub open spec fn holds_real(p: ParamView, s: Seq<char>) -> bool
    decreases p,
{
    match p {
        ParamView::Typed { parameter, .. } => holds_real(*parameter, s),
        ParamView::Real(t) => t == s,
        ParamView::List(items) => list_holds_real(items, s),
        _ => false,
    }
}

pub open spec fn list_holds_real(items: Seq<ParamView>, s: Seq<char>) -> bool
    decreases items,
{
    items.len() > 0 && (list_holds_real(items.drop_last(), s) || holds_real(items.last(), s))
}

pub open spec fn records_hold_real(records: Seq<RecordView>, s: Seq<char>) -> bool {
    exists|i: int| 0 <= i < records.len() && holds_real((#[trigger] records[i]).parameter, s)
}

pub open spec fn section_holds_real(section: SectionView, s: Seq<char>) -> bool {
    list_holds_real(section.meta, s) || exists|i: int|
        0 <= i < section.entities.len() && records_hold_real(
            (#[trigger] section.entities[i]).records(),
            s,
        )
}

/// Whether a structure holds a real.
pub open spec fn exchange_holds_real(exchange: ExchangeView, s: Seq<char>) -> bool {
    records_hold_real(exchange.header, s) || exists|i: int|
        0 <= i < exchange.data.len() && section_holds_real(#[trigger] exchange.data[i], s)
}

pub proof fn lemma_all_fit(items: Seq<ParamView>, rules: Rules)
    ensures
        all_fit(items, rules) == (forall|i: int|
            0 <= i < items.len() ==> fits(#[trigger] items[i], rules)),
    decreases items,
{
    if items.len() > 0 {
        let front = items.drop_last();
        lemma_all_fit(front, rules);
        if all_fit(items, rules) {
            assert forall|i: int| 0 <= i < items.len() implies fits(#[trigger] items[i], rules) by {
                if i < front.len() {
                    assert(fits(front[i], rules));
                }
            }
        }
        if forall|i: int| 0 <= i < items.len() ==> fits(#[trigger] items[i], rules) {
            assert forall|i: int| 0 <= i < front.len() implies fits(#[trigger] front[i], rules) by {
                assert(front[i] == items[i]);
            }
            assert(fits(items[items.len() - 1], rules));
        }
    }
}

proof fn lemma_keyword_is_word(s: Seq<char>)
    requires
        is_keyword(s),
    ensures
        is_word(s),
{
    assert forall|i: int| 0 <= i < s.len() implies !is_delimiter(#[trigger] s[i]) by {
        assert(is_upper(s[i]) || is_figure(s[i]));
    }
}

/// What is written as a word: a number in decimal, or a name of infinity.
pub open spec fn is_real_word(s: Seq<char>) -> bool {
    is_decimal(s) || s == "inf"@ || s == "-inf"@
}

proof fn lemma_real_is_word(s: Seq<char>)
    requires
        is_real_word(s),
    ensures
        is_word(s),
        s[0] != '#',
{
    reveal_strlit("inf");
    reveal_strlit("-inf");
    assert("inf"@.len() == 3 && "-inf"@.len() == 4);
    if is_decimal(s) {
        assert forall|i: int| 0 <= i < s.len() implies !is_delimiter(#[trigger] s[i]) by {
            assert(is_figure(s[i]) || s[i] == '-' || s[i] == '.');
        }
    } else if s == "inf"@ {
        assert(s[0] == 'i' && s[1] == 'n' && s[2] == 'f');
    } else {
        assert(s[0] == '-' && s[1] == 'i' && s[2] == 'n' && s[3] == 'f');
    }
}

/// What keeps the rules has the words of the grammar.
pub proof fn lemma_fits_is_sound(p: ParamView, rules: Rules)
    requires
        fits(p, rules),
        forall|s: Seq<char>| #[trigger] (rules.reals)(s) ==> is_real_word(s),
    ensures
        is_sound(p),
    decreases p,
{
    match p {
        ParamView::Typed { keyword, parameter } => {
            lemma_keyword_is_word(keyword);
            lemma_fits_is_sound(*parameter, rules);
        },
        ParamView::Real(s) => {
            lemma_real_is_word(s);
        },
        ParamView::Enumeration(s) => {
            lemma_keyword_is_word(s);
        },
        ParamView::List(items) => {
            lemma_all_fit_is_sound(items, rules);
        },
        ParamView::Ref(NameView::ConstantEntity(s)) => {
            lemma_keyword_is_word(s);
        },
        ParamView::Ref(NameView::ConstantValue(s)) => {
            lemma_keyword_is_word(s);
        },
        _ => {},
    }
}

proof fn lemma_all_fit_is_sound(items: Seq<ParamView>, rules: Rules)
    requires
        all_fit(items, rules),
        forall|s: Seq<char>| #[trigger] (rules.reals)(s) ==> is_real_word(s),
    ensures
        all_sound(items),
    decreases items,
{
    if items.len() > 0 {
        lemma_all_fit(items, rules);
        lemma_all_fit(items.skip(1), rules);
        assert forall|i: int| 0 <= i < items.skip(1).len() implies fits(
            #[trigger] items.skip(1)[i],
            rules,
        ) by {
            assert(items.skip(1)[i] == items[i + 1]);
        }
        assert(fits(items[0], rules));
        lemma_fits_is_sound(items[0], rules);
        lemma_all_fit_is_sound(items.skip(1), rules);
    }
}

/// Entities that keep the rules have the words of the grammar.
pub proof fn lemma_entities_sound(entities: Seq<EntityView>, rules: Rules)
    requires
        fits_entities(entities, rules),
        forall|s: Seq<char>| #[trigger] (rules.reals)(s) ==> is_real_word(s),
    ensures
        crate::settled::all_sound_entities(entities),
{
    assert forall|i: int| 0 <= i < entities.len() implies is_sound_entity(
        #[trigger] entities[i],
    ) by {
        let records = entities[i].records();
        assert(fits_records(records, rules));
        assert forall|k: int| 0 <= k < records.len() implies is_sound_record(
            #[trigger] records[k],
        ) by {
            assert(fits_record(records[k], rules));
            lemma_keyword_is_word(records[k].name);
            lemma_all_fit_is_sound(records[k].parameter->List_0, rules);
        }
    }
}

proof fn lemma_mapped_fits(p: ParamView, f: spec_fn(u64) -> u64, rules: Rules)
    ensures
        fits(map_refs(p, f), rules) == fits(p, rules),
    decreases p,
{
    match p {
        ParamView::Typed { parameter, .. } => {
            lemma_mapped_fits(*parameter, f, rules);
        },
        ParamView::List(items) => {
            assert(map_refs(p, f)->List_0 =~= map_items(items, f));
            lemma_mapped_items_fit(items, f, rules);
        },
        _ => {},
    }
}

proof fn lemma_mapped_items_fit(items: Seq<ParamView>, f: spec_fn(u64) -> u64, rules: Rules)
    ensures
        all_fit(map_items(items, f), rules) == all_fit(items, rules),
    decreases items,
{
    if items.len() > 0 {
        let mapped = map_items(items, f);
        lemma_mapped_items_fit(items.drop_last(), f, rules);
        lemma_mapped_fits(items.last(), f, rules);
        assert(mapped.drop_last() =~= map_items(items.drop_last(), f));
        assert(mapped.last() == map_refs(items.last(), f));
    }
}

/// Replacing references keeps the rules.
pub proof fn lemma_mapped_entity_fits(entity: EntityView, f: spec_fn(u64) -> u64, rules: Rules)
    requires
        fits_records(entity.records(), rules),
    ensures
        fits_records(map_entity(entity, f).records(), rules),
{
    crate::settled::lemma_mapped_entity(entity, f);
    let mapped = map_entity(entity, f).records();
    assert forall|i: int| 0 <= i < mapped.len() implies fits_record(
        #[trigger] mapped[i],
        rules,
    ) by {
        let record = entity.records()[i];
        assert(fits_record(record, rules));
        assert(mapped[i] == map_record(record, f));
        assert(map_refs(record.parameter, f)->List_0 =~= map_items(record.parameter->List_0, f));
        lemma_mapped_items_fit(record.parameter->List_0, f, rules);
    }
}

} // verus!
