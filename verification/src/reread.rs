//! Reading back what was written.

use vstd::prelude::*;

use crate::ast::{EntityView, ExchangeView, ParamView, RecordView, SectionView};
use crate::consolidate::{free_root, is_root, root_key};
use crate::grammar::{all_fit, fits, fits_record, fits_records, Rules};
use crate::intern::{internable, internable_name};
use crate::marks::{
    mark, mark_entities, mark_entity, mark_exchange, mark_items, mark_record, mark_records,
    mark_sections,
};
use crate::refs::{all_refs, entity_refs, list_refs, param_refs, records_refs};
use crate::shim::{
    is_marker, restored, restored_entities, restored_exchange, restored_items, restored_records,
    restored_sections, MarkerError,
};
use crate::stable::{cleaned, dense, law_consolidated_twice, law_interned_twice, law_renumbered_twice, roots_differ};
use crate::settled::values_differ;
use crate::text::escaped;
use crate::unambiguous::{body_text, lemma_escaped_plain, lemma_plain_stays};
use crate::write::{
    entities_text, entity_text, exchange_text, header_text, list_text, param_text, records_text,
    sections_text,
};

verus! {

/// A parameter with its strings as they stand in the file. The parser does not take escapes
/// apart, so this is what it gives back.
pub open spec fn plain(p: ParamView) -> ParamView
    decreases p,
{
    match p {
        ParamView::String(s) => ParamView::String(escaped(s, false)),
        ParamView::List(items) => ParamView::List(plain_items(items)),
        ParamView::Typed { keyword, parameter } => ParamView::Typed {
            keyword,
            parameter: Box::new(plain(*parameter)),
        },
        other => other,
    }
}

pub open spec fn plain_items(items: Seq<ParamView>) -> Seq<ParamView>
    decreases items,
{
    if items.len() == 0 {
        Seq::empty()
    } else {
        plain_items(items.drop_last()).push(plain(items.last()))
    }
}

pub open spec fn plain_record(record: RecordView) -> RecordView {
    RecordView { name: record.name, parameter: plain(record.parameter) }
}

pub open spec fn plain_records(records: Seq<RecordView>) -> Seq<RecordView> {
    Seq::new(records.len(), |i: int| plain_record(records[i]))
}

pub open spec fn plain_entity(entity: EntityView) -> EntityView {
    match entity {
        EntityView::Simple { id, record } => EntityView::Simple { id, record: plain_record(record) },
        EntityView::Complex { id, subsuper } => EntityView::Complex {
            id,
            subsuper: plain_records(subsuper),
        },
    }
}

pub open spec fn plain_entities(entities: Seq<EntityView>) -> Seq<EntityView> {
    Seq::new(entities.len(), |i: int| plain_entity(entities[i]))
}

pub open spec fn plain_sections(sections: Seq<SectionView>) -> Seq<SectionView> {
    Seq::new(
        sections.len(),
        |i: int|
            SectionView {
                meta: plain_items(sections[i].meta),
                entities: plain_entities(sections[i].entities),
            },
    )
}

/// A structure with its strings as they stand in the file.
pub open spec fn plain_exchange(exchange: ExchangeView) -> ExchangeView {
    ExchangeView {
        header: plain_records(exchange.header),
        data: plain_sections(exchange.data),
        ..exchange
    }
}

/// The rules for strings of plain characters.
pub open spec fn plain_rules(rules: Rules) -> Rules {
    Rules { plain: true, ..rules }
}

proof fn lemma_plain_len(items: Seq<ParamView>)
    ensures
        plain_items(items).len() == items.len(),
        forall|i: int| 0 <= i < items.len() ==> #[trigger] plain_items(items)[i] == plain(items[i]),
    decreases items,
{
    if items.len() > 0 {
        lemma_plain_len(items.drop_last());
    }
}

/// The text and the references stay.
proof fn lemma_plain_param(p: ParamView, rules: Rules)
    ensures
        param_text(plain(p)) == param_text(p),
        param_refs(plain(p)) == param_refs(p),
        fits(p, rules) ==> fits(plain(p), plain_rules(rules)),
        plain(p) is List == p is List,
    decreases p, 0nat,
{
    match p {
        ParamView::String(s) => {
            lemma_escaped_plain(s, false);
            lemma_plain_stays(escaped(s, false));
        },
        ParamView::List(items) => {
            lemma_plain_list(items, rules);
        },
        ParamView::Typed { parameter, .. } => {
            lemma_plain_param(*parameter, rules);
        },
        _ => {},
    }
}

pub proof fn lemma_plain_list(items: Seq<ParamView>, rules: Rules)
    ensures
        list_text(plain_items(items)) == list_text(items),
        list_refs(plain_items(items)) == list_refs(items),
        all_fit(items, rules) ==> all_fit(plain_items(items), plain_rules(rules)),
        plain_items(items).len() == items.len(),
    decreases items, 1nat,
{
    lemma_plain_len(items);
    if items.len() > 0 {
        let out = plain_items(items);
        lemma_plain_list(items.drop_last(), rules);
        lemma_plain_param(items.last(), rules);
        assert(out.drop_last() =~= plain_items(items.drop_last()));
        assert(out.last() == plain(items.last()));
        if items.len() == 1 {
            assert(out[0] == plain(items[0]));
        }
    }
}

pub proof fn lemma_plain_records(records: Seq<RecordView>, rules: Rules)
    ensures
        records_text(plain_records(records)) == records_text(records),
        header_text(plain_records(records)) == header_text(records),
        records_refs(plain_records(records)) == records_refs(records),
        fits_records(records, rules) ==> fits_records(plain_records(records), plain_rules(rules)),
    decreases records.len(),
{
    let out = plain_records(records);
    if records.len() > 0 {
        let front = records.drop_last();
        lemma_plain_records(front, rules);
        lemma_plain_param(records.last().parameter, rules);
        assert(out.drop_last() =~= plain_records(front));
        assert(out.last() == plain_record(records.last()));
    }
    if fits_records(records, rules) {
        assert forall|i: int| 0 <= i < out.len() implies fits_record(
            #[trigger] out[i],
            plain_rules(rules),
        ) by {
            assert(fits_record(records[i], rules));
            lemma_plain_list(records[i].parameter->List_0, rules);
        }
    }
}

/// What an entity has in common with what is read back.
pub proof fn lemma_plain_entity(entity: EntityView, rules: Rules)
    ensures
        entity_text(plain_entity(entity)) == entity_text(entity),
        body_text(plain_entity(entity)) == body_text(entity),
        entity_refs(plain_entity(entity)) == entity_refs(entity),
        plain_entity(entity).id() == entity.id(),
        plain_entity(entity).records() == plain_records(entity.records()),
        internable(plain_entity(entity)) == internable(entity),
        is_root(plain_entity(entity)) == is_root(entity),
        is_root(entity) ==> root_key(plain_entity(entity)) == root_key(entity),
        fits_records(entity.records(), rules) ==> fits_records(
            plain_entity(entity).records(),
            plain_rules(rules),
        ),
{
    let out = plain_entity(entity);
    assert(out.records() =~= plain_records(entity.records()));
    lemma_plain_records(entity.records(), rules);
    match entity {
        EntityView::Simple { record, .. } => {
            lemma_plain_param(record.parameter, rules);
            if let ParamView::List(items) = record.parameter {
                lemma_plain_len(items);
                if items.len() == 3 {
                    lemma_plain_param(items[0], rules);
                    lemma_plain_param(items[1], rules);
                    lemma_plain_param(items[2], rules);
                }
            }
        },
        EntityView::Complex { subsuper, .. } => {
            let other = out->subsuper;
            assert forall|i: int| 0 <= i < subsuper.len() implies (#[trigger] other[i]).name
                == subsuper[i].name by {}
            if internable(out) {
                assert forall|i: int| 0 <= i < subsuper.len() implies internable_name(
                    #[trigger] subsuper[i].name,
                ) by {
                    assert(internable_name(other[i].name));
                }
            }
        },
    }
}

proof fn lemma_plain_entities(entities: Seq<EntityView>)
    ensures
        entities_text(plain_entities(entities)) == entities_text(entities),
        all_refs(plain_entities(entities)) == all_refs(entities),
    decreases entities.len(),
{
    let out = plain_entities(entities);
    if entities.len() > 0 {
        let front = entities.drop_last();
        lemma_plain_entities(front);
        lemma_plain_entity(entities.last(), any_rules());
        assert(out.drop_last() =~= plain_entities(front));
        assert(out.last() == plain_entity(entities.last()));
    }
}

/// Rules that allow all.
spec fn any_rules() -> Rules {
    Rules { reals: |s: Seq<char>| true, empties: true, plain: false }
}

proof fn lemma_plain_sections(sections: Seq<SectionView>)
    ensures
        sections_text(plain_sections(sections)) == sections_text(sections),
    decreases sections.len(),
{
    let out = plain_sections(sections);
    if sections.len() > 0 {
        let front = sections.drop_last();
        lemma_plain_sections(front);
        lemma_plain_entities(sections.last().entities);
        lemma_plain_list(sections.last().meta, any_rules());
        assert(out.drop_last() =~= plain_sections(front));
        assert(out.last().meta == plain_items(sections.last().meta));
    }
}

/// What is read back is written alike.
pub proof fn law_plain_text(exchange: ExchangeView)
    ensures
        exchange_text(plain_exchange(exchange)) == exchange_text(exchange),
{
    lemma_plain_records(exchange.header, any_rules());
    lemma_plain_sections(exchange.data);
}

/// Clean entities stay clean when they are read back.
pub proof fn lemma_plain_stays_clean(entities: Seq<EntityView>)
    requires
        dense(entities),
        values_differ(entities),
        roots_differ(entities),
    ensures
        cleaned(plain_entities(entities)) == plain_entities(entities),
{
    let out = plain_entities(entities);
    lemma_plain_entities(entities);
    assert forall|i: int| 0 <= i < out.len() implies (#[trigger] out[i]).id() == i + 1 && internable(
        out[i],
    ) == internable(entities[i]) && body_text(out[i]) == body_text(entities[i]) && is_root(out[i])
        == is_root(entities[i]) && (is_root(entities[i]) ==> root_key(out[i]) == root_key(
        entities[i],
    )) by {
        lemma_plain_entity(entities[i], any_rules());
    }
    assert forall|i: int, j: int|
        0 <= i < j < out.len() && internable(#[trigger] out[i]) && internable(
            #[trigger] out[j],
        ) implies body_text(out[i]) != body_text(out[j]) by {
        assert(internable(entities[i]) && internable(entities[j]));
    }
    assert forall|i: int, j: int|
        0 <= i < j < out.len() && #[trigger] free_root(out, i) && #[trigger] free_root(
            out,
            j,
        ) implies root_key(out[i]) != root_key(out[j]) by {
        assert(free_root(entities, i) && free_root(entities, j));
    }
    law_interned_twice(out);
    law_consolidated_twice(out);
    law_renumbered_twice(out);
}

/// Whether a parameter holds a mark.
pub open spec fn has_mark(p: ParamView) -> bool
    decreases p,
{
    match p {
        ParamView::List(items) => list_has_mark(items),
        ParamView::Typed { parameter, .. } => has_mark(*parameter),
        _ => is_marker(p),
    }
}

pub open spec fn list_has_mark(items: Seq<ParamView>) -> bool
    decreases items,
{
    items.len() > 0 && (list_has_mark(items.drop_last()) || has_mark(items.last()))
}

pub open spec fn records_have_mark(records: Seq<RecordView>) -> bool
    decreases records.len(),
{
    records.len() > 0 && (records_have_mark(records.drop_last()) || has_mark(
        records.last().parameter,
    ))
}

pub open spec fn entities_have_mark(entities: Seq<EntityView>) -> bool
    decreases entities.len(),
{
    entities.len() > 0 && (entities_have_mark(entities.drop_last()) || records_have_mark(
        entities.last().records(),
    ))
}

pub open spec fn sections_have_mark(sections: Seq<SectionView>) -> bool
    decreases sections.len(),
{
    sections.len() > 0 && (sections_have_mark(sections.drop_last()) || entities_have_mark(
        sections.last().entities,
    ))
}

/// What was marked is taken back.
proof fn lemma_restored_mark(p: ParamView)
    requires
        !has_mark(p),
    ensures
        restored(mark(p)) == Ok::<ParamView, MarkerError>(p),
        !is_marker(mark(p)),
    decreases p, 0nat,
{
    match p {
        ParamView::List(items) => {
            if items.len() > 0 {
                lemma_restored_items(items);
                let list = mark_items(items);
                if items.len() == 1 {
                    assert(list[0] == mark(items.last()));
                    assert(has_mark(items.last()) == false);
                    lemma_restored_mark(items.last());
                }
            } else {
                assert(items =~= Seq::empty());
            }
        },
        ParamView::Typed { parameter, .. } => {
            lemma_restored_mark(*parameter);
        },
        _ => {},
    }
}

proof fn lemma_restored_items(items: Seq<ParamView>)
    requires
        !list_has_mark(items),
    ensures
        restored_items(mark_items(items)) == Ok::<Seq<ParamView>, MarkerError>(items),
        mark_items(items).len() == items.len(),
        items.len() > 0 ==> mark_items(items).last() == mark(items.last()),
    decreases items, 1nat,
{
    if items.len() > 0 {
        lemma_restored_items(items.drop_last());
        lemma_restored_mark(items.last());
        assert(mark_items(items).drop_last() =~= mark_items(items.drop_last()));
        assert(items.drop_last().push(items.last()) =~= items);
    } else {
        assert(items =~= Seq::empty());
    }
}

proof fn lemma_restored_records(records: Seq<RecordView>)
    requires
        !records_have_mark(records),
    ensures
        restored_records(mark_records(records)) == Ok::<Seq<RecordView>, MarkerError>(records),
    decreases records.len(),
{
    let out = mark_records(records);
    if records.len() > 0 {
        let front = records.drop_last();
        lemma_restored_records(front);
        lemma_restored_mark(records.last().parameter);
        assert(out.drop_last() =~= mark_records(front));
        assert(out.last() == mark_record(records.last()));
        assert(front.push(records.last()) =~= records);
    } else {
        assert(records =~= Seq::empty());
    }
}

proof fn lemma_restored_entities(entities: Seq<EntityView>)
    requires
        !entities_have_mark(entities),
    ensures
        restored_entities(mark_entities(entities)) == Ok::<Seq<EntityView>, MarkerError>(entities),
    decreases entities.len(),
{
    let out = mark_entities(entities);
    if entities.len() > 0 {
        let front = entities.drop_last();
        let last = entities.last();
        lemma_restored_entities(front);
        assert(out.drop_last() =~= mark_entities(front));
        assert(out.last() == mark_entity(last));
        match last {
            EntityView::Simple { record, .. } => {
                reveal_with_fuel(records_have_mark, 2);
                assert(last.records().last() == record);
                lemma_restored_mark(record.parameter);
            },
            EntityView::Complex { subsuper, .. } => {
                lemma_restored_records(subsuper);
            },
        }
        assert(front.push(last) =~= entities);
    } else {
        assert(entities =~= Seq::empty());
    }
}

proof fn lemma_restored_sections(sections: Seq<SectionView>)
    requires
        !sections_have_mark(sections),
    ensures
        restored_sections(mark_sections(sections)) == Ok::<Seq<SectionView>, MarkerError>(sections),
    decreases sections.len(),
{
    let out = mark_sections(sections);
    if sections.len() > 0 {
        let front = sections.drop_last();
        lemma_restored_sections(front);
        lemma_restored_entities(sections.last().entities);
        assert(out.drop_last() =~= mark_sections(front));
        assert(front.push(sections.last()) =~= sections);
    } else {
        assert(sections =~= Seq::empty());
    }
}

/// Taking the marks out of a marked structure gives the structure, where it held no marks.
pub proof fn law_marks_are_taken_back(exchange: ExchangeView)
    requires
        !sections_have_mark(exchange.data),
    ensures
        restored_exchange(mark_exchange(exchange)) == Ok::<ExchangeView, MarkerError>(exchange),
{
    lemma_restored_sections(exchange.data);
}

} // verus!
