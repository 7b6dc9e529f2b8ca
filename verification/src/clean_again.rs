//! Cleaning twice: what the first pass writes, the second one leaves as it is.

use vstd::prelude::*;
use vstd::utf8::encode_utf8;

use crate::ast::{EntityView, ExchangeView, ParamView, RecordView, SectionView};
use crate::clean::{
    begin_cleaning, begun, closed_with, finished, leads_to, mapped, own_steps, pass_order,
    with_data, CleanRun, CleanStep, CleanedExchange,
};
use crate::consolidate::{
    consolidated, free_root, is_root, items_at, merged_into, root_items, taken_over, with_items,
};
use crate::finite::is_infinite;
use crate::grammar::{
    all_fit, exchange_holds_real, fits, fits_entities, fits_record, fits_records, fits_sections,
    holds_real, is_decimal, is_keyword, is_real_word, lemma_all_fit, lemma_entities_sound,
    lemma_mapped_entity_fits, list_holds_real, records_hold_real, section_holds_real, Rules,
};
use crate::intern::{aliases, interned, survivors};
use crate::marks::{
    law_prepared_is_marked, mark, mark_exchange, mark_items, mark_records, mark_sections, metas_fit,
    none_bare, preamble, real_rules, sections_have_empty, sections_none_bare,
};
use crate::options::{default_options, Options};
use crate::read::{
    decoded, keeps, oversized_number, parse_outcome, parser_facts, read_rules, reading,
    reading_facts, restored_if, too_deep, written_rules, Encoding, StepError,
};
use crate::refs::{lookup, map_entity};
use crate::renumber::{numbering, renumbered};
use crate::reread::{
    entities_have_mark, has_mark, law_marks_are_taken_back, law_plain_text, lemma_plain_entity,
    lemma_plain_stays_clean, list_has_mark, plain, plain_entities, plain_exchange, plain_rules,
    records_have_mark, sections_have_mark,
};
use crate::scan::{occurs, occurs_at};
use crate::settled::distinct;
use crate::shim::{
    data_at, first_at, is_marker, marker, may_hold_empty, prepared, restored, restored_entities,
    restored_entity, restored_items, restored_records, restored_sections,
};
use crate::stable::{cleaned, dense, law_cleaned_twice, meets_none, roots_differ};
use crate::stats::no_counts;
use crate::write::{
    entities_text, entity_text, exchange_text, has_optional_sections, list_text, param_text,
    record_text, records_text, section_text, sections_text,
};

verus! {

/// Rules that also allow empty aggregates.
pub open spec fn loose(rules: Rules) -> Rules {
    Rules { empties: true, ..rules }
}

/// Rules that allow no empty aggregates.
pub open spec fn strict(rules: Rules) -> Rules {
    Rules { empties: false, ..rules }
}

proof fn lemma_loose(p: ParamView, rules: Rules)
    requires
        fits(p, rules),
    ensures
        fits(p, loose(rules)),
    decreases p,
{
    match p {
        ParamView::List(items) => {
            lemma_loose_items(items, rules);
        },
        ParamView::Typed { parameter, .. } => {
            lemma_loose(*parameter, rules);
        },
        _ => {},
    }
}

proof fn lemma_loose_items(items: Seq<ParamView>, rules: Rules)
    requires
        all_fit(items, rules),
    ensures
        all_fit(items, loose(rules)),
    decreases items,
{
    if items.len() > 0 {
        lemma_loose_items(items.drop_last(), rules);
        lemma_loose(items.last(), rules);
    }
}

/// What the marks were taken out of keeps the rules, but for empty aggregates.
proof fn lemma_restored_fits(p: ParamView, rules: Rules)
    requires
        fits(p, rules),
        restored(p) is Ok,
    ensures
        fits(restored(p)->Ok_0, loose(rules)),
        p is List ==> restored(p)->Ok_0 is List,
    decreases p, 0nat,
{
    match p {
        ParamView::List(items) => {
            if items.len() == 1 && is_marker(items[0]) {
                assert(all_fit(Seq::<ParamView>::empty(), loose(rules)));
            } else {
                lemma_restored_items_fit(items, rules);
            }
        },
        ParamView::Typed { parameter, .. } => {
            lemma_restored_fits(*parameter, rules);
        },
        _ => {},
    }
}

proof fn lemma_restored_items_fit(items: Seq<ParamView>, rules: Rules)
    requires
        all_fit(items, rules),
        restored_items(items) is Ok,
    ensures
        all_fit(restored_items(items)->Ok_0, loose(rules)),
    decreases items, 1nat,
{
    if items.len() > 0 {
        lemma_restored_items_fit(items.drop_last(), rules);
        lemma_restored_fits(items.last(), rules);
        let out = restored_items(items)->Ok_0;
        assert(out.drop_last() =~= restored_items(items.drop_last())->Ok_0);
    }
}

proof fn lemma_restored_parameter(p: ParamView, rules: Rules)
    requires
        p matches ParamView::List(items) && all_fit(items, rules),
        restored(p) is Ok,
    ensures
        restored(p)->Ok_0 matches ParamView::List(items) && all_fit(items, loose(rules)),
{
    let items = p->List_0;
    if items.len() == 1 && is_marker(items[0]) {
        assert(all_fit(Seq::<ParamView>::empty(), loose(rules)));
    } else {
        lemma_restored_items_fit(items, rules);
    }
}

proof fn lemma_restored_records_fit(records: Seq<RecordView>, rules: Rules)
    requires
        fits_records(records, rules),
        restored_records(records) is Ok,
    ensures
        fits_records(restored_records(records)->Ok_0, loose(rules)),
    decreases records.len(),
{
    if records.len() > 0 {
        let front = records.drop_last();
        assert(fits_record(records[records.len() - 1], rules));
        assert forall|i: int| 0 <= i < front.len() implies fits_record(
            #[trigger] front[i],
            rules,
        ) by {
            assert(front[i] == records[i]);
        }
        lemma_restored_records_fit(front, rules);
        lemma_restored_parameter(records.last().parameter, rules);
        let before = restored_records(front)->Ok_0;
        let out = restored_records(records)->Ok_0;
        assert forall|i: int| 0 <= i < out.len() implies fits_record(
            #[trigger] out[i],
            loose(rules),
        ) by {
            if i < before.len() {
                assert(out[i] == before[i]);
                assert(fits_record(before[i], loose(rules)));
            }
        }
    }
}

proof fn lemma_restored_entities_fit(entities: Seq<EntityView>, rules: Rules)
    requires
        fits_entities(entities, rules),
        restored_entities(entities) is Ok,
    ensures
        fits_entities(restored_entities(entities)->Ok_0, loose(rules)),
    decreases entities.len(),
{
    if entities.len() > 0 {
        let front = entities.drop_last();
        let last = entities.last();
        assert(fits_records(entities[entities.len() - 1].records(), rules));
        assert forall|i: int| 0 <= i < front.len() implies fits_records(
            (#[trigger] front[i]).records(),
            rules,
        ) by {
            assert(front[i] == entities[i]);
            assert(fits_records(entities[i].records(), rules));
        }
        lemma_restored_entities_fit(front, rules);
        let new = restored_entity(last)->Ok_0;
        match last {
            EntityView::Simple { record, .. } => {
                assert(last.records()[0] == record);
                assert(fits_record(last.records()[0], rules));
                lemma_restored_parameter(record.parameter, rules);
                assert(new.records() =~= seq![new->record]);
                assert(fits_records(new.records(), loose(rules)));
            },
            EntityView::Complex { subsuper, .. } => {
                lemma_restored_records_fit(subsuper, rules);
                assert(fits_records(new.records(), loose(rules)));
            },
        }
        let before = restored_entities(front)->Ok_0;
        let out = restored_entities(entities)->Ok_0;
        assert forall|i: int| 0 <= i < out.len() implies fits_records(
            (#[trigger] out[i]).records(),
            loose(rules),
        ) by {
            if i < before.len() {
                assert(out[i] == before[i]);
                assert(fits_records(before[i].records(), loose(rules)));
            }
        }
    }
}

proof fn lemma_restored_sections_fit(sections: Seq<SectionView>, rules: Rules)
    requires
        fits_sections(sections, rules),
        restored_sections(sections) is Ok,
    ensures
        fits_sections(restored_sections(sections)->Ok_0, loose(rules)),
        restored_sections(sections)->Ok_0.len() == sections.len(),
        forall|i: int|
            0 <= i < sections.len() ==> (#[trigger] restored_sections(sections)->Ok_0[i]).meta
                == sections[i].meta,
    decreases sections.len(),
{
    if sections.len() > 0 {
        let front = sections.drop_last();
        assert(fits_entities(sections[sections.len() - 1].entities, rules));
        assert forall|i: int| 0 <= i < front.len() implies fits_entities(
            (#[trigger] front[i]).entities,
            rules,
        ) by {
            assert(front[i] == sections[i]);
            assert(fits_entities(sections[i].entities, rules));
        }
        lemma_restored_sections_fit(front, rules);
        lemma_restored_entities_fit(sections.last().entities, rules);
        let before = restored_sections(front)->Ok_0;
        let out = restored_sections(sections)->Ok_0;
        assert forall|i: int| 0 <= i < out.len() implies fits_entities(
            (#[trigger] out[i]).entities,
            loose(rules),
        ) && out[i].meta == sections[i].meta by {
            if i < before.len() {
                assert(out[i] == before[i]);
                assert(fits_entities(before[i].entities, loose(rules)));
                assert(before[i].meta == front[i].meta);
            }
        }
    }
}

/// Whether what was read keeps the rules: empty aggregates stand in entities only.
pub open spec fn is_read(exchange: ExchangeView, rules: Rules) -> bool {
    &&& exchange.header.len() > 0
    &&& fits_records(exchange.header, rules)
    &&& metas_fit(exchange.data, rules)
    &&& fits_sections(exchange.data, loose(rules))
}

/// What a file is read as keeps the rules.
proof fn lemma_reading_fits(bytes: Seq<u8>)
    requires
        reading_facts(bytes),
        reading(bytes) is Ok,
    ensures
        is_read(reading(bytes)->Ok_0.0, read_rules()),
        !has_optional_sections(reading(bytes)->Ok_0.0),
        !is_infinite(reading(bytes)->Ok_0.0),
{
    let text = decoded(bytes)->Ok_0.0;
    let (given, marks) = prepared(text)->Some_0;
    let raw = parse_outcome(given)->Some_0;
    let rules = read_rules();
    assert(parser_facts(given));
    assert(keeps(raw, rules));
    if marks {
        lemma_restored_sections_fit(raw.data, rules);
        let out = restored_sections(raw.data)->Ok_0;
        assert forall|i: int| 0 <= i < out.len() implies all_fit(
            (#[trigger] out[i]).meta,
            rules,
        ) by {
            assert(out[i].meta == raw.data[i].meta);
            assert(all_fit(raw.data[i].meta, rules));
        }
    } else {
        assert forall|i: int| 0 <= i < raw.data.len() implies fits_entities(
            (#[trigger] raw.data[i]).entities,
            loose(rules),
        ) by {
            assert(fits_entities(raw.data[i].entities, rules));
            lemma_loose_entities(raw.data[i].entities, rules);
        }
    }
}

proof fn lemma_loose_entities(entities: Seq<EntityView>, rules: Rules)
    requires
        fits_entities(entities, rules),
    ensures
        fits_entities(entities, loose(rules)),
{
    assert forall|i: int| 0 <= i < entities.len() implies fits_records(
        (#[trigger] entities[i]).records(),
        loose(rules),
    ) by {
        let records = entities[i].records();
        assert(fits_records(records, rules));
        assert forall|k: int| 0 <= k < records.len() implies fits_record(
            #[trigger] records[k],
            loose(rules),
        ) by {
            assert(fits_record(records[k], rules));
            lemma_loose_items(records[k].parameter->List_0, rules);
        }
    }
}

/// The rules of what was read, without infinite reals.
pub open spec fn finite_rules() -> Rules {
    Rules { plain: false, ..written_rules() }
}

proof fn lemma_finite(p: ParamView, empties: bool)
    requires
        fits(p, Rules { empties, ..read_rules() }),
        !holds_real(p, "inf"@),
        !holds_real(p, "-inf"@),
    ensures
        fits(p, Rules { empties, ..finite_rules() }),
    decreases p,
{
    match p {
        ParamView::List(items) => {
            lemma_finite_items(items, empties);
        },
        ParamView::Typed { parameter, .. } => {
            lemma_finite(*parameter, empties);
        },
        _ => {},
    }
}

proof fn lemma_finite_items(items: Seq<ParamView>, empties: bool)
    requires
        all_fit(items, Rules { empties, ..read_rules() }),
        !list_holds_real(items, "inf"@),
        !list_holds_real(items, "-inf"@),
    ensures
        all_fit(items, Rules { empties, ..finite_rules() }),
    decreases items,
{
    if items.len() > 0 {
        lemma_finite_items(items.drop_last(), empties);
        lemma_finite(items.last(), empties);
    }
}

proof fn lemma_finite_records(records: Seq<RecordView>, empties: bool)
    requires
        fits_records(records, Rules { empties, ..read_rules() }),
        !records_hold_real(records, "inf"@),
        !records_hold_real(records, "-inf"@),
    ensures
        fits_records(records, Rules { empties, ..finite_rules() }),
{
    assert forall|i: int| 0 <= i < records.len() implies fits_record(
        #[trigger] records[i],
        Rules { empties, ..finite_rules() },
    ) by {
        assert(fits_record(records[i], Rules { empties, ..read_rules() }));
        assert(!holds_real(records[i].parameter, "inf"@));
        assert(!holds_real(records[i].parameter, "-inf"@));
        lemma_finite_items(records[i].parameter->List_0, empties);
    }
}

/// Without infinite reals what was read keeps the finite rules.
proof fn lemma_finite_exchange(exchange: ExchangeView)
    requires
        is_read(exchange, read_rules()),
        !exchange_holds_real(exchange, "inf"@),
        !exchange_holds_real(exchange, "-inf"@),
    ensures
        is_read(exchange, finite_rules()),
{
    let data = exchange.data;
    assert(Rules { empties: false, ..read_rules() } == read_rules());
    assert(Rules { empties: false, ..finite_rules() } == finite_rules());
    lemma_finite_records(exchange.header, false);
    assert forall|i: int| 0 <= i < data.len() implies all_fit(
        (#[trigger] data[i]).meta,
        finite_rules(),
    ) && fits_entities(data[i].entities, loose(finite_rules())) by {
        assert(all_fit(data[i].meta, read_rules()));
        assert(fits_entities(data[i].entities, loose(read_rules())));
        assert(!section_holds_real(data[i], "inf"@));
        assert(!section_holds_real(data[i], "-inf"@));
        lemma_finite_items(data[i].meta, false);
        let entities = data[i].entities;
        assert forall|k: int| 0 <= k < entities.len() implies fits_records(
            (#[trigger] entities[k]).records(),
            loose(finite_rules()),
        ) by {
            assert(fits_records(entities[k].records(), loose(read_rules())));
            assert(!records_hold_real(entities[k].records(), "inf"@));
            assert(!records_hold_real(entities[k].records(), "-inf"@));
            lemma_finite_records(entities[k].records(), true);
        }
    }
}

/// Whether entities keep rules, and each has a record.
spec fn is_whole(entities: Seq<EntityView>, rules: Rules) -> bool {
    fits_entities(entities, rules) && none_bare(entities)
}

proof fn lemma_survivors_whole(entities: Seq<EntityView>, alias: Map<u64, u64>, rules: Rules)
    requires
        is_whole(entities, rules),
    ensures
        is_whole(survivors(entities, alias), rules),
    decreases entities.len(),
{
    if entities.len() > 0 {
        let front = entities.drop_last();
        let last = entities.last();
        assert(fits_records(entities[entities.len() - 1].records(), rules));
        assert(entities[entities.len() - 1].records().len() > 0);
        assert forall|i: int| 0 <= i < front.len() implies fits_records(
            (#[trigger] front[i]).records(),
            rules,
        ) && front[i].records().len() > 0 by {
            assert(front[i] == entities[i]);
            assert(fits_records(entities[i].records(), rules));
        }
        lemma_survivors_whole(front, alias, rules);
        lemma_mapped_entity_fits(last, lookup(alias), rules);
        crate::settled::lemma_mapped_entity(last, lookup(alias));
        let before = survivors(front, alias);
        let out = survivors(entities, alias);
        assert forall|i: int| 0 <= i < out.len() implies fits_records(
            (#[trigger] out[i]).records(),
            rules,
        ) && out[i].records().len() > 0 by {
            if i < before.len() {
                assert(out[i] == before[i]);
                assert(fits_records(before[i].records(), rules));
                assert(before[i].records().len() > 0);
            }
        }
    }
}

proof fn lemma_items_sum_fit(a: Seq<ParamView>, b: Seq<ParamView>, rules: Rules)
    requires
        all_fit(a, rules),
        all_fit(b, rules),
    ensures
        all_fit(a + b, rules),
{
    lemma_all_fit(a, rules);
    lemma_all_fit(b, rules);
    lemma_all_fit(a + b, rules);
    assert forall|i: int| 0 <= i < (a + b).len() implies fits(#[trigger] (a + b)[i], rules) by {
        if i < a.len() {
            assert(fits(a[i], rules));
        } else {
            assert(fits(b[i - a.len()], rules));
        }
    }
}

proof fn lemma_root_items_fit(entity: EntityView, rules: Rules)
    requires
        is_root(entity),
        fits_records(entity.records(), rules),
    ensures
        all_fit(root_items(entity), rules),
{
    let params = entity->record.parameter->List_0;
    assert(entity.records()[0] == entity->record);
    assert(fits_record(entity.records()[0], rules));
    lemma_all_fit(params, rules);
    assert(fits(params[items_at(entity->record.name)->Some_0], rules));
}

proof fn lemma_taken_fit(entities: Seq<EntityView>, i: int, n: nat, rules: Rules)
    requires
        n <= entities.len(),
        fits_entities(entities, rules),
    ensures
        all_fit(taken_over(entities, i, n), rules),
    decreases n,
{
    if n > 0 {
        lemma_taken_fit(entities, i, (n - 1) as nat, rules);
        if merged_into(entities, n - 1) == Some(i) {
            assert(fits_records(entities[n - 1].records(), rules));
            lemma_root_items_fit(entities[n - 1], rules);
            lemma_items_sum_fit(
                taken_over(entities, i, (n - 1) as nat),
                root_items(entities[n - 1]),
                rules,
            );
        }
    }
}

proof fn lemma_with_items_fit(entity: EntityView, items: Seq<ParamView>, rules: Rules)
    requires
        is_root(entity),
        fits_records(entity.records(), rules),
        all_fit(items, rules),
        rules.empties,
    ensures
        fits_records(with_items(entity, items).records(), rules),
        with_items(entity, items).records().len() == 1,
{
    let at = items_at(entity->record.name)->Some_0;
    let params = entity->record.parameter->List_0;
    let more = root_items(entity) + items;
    let next = params.update(at, ParamView::List(more));
    assert(entity.records()[0] == entity->record);
    assert(fits_record(entity.records()[0], rules));
    lemma_root_items_fit(entity, rules);
    lemma_items_sum_fit(root_items(entity), items, rules);
    lemma_all_fit(params, rules);
    lemma_all_fit(next, rules);
    assert forall|k: int| 0 <= k < next.len() implies fits(#[trigger] next[k], rules) by {
        if k != at {
            assert(fits(params[k], rules));
        }
    }
    let out = with_items(entity, items);
    assert(out.records() =~= seq![out->record]);
    assert(fits_record(out->record, rules));
}

proof fn lemma_consolidated_whole(entities: Seq<EntityView>, n: nat, rules: Rules)
    requires
        is_whole(entities, rules),
        rules.empties,
        n <= entities.len(),
    ensures
        is_whole(crate::consolidate::consolidated_upto(entities, n), rules),
    decreases n,
{
    if n > 0 {
        lemma_consolidated_whole(entities, (n - 1) as nat, rules);
        let before = crate::consolidate::consolidated_upto(entities, (n - 1) as nat);
        let out = crate::consolidate::consolidated_upto(entities, n);
        let last = entities[n - 1];
        assert(fits_records(entities[n - 1].records(), rules));
        assert(entities[n - 1].records().len() > 0);
        if free_root(entities, n - 1) {
            lemma_taken_fit(entities, n - 1, entities.len(), rules);
            lemma_with_items_fit(last, taken_over(entities, n - 1, entities.len()), rules);
        }
        assert forall|i: int| 0 <= i < out.len() implies fits_records(
            (#[trigger] out[i]).records(),
            rules,
        ) && out[i].records().len() > 0 by {
            if i < before.len() {
                assert(out[i] == before[i]);
                assert(fits_records(before[i].records(), rules));
                assert(before[i].records().len() > 0);
            }
        }
    }
}

proof fn lemma_renumbered_whole(entities: Seq<EntityView>, rules: Rules)
    requires
        is_whole(entities, rules),
    ensures
        is_whole(renumbered(entities), rules),
{
    let numbers = numbering(entities, entities.len());
    let out = renumbered(entities);
    assert forall|i: int| 0 <= i < out.len() implies fits_records(
        (#[trigger] out[i]).records(),
        rules,
    ) && out[i].records().len() > 0 by {
        assert(fits_records(entities[i].records(), rules));
        assert(entities[i].records().len() > 0);
        lemma_mapped_entity_fits(entities[i], lookup(numbers), rules);
        crate::settled::lemma_mapped_entity(entities[i], lookup(numbers));
        let moved = map_entity(entities[i], lookup(numbers));
        assert(out[i].records() =~= moved.records());
    }
}

/// Cleaning keeps the rules.
proof fn lemma_cleaned_whole(entities: Seq<EntityView>, rules: Rules)
    requires
        is_whole(entities, rules),
        rules.empties,
    ensures
        is_whole(cleaned(entities), rules),
{
    lemma_survivors_whole(entities, aliases(entities), rules);
    let a = interned(entities);
    lemma_consolidated_whole(a, a.len(), rules);
    lemma_renumbered_whole(consolidated(a), rules);
}

/// A text found in a part is found in the whole.
proof fn lemma_found_in(a: Seq<char>, t: Seq<char>, b: Seq<char>, pattern: Seq<char>)
    requires
        occurs(t, pattern),
    ensures
        occurs(a + t + b, pattern),
{
    let i = choose|i: int| occurs_at(t, pattern, i);
    let whole = a + t + b;
    assert(whole.subrange(a.len() + i, a.len() + i + pattern.len()) =~= t.subrange(
        i,
        i + pattern.len(),
    ));
    assert(occurs_at(whole, pattern, a.len() + i));
}

/// The text of a mark.
spec fn dotted() -> Seq<char> {
    ".STEPREDOXEMPTYAGGREGATE."@
}

proof fn lemma_mark_occurs(p: ParamView)
    requires
        has_mark(p),
    ensures
        occurs(param_text(p), dotted()),
    decreases p,
{
    match p {
        ParamView::List(items) => {
            lemma_mark_occurs_list(items);
            lemma_found_in(seq!['('], list_text(items), seq![')'], dotted());
        },
        ParamView::Typed { keyword, parameter } => {
            lemma_mark_occurs(*parameter);
            lemma_found_in(keyword + seq!['('], param_text(*parameter), seq![')'], dotted());
        },
        _ => {
            reveal_strlit(".STEPREDOXEMPTYAGGREGATE.");
            reveal_strlit("STEPREDOXEMPTYAGGREGATE");
            assert(param_text(p) =~= dotted());
            assert(param_text(p).subrange(0, dotted().len() as int) =~= dotted());
            assert(occurs_at(param_text(p), dotted(), 0));
        },
    }
}

proof fn lemma_mark_occurs_list(items: Seq<ParamView>)
    requires
        list_has_mark(items),
    ensures
        occurs(list_text(items), dotted()),
    decreases items,
{
    let none = Seq::<char>::empty();
    if items.len() == 1 {
        assert(!list_has_mark(items.drop_last()));
        lemma_mark_occurs(items.last());
    } else if list_has_mark(items.drop_last()) {
        lemma_mark_occurs_list(items.drop_last());
        let tail = seq![','] + param_text(items.last());
        lemma_found_in(none, list_text(items.drop_last()), tail, dotted());
        assert(none + list_text(items.drop_last()) + tail =~= list_text(items));
    } else {
        lemma_mark_occurs(items.last());
        let head = list_text(items.drop_last()) + seq![','];
        lemma_found_in(head, param_text(items.last()), none, dotted());
        assert(head + param_text(items.last()) + none =~= list_text(items));
    }
}

proof fn lemma_mark_occurs_records(records: Seq<RecordView>)
    requires
        records_have_mark(records),
    ensures
        occurs(records_text(records), dotted()),
    decreases records.len(),
{
    let none = Seq::<char>::empty();
    let front = records.drop_last();
    let last = records.last();
    if records_have_mark(front) {
        lemma_mark_occurs_records(front);
        lemma_found_in(none, records_text(front), record_text(last), dotted());
        assert(none + records_text(front) + record_text(last) =~= records_text(records));
    } else {
        lemma_mark_occurs(last.parameter);
        lemma_found_in(
            records_text(front) + last.name,
            param_text(last.parameter),
            none,
            dotted(),
        );
        assert(records_text(front) + last.name + param_text(last.parameter) + none
            =~= records_text(records));
    }
}

proof fn lemma_mark_occurs_entity(entity: EntityView)
    requires
        records_have_mark(entity.records()),
    ensures
        occurs(entity_text(entity), dotted()),
{
    lemma_mark_occurs_records(entity.records());
    let t = records_text(entity.records());
    match entity {
        EntityView::Simple { id, record } => {
            reveal_with_fuel(records_text, 2);
            assert(entity.records().drop_last() =~= Seq::empty());
            assert(entity.records().last() == record);
            assert(t =~= record_text(record));
            let head = seq!['#'] + crate::text::decimal(id as nat) + seq!['='];
            lemma_found_in(head, t, seq![';'], dotted());
            assert(head + t + seq![';'] =~= entity_text(entity));
        },
        EntityView::Complex { id, subsuper } => {
            let head = seq!['#'] + crate::text::decimal(id as nat) + seq!['=', '('];
            lemma_found_in(head, t, seq![')', ';'], dotted());
            assert(head + t + seq![')', ';'] =~= entity_text(entity));
        },
    }
}

proof fn lemma_mark_occurs_entities(entities: Seq<EntityView>)
    requires
        entities_have_mark(entities),
    ensures
        occurs(entities_text(entities), dotted()),
    decreases entities.len(),
{
    let none = Seq::<char>::empty();
    let front = entities.drop_last();
    let last = entities.last();
    if entities_have_mark(front) {
        lemma_mark_occurs_entities(front);
        let tail = entity_text(last) + seq!['\n'];
        lemma_found_in(none, entities_text(front), tail, dotted());
        assert(none + entities_text(front) + tail =~= entities_text(entities));
    } else {
        lemma_mark_occurs_entity(last);
        lemma_found_in(entities_text(front), entity_text(last), seq!['\n'], dotted());
    }
}

proof fn lemma_mark_occurs_sections(sections: Seq<SectionView>)
    requires
        sections_have_mark(sections),
    ensures
        occurs(sections_text(sections), dotted()),
    decreases sections.len(),
{
    let none = Seq::<char>::empty();
    let front = sections.drop_last();
    let last = sections.last();
    if sections_have_mark(front) {
        lemma_mark_occurs_sections(front);
        lemma_found_in(none, sections_text(front), section_text(last), dotted());
        assert(none + sections_text(front) + section_text(last) =~= sections_text(sections));
    } else {
        lemma_mark_occurs_entities(last.entities);
        let head = if last.meta.len() == 0 {
            "DATA;\n"@
        } else {
            "DATA("@ + list_text(last.meta) + ");\n"@
        };
        lemma_found_in(
            sections_text(front) + head,
            entities_text(last.entities),
            "ENDSEC;\n"@,
            dotted(),
        );
        assert(sections_text(front) + head + entities_text(last.entities) + "ENDSEC;\n"@
            =~= sections_text(sections));
    }
}

/// Where the text of a mark does not occur, there is no mark.
proof fn lemma_no_marks(exchange: ExchangeView)
    requires
        !occurs(exchange_text(exchange), ".STEPREDOXEMPTYAGGREGATE."@),
    ensures
        !sections_have_mark(exchange.data),
{
    if sections_have_mark(exchange.data) {
        lemma_mark_occurs_sections(exchange.data);
        lemma_found_in(
            preamble(exchange),
            sections_text(exchange.data),
            "END-ISO-10303-21;\n"@,
            dotted(),
        );
        assert(preamble(exchange) + sections_text(exchange.data) + "END-ISO-10303-21;\n"@
            =~= exchange_text(exchange));
    }
}

/// A marked structure holds no empty aggregates.
proof fn lemma_mark_fits(p: ParamView, rules: Rules)
    requires
        fits(p, loose(rules)),
    ensures
        fits(mark(p), strict(rules)),
    decreases p, 0nat,
{
    match p {
        ParamView::List(items) => {
            if items.len() == 0 {
                lemma_marker_fits(rules);
            } else {
                lemma_mark_items_fit(items, rules);
            }
        },
        ParamView::Typed { parameter, .. } => {
            lemma_mark_fits(*parameter, rules);
        },
        _ => {},
    }
}

proof fn lemma_marker_fits(rules: Rules)
    ensures
        all_fit(seq![ParamView::Enumeration(marker())], strict(rules)),
{
    reveal_strlit("STEPREDOXEMPTYAGGREGATE");
    assert("STEPREDOXEMPTYAGGREGATE"@.len() == 23);
    let s = marker();
    assert(is_keyword(s)) by {
        assert(s[0] == 'S' && s[1] == 'T' && s[2] == 'E' && s[3] == 'P' && s[4] == 'R' && s[5]
            == 'E' && s[6] == 'D' && s[7] == 'O' && s[8] == 'X' && s[9] == 'E' && s[10] == 'M'
            && s[11] == 'P' && s[12] == 'T' && s[13] == 'Y' && s[14] == 'A' && s[15] == 'G'
            && s[16] == 'G' && s[17] == 'R' && s[18] == 'E' && s[19] == 'G' && s[20] == 'A'
            && s[21] == 'T' && s[22] == 'E');
    }
    let items = seq![ParamView::Enumeration(marker())];
    lemma_all_fit(items, strict(rules));
    assert(fits(items[0], strict(rules)));
}

proof fn lemma_mark_items_fit(items: Seq<ParamView>, rules: Rules)
    requires
        all_fit(items, loose(rules)),
    ensures
        all_fit(mark_items(items), strict(rules)),
        mark_items(items).len() == items.len(),
    decreases items, 1nat,
{
    if items.len() > 0 {
        lemma_mark_items_fit(items.drop_last(), rules);
        lemma_mark_fits(items.last(), rules);
        assert(mark_items(items).drop_last() =~= mark_items(items.drop_last()));
    }
}

proof fn lemma_mark_records_fit(records: Seq<RecordView>, rules: Rules)
    requires
        fits_records(records, loose(rules)),
    ensures
        fits_records(mark_records(records), strict(rules)),
{
    let out = mark_records(records);
    assert forall|i: int| 0 <= i < out.len() implies fits_record(
        #[trigger] out[i],
        strict(rules),
    ) by {
        assert(fits_record(records[i], loose(rules)));
        let items = records[i].parameter->List_0;
        if items.len() == 0 {
            lemma_marker_fits(rules);
        } else {
            lemma_mark_items_fit(items, rules);
        }
    }
}

proof fn lemma_mark_sections_fit(sections: Seq<SectionView>, rules: Rules)
    requires
        fits_sections(sections, loose(rules)),
    ensures
        fits_sections(mark_sections(sections), strict(rules)),
{
    let out = mark_sections(sections);
    assert forall|i: int| 0 <= i < out.len() implies fits_entities(
        (#[trigger] out[i]).entities,
        strict(rules),
    ) by {
        let entities = sections[i].entities;
        assert(fits_entities(entities, loose(rules)));
        let new = out[i].entities;
        assert forall|k: int| 0 <= k < new.len() implies fits_records(
            (#[trigger] new[k]).records(),
            strict(rules),
        ) by {
            assert(fits_records(entities[k].records(), loose(rules)));
            lemma_mark_records_fit(entities[k].records(), rules);
            assert(new[k].records() =~= mark_records(entities[k].records()));
        }
    }
}

/// What cleaning with the default passes makes of a structure.
pub open spec fn clean_exchange(exchange: ExchangeView) -> ExchangeView {
    with_data(exchange, mapped(exchange.data, |e: Seq<EntityView>| cleaned(e)))
}

/// The bytes of a structure.
pub open spec fn file_of(exchange: ExchangeView) -> Seq<u8> {
    encode_utf8(exchange_text(exchange))
}

/// Whether the entities of a section can be cleaned for good: ids are distinct, numbering anew
/// gives no reference without an entity one, and there is no entity without records.
pub open spec fn is_orderly(entities: Seq<EntityView>) -> bool {
    &&& distinct(entities)
    &&& meets_none(consolidated(interned(entities)))
    &&& none_bare(entities)
    &&& entities.len() <= u64::MAX
}

/// Whether exactly the empty aggregates of a structure are marked in its text. They are not
/// where `DATA;` stands before the first section or in a string, so that marking starts too
/// early and takes a string for code, where aggregates stand before the first `DATA;`, or where
/// the text holds the mark already.
pub open spec fn is_marked_right(exchange: ExchangeView) -> bool {
    prepared(exchange_text(exchange)) == Some(
        (exchange_text(mark_exchange(exchange)), sections_have_empty(exchange.data)),
    )
}

/// Whether what cleaning a structure writes can be read back: the sections are orderly, exactly
/// the empty aggregates are marked, and no number is too large for the parser and no list too
/// deep.
pub open spec fn is_regular(exchange: ExchangeView) -> bool {
    let back = plain_exchange(clean_exchange(exchange));
    &&& forall|i: int| 0 <= i < exchange.data.len() ==> is_orderly(
        (#[trigger] exchange.data[i]).entities,
    )
    &&& is_marked_right(back)
    &&& !oversized_number(exchange_text(mark_exchange(back)))
    &&& !too_deep(exchange_text(mark_exchange(back)))
}

/// In a text without `DATA;`, and in one that holds nothing like an empty aggregate, exactly the
/// empty aggregates are marked where there are none.
pub proof fn law_nothing_to_mark(exchange: ExchangeView)
    requires
        !sections_have_empty(exchange.data),
        !occurs(exchange_text(exchange), "DATA;"@) || !may_hold_empty(exchange_text(exchange)),
    ensures
        is_marked_right(exchange),
{
    let text = exchange_text(exchange);
    crate::marks::lemma_sections_unmarked(exchange.data);
    assert(mark_exchange(exchange) == exchange);
    if occurs(text, "DATA;"@) {
        let start = data_at(text) + 5;
        let body = text.skip(start);
        let first = choose|i: int| occurs_at(text, "DATA;"@, i);
        crate::shim::lemma_first_exists(text, "DATA;"@, first);
        reveal_strlit("DATA;");
        assert(first_at(text, "DATA;"@, data_at(text)));
        assert(text.take(start) + body + Seq::<char>::empty() =~= text);
        let empty = Seq::<char>::empty();
        if occurs(body, "()"@) {
            lemma_found_in(text.take(start), body, empty, "()"@);
        }
        if occurs(body, "( "@) {
            lemma_found_in(text.take(start), body, empty, "( "@);
        }
        if occurs(body, "(\t"@) {
            lemma_found_in(text.take(start), body, empty, "(\t"@);
        }
        if occurs(body, "(\r"@) {
            lemma_found_in(text.take(start), body, empty, "(\r"@);
        }
        if occurs(body, "(\n"@) {
            lemma_found_in(text.take(start), body, empty, "(\n"@);
        }
        assert(!may_hold_empty(body));
    }
}

/// Where the first section starts with the first `DATA;` and the text does not hold the mark,
/// exactly the empty aggregates are marked.
pub proof fn law_starts_with_data(exchange: ExchangeView)
    requires
        is_read(exchange, finite_rules()),
        forall|i: int| 0 <= i < exchange.data.len() ==> is_orderly(
            (#[trigger] exchange.data[i]).entities,
        ),
        exchange.data.len() > 0,
        exchange.data[0].meta.len() == 0,
        !occurs(preamble(exchange), "DATA;"@),
        !occurs(exchange_text(clean_exchange(exchange)), ".STEPREDOXEMPTYAGGREGATE."@),
    ensures
        is_marked_right(plain_exchange(clean_exchange(exchange))),
{
    let out = clean_exchange(exchange);
    let back = plain_exchange(out);
    let rules = plain_rules(finite_rules());
    lemma_plain_fits(exchange);
    law_plain_text(out);
    crate::reread::lemma_plain_records(exchange.header, finite_rules());
    assert(preamble(back) == preamble(exchange));
    assert(real_rules(loose(rules)));
    assert(real_rules(rules));
    law_prepared_is_marked(back, loose(rules), rules);
}

proof fn lemma_clean_sections(exchange: ExchangeView)
    requires
        is_read(exchange, finite_rules()),
        forall|i: int| 0 <= i < exchange.data.len() ==> is_orderly(
            (#[trigger] exchange.data[i]).entities,
        ),
    ensures
        ({
            let out = clean_exchange(exchange).data;
            &&& out.len() == exchange.data.len()
            &&& forall|i: int|
                0 <= i < out.len() ==> {
                    let entities = (#[trigger] out[i]).entities;
                    &&& out[i].meta == exchange.data[i].meta
                    &&& entities == cleaned(exchange.data[i].entities)
                    &&& is_whole(entities, loose(finite_rules()))
                    &&& dense(entities)
                    &&& crate::settled::values_differ(entities)
                    &&& roots_differ(entities)
                }
        }),
{
    let out = clean_exchange(exchange).data;
    let rules = loose(finite_rules());
    assert forall|i: int| 0 <= i < out.len() implies {
        let entities = (#[trigger] out[i]).entities;
        &&& out[i].meta == exchange.data[i].meta
        &&& entities == cleaned(exchange.data[i].entities)
        &&& is_whole(entities, rules)
        &&& dense(entities)
        &&& crate::settled::values_differ(entities)
        &&& roots_differ(entities)
    } by {
        let before = exchange.data[i].entities;
        assert(fits_entities(exchange.data[i].entities, rules));
        assert(is_orderly(exchange.data[i].entities));
        lemma_cleaned_whole(before, rules);
        assert forall|s: Seq<char>| #[trigger] (rules.reals)(s) implies is_real_word(s) by {}
        lemma_entities_sound(before, rules);
        law_cleaned_twice(before);
    }
}

/// What was cleaned and read back keeps the rules of what can be read back.
proof fn lemma_plain_fits(exchange: ExchangeView)
    requires
        is_read(exchange, finite_rules()),
        forall|i: int| 0 <= i < exchange.data.len() ==> is_orderly(
            (#[trigger] exchange.data[i]).entities,
        ),
    ensures
        ({
            let back = plain_exchange(clean_exchange(exchange));
            let rules = plain_rules(finite_rules());
            &&& back.data.len() == exchange.data.len()
            &&& forall|i: int|
                0 <= i < back.data.len() ==> (#[trigger] back.data[i]).meta.len()
                    == exchange.data[i].meta.len()
            &&& back.header.len() > 0
            &&& fits_records(back.header, rules)
            &&& metas_fit(back.data, rules)
            &&& fits_sections(back.data, loose(rules))
            &&& sections_none_bare(back.data)
            &&& clean_exchange(back) == back
        }),
{
    let out = clean_exchange(exchange);
    let back = plain_exchange(out);
    let rules = plain_rules(finite_rules());
    lemma_clean_sections(exchange);
    crate::reread::lemma_plain_records(exchange.header, finite_rules());
    assert forall|i: int| 0 <= i < back.data.len() implies all_fit(
        (#[trigger] back.data[i]).meta,
        rules,
    ) && fits_entities(back.data[i].entities, loose(rules)) && none_bare(back.data[i].entities)
        && cleaned(back.data[i].entities) == back.data[i].entities && back.data[i].meta.len()
        == exchange.data[i].meta.len() by {
        let entities = out.data[i].entities;
        assert(out.data[i].meta == exchange.data[i].meta);
        assert(all_fit(exchange.data[i].meta, finite_rules()));
        crate::reread::lemma_plain_list(exchange.data[i].meta, finite_rules());
        let new = back.data[i].entities;
        assert(new == plain_entities(entities));
        assert forall|k: int| 0 <= k < new.len() implies fits_records(
            (#[trigger] new[k]).records(),
            loose(rules),
        ) && new[k].records().len() > 0 by {
            assert(fits_records(entities[k].records(), loose(finite_rules())));
            assert(entities[k].records().len() > 0);
            lemma_plain_entity(entities[k], loose(finite_rules()));
        }
        lemma_plain_stays_clean(entities);
    }
    assert(clean_exchange(back).data =~= back.data);
}

/// What cleaning writes is read back: as it was written, with the strings as they stand in the
/// file.
pub proof fn lemma_read_back(exchange: ExchangeView)
    requires
        is_read(exchange, finite_rules()),
        is_regular(exchange),
        !has_optional_sections(exchange),
        reading_facts(file_of(clean_exchange(exchange))),
    ensures
        ({
            let out = clean_exchange(exchange);
            let back = plain_exchange(out);
            &&& reading(file_of(out)) == Ok::<(ExchangeView, Encoding), StepError>(
                (back, Encoding::Utf8),
            )
            &&& exchange_text(back) == exchange_text(out)
            &&& clean_exchange(back) == back
        }),
{
    let out = clean_exchange(exchange);
    let back = plain_exchange(out);
    let text = exchange_text(out);
    let rules = plain_rules(finite_rules());
    vstd::utf8::encode_utf8_valid_utf8(text);
    vstd::utf8::encode_utf8_decode_utf8(text);
    assert(decoded(file_of(out)) == Ok::<(Seq<char>, Encoding), StepError>(
        (text, Encoding::Utf8),
    ));
    lemma_plain_fits(exchange);
    law_plain_text(out);
    let ready = mark_exchange(back);
    let given = exchange_text(ready);
    let marks = sections_have_empty(back.data);
    assert(prepared(text) == Some((given, marks)));
    assert(!oversized_number(given));
    assert(!too_deep(given));
    assert(parser_facts(given));
    lemma_mark_sections_fit(back.data, rules);
    assert(strict(rules) == written_rules());
    assert(rules == written_rules());
    assert(metas_fit(ready.data, written_rules())) by {
        assert forall|i: int| 0 <= i < ready.data.len() implies all_fit(
            (#[trigger] ready.data[i]).meta,
            written_rules(),
        ) by {
            assert(all_fit(back.data[i].meta, rules));
        }
    }
    assert(keeps(ready, written_rules()));
    assert(!has_optional_sections(ready));
    assert(parse_outcome(given) == Some(ready));
    if marks {
        assert(!occurs(text, ".STEPREDOXEMPTYAGGREGATE."@));
        lemma_no_marks(back);
        law_marks_are_taken_back(back);
    } else {
        crate::marks::lemma_sections_unmarked(back.data);
        assert(ready == back);
    }
    assert(restored_if(ready, marks) == Ok::<ExchangeView, StepError>(back));
    lemma_infinite_is_no_decimal();
    crate::finite::lemma_exchange_lacks(back, rules, loose(rules), "inf"@);
    crate::finite::lemma_exchange_lacks(back, rules, loose(rules), "-inf"@);
    assert(!has_optional_sections(back));
}

/// The words for infinity are no numbers.
proof fn lemma_infinite_is_no_decimal()
    ensures
        !is_decimal("inf"@),
        !is_decimal("-inf"@),
{
    reveal_strlit("inf");
    reveal_strlit("-inf");
    assert("inf"@[0] == 'i');
    assert("-inf"@[1] == 'i');
}

/// With the default passes a run comes to its end by itself.
pub proof fn law_default_run(run: CleanRun, exchange: ExchangeView, step: CleanStep)
    requires
        begun(run, exchange, default_options()),
        leads_to(run, step),
    ensures
        step matches CleanStep::Finished(out) && out.exchange@ == clean_exchange(exchange)
            && out.bytes@ == file_of(clean_exchange(exchange)),
{
    reveal(pass_order);
    assert(pass_order(default_options()) =~= Seq::empty());
    let runs = choose|runs: Seq<CleanRun>| #[trigger]
        own_steps(runs) && runs[0] == run && {
            let last = runs.last();
            match step {
                CleanStep::Finished(out) => last.done == pass_order(last.options).len() && finished(
                    last,
                    out,
                ),
                CleanStep::Needs { run: waiting, pass } => waiting == last && last.done
                    < pass_order(last.options).len() && pass == pass_order(
                    last.options,
                )[last.done as int] && !crate::clean::is_own(pass),
            }
        };
    if runs.len() > 1 {
        let first: int = 0;
        assert(crate::clean::own_step(runs[first], runs[first + 1]));
    }
    assert(runs.last() == run);
    let out = step->Finished_0;
    let data = exchange.data;
    let all = clean_exchange(exchange).data;
    assert(closed_with(run.exchange@.data, default_options(), no_counts()) =~= all) by {
        let f = |e: Seq<EntityView>| interned(e);
        let g = |e: Seq<EntityView>| consolidated(e);
        let h = |e: Seq<EntityView>| renumbered(e);
        let last = mapped(mapped(mapped(data, f), g), h);
        assert forall|i: int| 0 <= i < data.len() implies #[trigger] last[i] == all[i] by {
            assert(mapped(data, f)[i].entities == interned(data[i].entities));
            assert(mapped(mapped(data, f), g)[i].entities == consolidated(
                interned(data[i].entities),
            ));
        }
    }
    assert(out.exchange@ == with_data(run.exchange@, all));
}

fn same_bytes(a: &Vec<u8>, b: &Vec<u8>) -> (out: bool)
    ensures
        out == (a@ == b@),
{
    if a.len() != b.len() {
        return false;
    }
    let mut i: usize = 0;
    while i < a.len()
        invariant
            i <= a.len(),
            a.len() == b.len(),
            forall|j: int| 0 <= j < i ==> #[trigger] a@[j] == b@[j],
        decreases a.len() - i,
    {
        if a[i] != b[i] {
            assert(a@[i as int] != b@[i as int]);
            return false;
        }
        i = i + 1;
    }
    assert(a@ =~= b@);
    true
}

/// Whether a structure, cleaned, read back and cleaned again, is written as before.
pub open spec fn cleans_to_itself(exchange: ExchangeView) -> bool {
    let first = file_of(clean_exchange(exchange));
    reading(first) matches Ok((back, _)) && file_of(clean_exchange(back)) == first
}

/// Where a structure cleans to itself, so does what is read of its file, and to the same bytes.
pub proof fn law_cleaning_is_idempotent(exchange: ExchangeView)
    requires
        cleans_to_itself(exchange),
    ensures
        ({
            let first = file_of(clean_exchange(exchange));
            &&& reading(first) matches Ok((back, _))
            &&& cleans_to_itself(back)
            &&& file_of(clean_exchange(back)) == first
        }),
{
}

/// Whether a step is the one that a run for a file leads to.
pub open spec fn is_step_of(input: Seq<u8>, options: Options, step: CleanStep) -> bool {
    exists|run: CleanRun| #[trigger]
        leads_to(run, step) && run.wf() && run.input_bytes == input.len() && (reading(
            input,
        ) matches Ok((exchange, encoding)) && begun(run, exchange, options) && run.encoding
            == encoding)
}

/// Begins to clean a file with the default passes, which is also the end.
fn clean_by_default(input: &[u8]) -> (out: Result<CleanedExchange, StepError>)
    ensures
        match out {
            Err(error) => reading(input@) == Err::<(ExchangeView, Encoding), StepError>(error),
            Ok(first) => reading(input@) matches Ok((exchange, _)) && first.exchange@
                == clean_exchange(exchange) && first.bytes@ == file_of(clean_exchange(exchange))
                && is_step_of(input@, default_options(), CleanStep::Finished(first)),
        },
        reading_facts(input@),
{
    let options = Options::default();
    match begin_cleaning(input, &options) {
        Err(error) => Err(error),
        Ok(step) => {
            let ghost exchange = reading(input@)->Ok_0.0;
            proof {
                let run = choose|run: CleanRun| #[trigger]
                    leads_to(run, step) && run.wf() && run.input_bytes == input@.len() && (
                    reading(input@) matches Ok((exchange, encoding)) && begun(
                        run,
                        exchange,
                        options,
                    ) && run.encoding == encoding);
                law_default_run(run, exchange, step);
            }
            match step {
                CleanStep::Finished(first) => Ok(first),
                CleanStep::Needs { .. } => {
                    assert(false);
                    Err(StepError::Unstable)
                },
            }
        },
    }
}

/// Cleans a file. With the default passes what is written is read again: a file that would
/// change if it were cleaned once more is refused. With other passes the run may stop where it
/// needs something from the caller.
pub fn clean_bytes(input: &[u8], options: &Options) -> (out: Result<CleanStep, StepError>)
    ensures
        match (reading(input@), out) {
            (Err(fault), Err(error)) => error == fault,
            (Ok((exchange, _)), Err(error)) => error == StepError::Unstable && *options
                == default_options() && !cleans_to_itself(exchange) && !is_regular(exchange),
            (Ok((exchange, _)), Ok(step)) => {
                &&& is_step_of(input@, *options, step)
                &&& *options == default_options() ==> cleans_to_itself(exchange) && (
                step matches CleanStep::Finished(first) && first.bytes@ == file_of(
                    clean_exchange(exchange),
                ))
            },
            _ => false,
        },
        out matches Ok(CleanStep::Needs { run, .. }) ==> run.wf(),
{
    if *options != Options::default() {
        return begin_cleaning(input, options);
    }
    match clean_by_default(input) {
        Err(error) => Err(error),
        Ok(first) => {
            let ghost exchange = reading(input@)->Ok_0.0;
            let again = clean_by_default(first.bytes.as_slice());
            proof {
                lemma_reading_fits(input@);
                if is_regular(exchange) {
                    lemma_finite_exchange(exchange);
                    lemma_read_back(exchange);
                }
            }
            match again {
                Err(_) => Err(StepError::Unstable),
                Ok(second) => if same_bytes(&first.bytes, &second.bytes) {
                    Ok(CleanStep::Finished(first))
                } else {
                    Err(StepError::Unstable)
                },
            }
        },
    }
}

/// Cleans a file twice with the default passes, and tells whether both times the same bytes are
/// written. Where the first cleaning succeeds, they are.
pub fn clean_idempotent(input: &[u8]) -> (out: Option<bool>)
    ensures
        out is Some == (reading(input@) matches Ok((exchange, _)) && cleans_to_itself(exchange)),
        out matches Some(same) ==> same,
{
    let options = Options::default();
    match clean_bytes(input, &options) {
        Err(_) => None,
        Ok(CleanStep::Needs { .. }) => {
            assert(false);
            None
        },
        Ok(CleanStep::Finished(first)) => {
            proof {
                law_cleaning_is_idempotent(reading(input@)->Ok_0.0);
            }
            match clean_bytes(first.bytes.as_slice(), &options) {
                Ok(CleanStep::Finished(second)) => Some(same_bytes(&first.bytes, &second.bytes)),
                _ => {
                    assert(false);
                    Some(false)
                },
            }
        },
    }
}

} // verus!
