//! Reals that cannot be written: infinite ones.

use vstd::prelude::*;

use crate::ast::{
    lemma_list_view, params_view, records_view, DataSection, EntityInstance, Exchange,
    ExchangeView, ParamView, Parameter, Record, RecordView,
};
use crate::grammar::{
    all_fit, exchange_holds_real, fits, fits_entities, fits_records, fits_sections, holds_real,
    list_holds_real, records_hold_real, section_holds_real, Rules,
};
use crate::marks::metas_fit;
use crate::text::same_text;

verus! {

/// Whether a structure holds an infinite real.
pub open spec fn is_infinite(exchange: ExchangeView) -> bool {
    exchange_holds_real(exchange, "inf"@) || exchange_holds_real(exchange, "-inf"@)
}

fn find_real(param: &Parameter, text: &str) -> (out: bool)
    ensures
        out == holds_real(param@, text@),
    decreases param, 0int,
{
    match param {
        Parameter::Typed { parameter, .. } => find_real(&**parameter, text),
        Parameter::Real(number) => same_text(number.as_str(), text),
        Parameter::List(items) => {
            proof {
                lemma_list_view(*items);
            }
            assert(decreases_to!(param => items@));
            find_in_list(items, text)
        },
        _ => false,
    }
}

fn find_in_list(items: &Vec<Parameter>, text: &str) -> (out: bool)
    ensures
        out == list_holds_real(params_view(items@), text@),
    decreases items@, 1int,
{
    let ghost views = params_view(items@);
    let mut i: usize = 0;
    let mut out = false;
    assert(views.take(0) =~= Seq::empty());
    while i < items.len()
        invariant
            i <= items.len(),
            views == params_view(items@),
            out == list_holds_real(views.take(i as int), text@),
        decreases items.len() - i,
    {
        let found = find_real(&items[i], text);
        out = out || found;
        i = i + 1;
        assert(views.take(i as int).drop_last() =~= views.take(i - 1));
        assert(views.take(i as int).last() == items@[i - 1]@);
    }
    assert(views.take(views.len() as int) =~= views);
    out
}

fn find_in_records(records: &Vec<Record>, text: &str) -> (out: bool)
    ensures
        out == records_hold_real(records_view(records@), text@),
{
    let ghost views = records_view(records@);
    let mut i: usize = 0;
    while i < records.len()
        invariant
            i <= records.len(),
            views == records_view(records@),
            forall|k: int| 0 <= k < i ==> !holds_real((#[trigger] views[k]).parameter, text@),
        decreases records.len() - i,
    {
        assert(views[i as int] == records@[i as int]@);
        if find_real(&records[i].parameter, text) {
            assert(holds_real(views[i as int].parameter, text@));
            return true;
        }
        i = i + 1;
    }
    false
}

fn find_in_entity(entity: &EntityInstance, text: &str) -> (out: bool)
    ensures
        out == records_hold_real(entity@.records(), text@),
{
    match entity {
        EntityInstance::Simple { record, .. } => {
            assert(entity@.records() =~= seq![record@]);
            let found = find_real(&record.parameter, text);
            proof {
                assert(entity@.records()[0] == record@);
            }
            found
        },
        EntityInstance::Complex { subsuper, .. } => find_in_records(subsuper, text),
    }
}

fn find_in_section(section: &DataSection, text: &str) -> (out: bool)
    ensures
        out == section_holds_real(section@, text@),
{
    let ghost views = section@.entities;
    if find_in_list(&section.meta, text) {
        return true;
    }
    let mut i: usize = 0;
    while i < section.entities.len()
        invariant
            i <= section.entities.len(),
            views == section@.entities,
            views.len() == section.entities@.len(),
            forall|k: int|
                0 <= k < i ==> !records_hold_real((#[trigger] views[k]).records(), text@),
        decreases section.entities.len() - i,
    {
        assert(views[i as int] == section.entities@[i as int]@);
        if find_in_entity(&section.entities[i], text) {
            assert(records_hold_real(views[i as int].records(), text@));
            return true;
        }
        i = i + 1;
    }
    false
}

fn find_in_exchange(exchange: &Exchange, text: &str) -> (out: bool)
    ensures
        out == exchange_holds_real(exchange@, text@),
{
    let ghost data = exchange@.data;
    if find_in_records(&exchange.header, text) {
        return true;
    }
    let mut i: usize = 0;
    while i < exchange.data.len()
        invariant
            i <= exchange.data.len(),
            data == exchange@.data,
            data.len() == exchange.data@.len(),
            forall|k: int| 0 <= k < i ==> !section_holds_real(#[trigger] data[k], text@),
        decreases exchange.data.len() - i,
    {
        assert(data[i as int] == exchange.data@[i as int]@);
        if find_in_section(&exchange.data[i], text) {
            assert(section_holds_real(data[i as int], text@));
            return true;
        }
        i = i + 1;
    }
    false
}

/// Whether a structure holds an infinite real.
pub fn holds_infinite(exchange: &Exchange) -> (out: bool)
    ensures
        out == is_infinite(exchange@),
{
    find_in_exchange(exchange, "inf") || find_in_exchange(exchange, "-inf")
}

proof fn lemma_fit_lacks(p: ParamView, rules: Rules, s: Seq<char>)
    requires
        fits(p, rules),
        !(rules.reals)(s),
    ensures
        !holds_real(p, s),
    decreases p,
{
    match p {
        ParamView::Typed { parameter, .. } => lemma_fit_lacks(*parameter, rules, s),
        ParamView::List(items) => lemma_list_lacks(items, rules, s),
        _ => {},
    }
}

proof fn lemma_list_lacks(items: Seq<ParamView>, rules: Rules, s: Seq<char>)
    requires
        all_fit(items, rules),
        !(rules.reals)(s),
    ensures
        !list_holds_real(items, s),
    decreases items,
{
    if items.len() > 0 {
        lemma_list_lacks(items.drop_last(), rules, s);
        lemma_fit_lacks(items.last(), rules, s);
    }
}

proof fn lemma_records_lack(records: Seq<RecordView>, rules: Rules, s: Seq<char>)
    requires
        fits_records(records, rules),
        !(rules.reals)(s),
    ensures
        !records_hold_real(records, s),
{
    assert forall|i: int| 0 <= i < records.len() implies !holds_real(
        (#[trigger] records[i]).parameter,
        s,
    ) by {
        assert(crate::grammar::fits_record(records[i], rules));
        lemma_list_lacks(records[i].parameter->List_0, rules, s);
    }
}

/// A structure that keeps rules holds only reals that these allow.
pub(crate) proof fn lemma_exchange_lacks(
    exchange: ExchangeView,
    rules: Rules,
    loose: Rules,
    s: Seq<char>,
)
    requires
        fits_records(exchange.header, rules),
        metas_fit(exchange.data, rules),
        fits_sections(exchange.data, loose),
        !(rules.reals)(s),
        !(loose.reals)(s),
    ensures
        !exchange_holds_real(exchange, s),
{
    lemma_records_lack(exchange.header, rules, s);
    assert forall|i: int| 0 <= i < exchange.data.len() implies !section_holds_real(
        #[trigger] exchange.data[i],
        s,
    ) by {
        let section = exchange.data[i];
        assert(all_fit(section.meta, rules));
        lemma_list_lacks(section.meta, rules, s);
        assert(fits_entities(section.entities, loose));
        assert forall|k: int| 0 <= k < section.entities.len() implies !records_hold_real(
            (#[trigger] section.entities[k]).records(),
            s,
        ) by {
            assert(fits_records(section.entities[k].records(), loose));
            lemma_records_lack(section.entities[k].records(), loose, s);
        }
    }
}

} // verus!
