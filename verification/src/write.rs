//! Writing an exchange structure as text.

use vstd::prelude::*;

use crate::ast::{
    lemma_list_view, params_view, records_view, sections_view, DataSection, EntityInstance,
    EntityView, Exchange, ExchangeView, Name, NameView, ParamView, Parameter, Record, RecordView,
    SectionView, entities_view,
};
use crate::text::{
    decimal, push_decimal, push_signed, signed_decimal, step_string, text_chars, write_step_string,
};

verus! {

/// A real in STEP form: the shortest decimal text, with a point where it has neither a
/// point nor an exponent.
pub open spec fn real_text(s: Seq<char>) -> Seq<char> {
    if s.contains('.') || s.contains('e') || s.contains('E') {
        s
    } else {
        s.push('.')
    }
}

/// A parameter in STEP form.
pub open spec fn param_text(p: ParamView) -> Seq<char>
    decreases p,
{
    match p {
        ParamView::Typed { keyword, parameter } => keyword + seq!['('] + param_text(*parameter)
            + seq![')'],
        ParamView::Integer(v) => signed_decimal(v as int),
        ParamView::Real(s) => real_text(s),
        ParamView::String(s) => step_string(s),
        ParamView::Enumeration(s) => seq!['.'] + s + seq!['.'],
        ParamView::List(items) => seq!['('] + list_text(items) + seq![')'],
        ParamView::Ref(NameView::Entity(id)) => seq!['#'] + decimal(id as nat),
        ParamView::Ref(NameView::Value(id)) => seq!['@'] + decimal(id as nat),
        ParamView::Ref(NameView::ConstantEntity(s)) => seq!['#'] + s,
        ParamView::Ref(NameView::ConstantValue(s)) => seq!['@'] + s,
        ParamView::NotProvided => seq!['$'],
        ParamView::Omitted => seq!['*'],
    }
}

/// Parameters in STEP form, with commas between them.
pub open spec fn list_text(items: Seq<ParamView>) -> Seq<char>
    decreases items,
{
    if items.len() == 0 {
        Seq::empty()
    } else if items.len() == 1 {
        param_text(items[0])
    } else {
        list_text(items.drop_last()) + seq![','] + param_text(items.last())
    }
}

pub open spec fn record_text(record: RecordView) -> Seq<char> {
    record.name + param_text(record.parameter)
}

/// Records one after the other, with nothing between them.
pub open spec fn records_text(records: Seq<RecordView>) -> Seq<char>
    decreases records.len(),
{
    if records.len() == 0 {
        Seq::empty()
    } else {
        records_text(records.drop_last()) + record_text(records.last())
    }
}

/// One line of a DATA section, without the line end.
pub open spec fn entity_text(entity: EntityView) -> Seq<char> {
    match entity {
        EntityView::Simple { id, record } => seq!['#'] + decimal(id as nat) + seq!['=']
            + record_text(record) + seq![';'],
        EntityView::Complex { id, subsuper } => seq!['#'] + decimal(id as nat) + seq!['=', '(']
            + records_text(subsuper) + seq![')', ';'],
    }
}

/// The lines of a DATA section.
pub open spec fn entities_text(entities: Seq<EntityView>) -> Seq<char>
    decreases entities.len(),
{
    if entities.len() == 0 {
        Seq::empty()
    } else {
        entities_text(entities.drop_last()) + entity_text(entities.last()) + seq!['\n']
    }
}

pub open spec fn section_text(section: SectionView) -> Seq<char> {
    (if section.meta.len() == 0 {
        "DATA;\n"@
    } else {
        "DATA("@ + list_text(section.meta) + ");\n"@
    }) + entities_text(section.entities) + "ENDSEC;\n"@
}

pub open spec fn sections_text(sections: Seq<SectionView>) -> Seq<char>
    decreases sections.len(),
{
    if sections.len() == 0 {
        Seq::empty()
    } else {
        sections_text(sections.drop_last()) + section_text(sections.last())
    }
}

/// The lines of the header.
pub open spec fn header_text(records: Seq<RecordView>) -> Seq<char>
    decreases records.len(),
{
    if records.len() == 0 {
        Seq::empty()
    } else {
        header_text(records.drop_last()) + record_text(records.last()) + ";\n"@
    }
}

/// The whole file.
pub open spec fn exchange_text(exchange: ExchangeView) -> Seq<char> {
    "ISO-10303-21;\nHEADER;\n"@ + header_text(exchange.header) + "ENDSEC;\n"@ + sections_text(
        exchange.data,
    ) + "END-ISO-10303-21;\n"@
}

/// A file with an ANCHOR, REFERENCE or SIGNATURE section has no written form.
pub open spec fn has_optional_sections(exchange: ExchangeView) -> bool {
    exchange.anchor != 0 || exchange.reference != 0 || exchange.signature != 0
}

/// Appends the STEP form of a real whose shortest decimal text is given.
pub fn format_real(s: &String, out: &mut String)
    ensures
        final(out)@ == old(out)@ + real_text(s@),
{
    let chars = text_chars(s.as_str());
    let mut marked = false;
    let mut i: usize = 0;
    while i < chars.len()
        invariant
            i <= chars.len(),
            chars@ == s@,
            marked == exists|j: int|
                0 <= j < i && (s@[j] == '.' || s@[j] == 'e' || s@[j] == 'E'),
        decreases chars.len() - i,
    {
        let c = chars[i];
        if c == '.' || c == 'e' || c == 'E' {
            marked = true;
        }
        i = i + 1;
    }
    out.append(s.as_str());
    if !marked {
        out.push('.');
    }
    proof {
        if marked {
            let j = choose|j: int| 0 <= j < i && (s@[j] == '.' || s@[j] == 'e' || s@[j] == 'E');
            assert(s@.contains(s@[j]));
        }
        assert(out@ =~= old(out)@ + real_text(s@));
    }
}

/// Appends a parameter in STEP form.
pub fn write_param(param: &Parameter, out: &mut String)
    ensures
        final(out)@ == old(out)@ + param_text(param@),
    decreases param, 0int,
{
    match param {
        Parameter::Typed { keyword, parameter } => {
            out.append(keyword.as_str());
            out.push('(');
            write_param(&**parameter, out);
            out.push(')');
            assert(out@ =~= old(out)@ + param_text(param@));
        },
        Parameter::Integer(v) => push_signed(out, *v),
        Parameter::Real(v) => format_real(v, out),
        Parameter::String(s) => write_step_string(s.as_str(), out),
        Parameter::Enumeration(s) => {
            out.push('.');
            out.append(s.as_str());
            out.push('.');
            assert(out@ =~= old(out)@ + param_text(param@));
        },
        Parameter::List(items) => {
            proof {
                lemma_list_view(*items);
            }
            out.push('(');
            assert(decreases_to!(param => items@));
            write_params(items, out);
            out.push(')');
            assert(out@ =~= old(out)@ + param_text(param@));
        },
        Parameter::Ref(Name::Entity(id)) => {
            out.push('#');
            push_decimal(out, *id);
            assert(out@ =~= old(out)@ + param_text(param@));
        },
        Parameter::Ref(Name::Value(id)) => {
            out.push('@');
            push_decimal(out, *id);
            assert(out@ =~= old(out)@ + param_text(param@));
        },
        Parameter::Ref(Name::ConstantEntity(s)) => {
            out.push('#');
            out.append(s.as_str());
            assert(out@ =~= old(out)@ + param_text(param@));
        },
        Parameter::Ref(Name::ConstantValue(s)) => {
            out.push('@');
            out.append(s.as_str());
            assert(out@ =~= old(out)@ + param_text(param@));
        },
        Parameter::NotProvided => {
            out.push('$');
            assert(out@ =~= old(out)@ + param_text(param@));
        },
        Parameter::Omitted => {
            out.push('*');
            assert(out@ =~= old(out)@ + param_text(param@));
        },
    }
}

fn write_params(items: &Vec<Parameter>, out: &mut String)
    ensures
        final(out)@ == old(out)@ + list_text(params_view(items@)),
    decreases items@, 1int,
{
    let ghost views = params_view(items@);
    let mut i: usize = 0;
    assert(out@ =~= old(out)@ + list_text(views.take(0)));
    while i < items.len()
        invariant
            i <= items.len(),
            views == params_view(items@),
            out@ == old(out)@ + list_text(views.take(i as int)),
        decreases items.len() - i,
    {
        if i > 0 {
            out.push(',');
        }
        write_param(&items[i], out);
        i = i + 1;
        assert(views.take(i as int).drop_last() =~= views.take(i - 1));
        assert(out@ =~= old(out)@ + list_text(views.take(i as int)));
    }
    assert(views.take(views.len() as int) =~= views);
}

/// Appends a record in STEP form.
pub fn write_record(record: &Record, out: &mut String)
    ensures
        final(out)@ == old(out)@ + record_text(record@),
{
    out.append(record.name.as_str());
    write_param(&record.parameter, out);
    assert(out@ =~= old(out)@ + record_text(record@));
}

pub(crate) fn write_records(records: &Vec<Record>, out: &mut String)
    ensures
        final(out)@ == old(out)@ + records_text(records_view(records@)),
{
    let ghost views = records_view(records@);
    let mut i: usize = 0;
    assert(out@ =~= old(out)@ + records_text(views.take(0)));
    while i < records.len()
        invariant
            i <= records.len(),
            views == records_view(records@),
            out@ == old(out)@ + records_text(views.take(i as int)),
        decreases records.len() - i,
    {
        write_record(&records[i], out);
        i = i + 1;
        assert(views.take(i as int).drop_last() =~= views.take(i - 1));
        assert(out@ =~= old(out)@ + records_text(views.take(i as int)));
    }
    assert(views.take(views.len() as int) =~= views);
}

/// Appends one line of a DATA section, without the line end.
pub fn write_entity(entity: &EntityInstance, out: &mut String)
    ensures
        final(out)@ == old(out)@ + entity_text(entity@),
{
    match entity {
        EntityInstance::Simple { id, record } => {
            out.push('#');
            push_decimal(out, *id);
            out.push('=');
            write_record(record, out);
            out.push(';');
            assert(out@ =~= old(out)@ + entity_text(entity@));
        },
        EntityInstance::Complex { id, subsuper } => {
            out.push('#');
            push_decimal(out, *id);
            out.push('=');
            out.push('(');
            write_records(subsuper, out);
            out.push(')');
            out.push(';');
            assert(out@ =~= old(out)@ + entity_text(entity@));
        },
    }
}

fn write_section(section: &DataSection, out: &mut String)
    ensures
        final(out)@ == old(out)@ + section_text(section@),
{
    if section.meta.len() == 0 {
        out.append("DATA;\n");
    } else {
        out.append("DATA(");
        write_params(&section.meta, out);
        out.append(");\n");
    }
    let ghost head = if section@.meta.len() == 0 {
        "DATA;\n"@
    } else {
        "DATA("@ + list_text(section@.meta) + ");\n"@
    };
    assert(out@ =~= old(out)@ + head);
    let ghost views = entities_view(section.entities@);
    let mut i: usize = 0;
    assert(out@ =~= old(out)@ + head + entities_text(views.take(0)));
    while i < section.entities.len()
        invariant
            i <= section.entities.len(),
            views == entities_view(section.entities@),
            out@ == old(out)@ + head + entities_text(views.take(i as int)),
        decreases section.entities.len() - i,
    {
        write_entity(&section.entities[i], out);
        out.push('\n');
        i = i + 1;
        assert(views.take(i as int).drop_last() =~= views.take(i - 1));
        assert(out@ =~= old(out)@ + head + entities_text(views.take(i as int)));
    }
    assert(views.take(views.len() as int) =~= views);
    out.append("ENDSEC;\n");
    assert(out@ =~= old(out)@ + section_text(section@));
}

/// The text of an exchange structure, or nothing where it has an optional section.
pub fn write_exchange(exchange: &Exchange) -> (out: Option<String>)
    ensures
        out is None <==> has_optional_sections(exchange@),
        out is Some ==> out->Some_0@ == exchange_text(exchange@),
{
    if exchange.anchor != 0 || exchange.reference != 0 || exchange.signature != 0 {
        return None;
    }
    let mut out = String::new();
    out.append("ISO-10303-21;\nHEADER;\n");
    let ghost head = "ISO-10303-21;\nHEADER;\n"@;
    let ghost views = records_view(exchange.header@);
    let mut i: usize = 0;
    assert(out@ =~= head + header_text(views.take(0)));
    while i < exchange.header.len()
        invariant
            i <= exchange.header.len(),
            views == records_view(exchange.header@),
            out@ == head + header_text(views.take(i as int)),
        decreases exchange.header.len() - i,
    {
        write_record(&exchange.header[i], &mut out);
        out.append(";\n");
        i = i + 1;
        assert(views.take(i as int).drop_last() =~= views.take(i - 1));
        assert(out@ =~= head + header_text(views.take(i as int)));
    }
    assert(views.take(views.len() as int) =~= views);
    out.append("ENDSEC;\n");
    let ghost top = out@;
    let ghost sections = sections_view(exchange.data@);
    let mut k: usize = 0;
    assert(out@ =~= top + sections_text(sections.take(0)));
    while k < exchange.data.len()
        invariant
            k <= exchange.data.len(),
            sections == sections_view(exchange.data@),
            out@ == top + sections_text(sections.take(k as int)),
        decreases exchange.data.len() - k,
    {
        write_section(&exchange.data[k], &mut out);
        k = k + 1;
        assert(sections.take(k as int).drop_last() =~= sections.take(k - 1));
        assert(out@ =~= top + sections_text(sections.take(k as int)));
    }
    assert(sections.take(sections.len() as int) =~= sections);
    out.append("END-ISO-10303-21;\n");
    assert(out@ =~= exchange_text(exchange@));
    Some(out)
}

} // verus!
