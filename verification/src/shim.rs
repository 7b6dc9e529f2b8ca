//! Empty aggregates.
//!
//! The parser wants at least one parameter in an aggregate, but `()` is legal. So each empty
//! aggregate after the first `DATA;` is given an enumeration that no file uses, and taken back
//! out of the parsed parameters.

use vstd::prelude::*;

use crate::ast::{
    entities_view, lemma_list_view, params_view, records_view, sections_view, DataSection,
    EntityInstance, EntityView, Exchange, ExchangeView, ParamView, Parameter, Record, RecordView,
    SectionView,
};
use crate::scan::{contains_text, find_text, lex_step, next_step, occurs, occurs_at, Lex};
use crate::text::{push_range, same_text, text_chars};

verus! {

/// The enumeration that marks an empty aggregate.
pub open spec fn marker() -> Seq<char> {
    "STEPREDOXEMPTYAGGREGATE"@
}

/// What an empty aggregate becomes.
pub open spec fn marked_aggregate() -> Seq<char> {
    "(.STEPREDOXEMPTYAGGREGATE.)"@
}

pub open spec fn is_space(c: char) -> bool {
    c == ' ' || c == '\t' || c == '\n' || c == '\r' || c == '\x0C'
}

/// The length of the white space at the start of a text.
pub open spec fn space_len(s: Seq<char>) -> int
    decreases s.len(),
{
    if s.len() > 0 && is_space(s[0]) {
        1 + space_len(s.drop_first())
    } else {
        0
    }
}

/// Whether a text begins with an aggregate that holds at most white space.
pub open spec fn empty_aggregate(s: Seq<char>) -> bool {
    &&& s.len() > 0
    &&& s[0] == '('
    &&& 1 + space_len(s.skip(1)) < s.len()
    &&& s[1 + space_len(s.skip(1))] == ')'
}

pub proof fn lemma_space_len(s: Seq<char>)
    ensures
        0 <= space_len(s) <= s.len(),
    decreases s.len(),
{
    if s.len() > 0 && is_space(s[0]) {
        lemma_space_len(s.drop_first());
    }
}

/// A text with every empty aggregate outside of strings and comments marked, and whether
/// there was one.
pub open spec fn marked(s: Seq<char>, state: Lex) -> (Seq<char>, bool)
    decreases s.len(),
{
    if s.len() == 0 {
        (s, false)
    } else if state == Lex::Code && empty_aggregate(s) {
        let width = 2 + space_len(s.skip(1));
        if 0 < width <= s.len() {
            (marked_aggregate() + marked(s.skip(width), Lex::Code).0, true)
        } else {
            (s, false)
        }
    } else {
        let (width, next) = lex_step(s, state);
        if 0 < width <= s.len() {
            let rest = marked(s.skip(width), next);
            (s.take(width) + rest.0, rest.1)
        } else {
            (s, false)
        }
    }
}

/// Whether a text might hold an empty aggregate.
pub open spec fn may_hold_empty(s: Seq<char>) -> bool {
    ||| occurs(s, "()"@)
    ||| occurs(s, "( "@)
    ||| occurs(s, "(\t"@)
    ||| occurs(s, "(\r"@)
    ||| occurs(s, "(\n"@)
}

/// The first position of a pattern.
pub open spec fn first_at(text: Seq<char>, pattern: Seq<char>, i: int) -> bool {
    occurs_at(text, pattern, i) && forall|j: int| 0 <= j < i ==> !occurs_at(text, pattern, j)
}

/// What occurs has a first position.
pub proof fn lemma_first_exists(text: Seq<char>, pattern: Seq<char>, i: int)
    requires
        occurs_at(text, pattern, i),
    ensures
        exists|first: int| first_at(text, pattern, first),
    decreases i,
{
    if !first_at(text, pattern, i) {
        let j = choose|j: int| 0 <= j < i && occurs_at(text, pattern, j);
        lemma_first_exists(text, pattern, j);
    }
}

/// Where the first `DATA;` stands.
pub open spec fn data_at(text: Seq<char>) -> int {
    choose|i: int| first_at(text, "DATA;"@, i)
}

/// What goes to the parser: the text with its empty aggregates marked, and whether there was
/// one; or nothing where the text already holds the mark.
pub open spec fn prepared(text: Seq<char>) -> Option<(Seq<char>, bool)> {
    if !occurs(text, "DATA;"@) {
        Some((text, false))
    } else {
        prepared_from(text, data_at(text) + 5)
    }
}

pub open spec fn prepared_from(text: Seq<char>, start: int) -> Option<(Seq<char>, bool)> {
    let body = text.skip(start);
    if !may_hold_empty(body) {
        Some((text, false))
    } else if occurs(text, ".STEPREDOXEMPTYAGGREGATE."@) {
        None
    } else if !marked(body, Lex::Code).1 {
        Some((text, false))
    } else {
        Some((text.take(start) + marked(body, Lex::Code).0, true))
    }
}

fn space_char(c: char) -> (out: bool)
    ensures
        out == is_space(c),
{
    c == ' ' || c == '\t' || c == '\n' || c == '\r' || c == '\x0C'
}

/// The position behind the white space at a position.
fn skip_space(chars: &Vec<char>, from: usize) -> (out: usize)
    requires
        from <= chars.len(),
    ensures
        from <= out <= chars.len(),
        out == from + space_len(chars@.skip(from as int)),
{
    let mut i: usize = from;
    while i < chars.len() && space_char(chars[i])
        invariant
            from <= i <= chars.len(),
            from + space_len(chars@.skip(from as int)) == i + space_len(chars@.skip(i as int)),
        decreases chars.len() - i,
    {
        assert(chars@.skip(i as int).drop_first() =~= chars@.skip(i + 1));
        i = i + 1;
    }
    i
}

/// Marks the empty aggregates of `chars[start..]` and appends the result.
#[verifier::rlimit(30)]
fn mark_aggregates(chars: &Vec<char>, start: usize, out: &mut String) -> (found: bool)
    requires
        start <= chars.len(),
    ensures
        final(out)@ == old(out)@ + marked(chars@.skip(start as int), Lex::Code).0,
        found == marked(chars@.skip(start as int), Lex::Code).1,
{
    let ghost goal = marked(chars@.skip(start as int), Lex::Code);
    let mut i: usize = start;
    let mut state = Lex::Code;
    let mut found = false;
    while i < chars.len()
        invariant
            start <= i <= chars.len(),
            out@ + marked(chars@.skip(i as int), state).0 == old(out)@ + goal.0,
            found || marked(chars@.skip(i as int), state).1 == goal.1,
            found ==> goal.1,
        decreases chars.len() - i,
    {
        let ghost rest = chars@.skip(i as int);
        let ghost before = out@;
        let ghost was = state;
        let mut taken = false;
        assert(rest[0] == chars@[i as int]);
        assert(rest.skip(1) =~= chars@.skip(i + 1));
        proof {
            lemma_space_len(rest.skip(1));
        }
        if state == Lex::Code && chars[i] == '(' {
            let j: usize = skip_space(chars, i + 1);
            if j < chars.len() && chars[j] == ')' {
                assert(rest[j - i] == chars@[j as int]);
                assert(empty_aggregate(rest));
                out.append("(.STEPREDOXEMPTYAGGREGATE.)");
                assert(rest.skip(2 + space_len(rest.skip(1))) =~= chars@.skip(j + 1));
                i = j + 1;
                found = true;
                taken = true;
                assert(out@ + marked(chars@.skip(i as int), state).0 =~= before + marked(rest, was).0);
            }
        }
        if !taken {
            assert(!(state == Lex::Code && empty_aggregate(rest)));
            let (width, next) = next_step(chars, i, state);
            push_range(out, chars, i, i + width);
            assert(chars@.subrange(i as int, i + width) =~= rest.take(width as int));
            assert(rest.skip(width as int) =~= chars@.skip(i + width));
            i = i + width;
            state = next;
            assert(out@ + marked(chars@.skip(i as int), state).0 =~= before + marked(rest, was).0);
        }
    }
    assert(chars@.skip(chars@.len() as int) =~= Seq::empty());
    assert(out@ =~= old(out)@ + goal.0);
    found
}

/// The text that goes to the parser, and whether an empty aggregate was marked in it; or
/// nothing where the text already holds the mark.
pub fn prepare_parser_input(input: &String) -> (out: Option<(String, bool)>)
    ensures
        out is Some == prepared(input@) is Some,
        out matches Some(pair) ==> (pair.0@, pair.1) == prepared(input@)->Some_0,
{
    let chars = text_chars(input.as_str());
    match find_text(&chars, "DATA;", 0) {
        None => {
            assert(!occurs(input@, "DATA;"@)) by {
                if occurs(input@, "DATA;"@) {
                    let j = choose|j: int| occurs_at(input@, "DATA;"@, j);
                    assert(0 <= j);
                }
            }
            Some((input.clone(), false))
        },
        Some(at) => {
            proof {
                reveal_strlit("DATA;");
                assert("DATA;"@.len() == 5);
                assert(at + 5 <= chars.len());
                assert(first_at(input@, "DATA;"@, at as int));
                let other = data_at(input@);
                assert(first_at(input@, "DATA;"@, other));
                assert(other == at);
                assert(occurs(input@, "DATA;"@));
            }
            let start: usize = at + 5;
            let ghost body = input@.skip(start as int);
            let mut body_chars: Vec<char> = Vec::new();
            let mut i: usize = start;
            while i < chars.len()
                invariant
                    start <= i <= chars.len(),
                    chars@ == input@,
                    body_chars@ == input@.subrange(start as int, i as int),
                decreases chars.len() - i,
            {
                body_chars.push(chars[i]);
                i = i + 1;
                assert(input@.subrange(start as int, i as int) =~= input@.subrange(
                    start as int,
                    i - 1,
                ).push(input@[i - 1]));
            }
            assert(body_chars@ =~= body);
            if !contains_text(&body_chars, "()") && !contains_text(&body_chars, "( ")
                && !contains_text(&body_chars, "(\t") && !contains_text(&body_chars, "(\r")
                && !contains_text(&body_chars, "(\n") {
                return Some((input.clone(), false));
            }
            if contains_text(&chars, ".STEPREDOXEMPTYAGGREGATE.") {
                return None;
            }
            let mut out = String::new();
            push_range(&mut out, &chars, 0, start);
            assert(chars@.subrange(0, start as int) =~= input@.take(start as int));
            let found = mark_aggregates(&chars, start, &mut out);
            if found {
                assert(out@ =~= input@.take(start as int) + marked(body, Lex::Code).0);
                Some((out, true))
            } else {
                Some((input.clone(), false))
            }
        },
    }
}

/// Why a marked aggregate cannot be taken back.
#[derive(Clone, Copy, PartialEq, Eq, Structural, Debug)]
pub enum MarkerError {
    /// The mark is the parameter of a typed parameter.
    TypedAggregate,
    /// The mark does not stand alone in an aggregate.
    Escaped,
}

pub open spec fn is_marker(p: ParamView) -> bool {
    p == ParamView::Enumeration(marker())
}

/// A parameter with empty aggregates in place of marked ones, or the first mark that does not
/// stand for one.
pub open spec fn restored(p: ParamView) -> Result<ParamView, MarkerError>
    decreases p,
{
    match p {
        ParamView::List(items) => if items.len() == 1 && is_marker(items[0]) {
            Ok(ParamView::List(Seq::empty()))
        } else {
            match restored_items(items) {
                Ok(list) => Ok(ParamView::List(list)),
                Err(error) => Err(error),
            }
        },
        ParamView::Typed { keyword, parameter } => if is_marker(*parameter) {
            Err(MarkerError::TypedAggregate)
        } else {
            match restored(*parameter) {
                Ok(inner) => Ok(ParamView::Typed { keyword, parameter: Box::new(inner) }),
                Err(error) => Err(error),
            }
        },
        _ => if is_marker(p) {
            Err(MarkerError::Escaped)
        } else {
            Ok(p)
        },
    }
}

pub open spec fn restored_items(items: Seq<ParamView>) -> Result<Seq<ParamView>, MarkerError>
    decreases items,
{
    if items.len() == 0 {
        Ok(Seq::empty())
    } else {
        match restored_items(items.drop_last()) {
            Err(error) => Err(error),
            Ok(list) => match restored(items.last()) {
                Err(error) => Err(error),
                Ok(item) => Ok(list.push(item)),
            },
        }
    }
}

pub open spec fn restored_records(records: Seq<RecordView>) -> Result<Seq<RecordView>, MarkerError>
    decreases records.len(),
{
    if records.len() == 0 {
        Ok(Seq::empty())
    } else {
        match restored_records(records.drop_last()) {
            Err(error) => Err(error),
            Ok(list) => match restored(records.last().parameter) {
                Err(error) => Err(error),
                Ok(parameter) => Ok(
                    list.push(RecordView { name: records.last().name, parameter }),
                ),
            },
        }
    }
}

pub open spec fn restored_entity(entity: EntityView) -> Result<EntityView, MarkerError> {
    match entity {
        EntityView::Simple { id, record } => match restored(record.parameter) {
            Err(error) => Err(error),
            Ok(parameter) => Ok(
                EntityView::Simple { id, record: RecordView { name: record.name, parameter } },
            ),
        },
        EntityView::Complex { id, subsuper } => match restored_records(subsuper) {
            Err(error) => Err(error),
            Ok(list) => Ok(EntityView::Complex { id, subsuper: list }),
        },
    }
}

pub open spec fn restored_entities(entities: Seq<EntityView>) -> Result<
    Seq<EntityView>,
    MarkerError,
>
    decreases entities.len(),
{
    if entities.len() == 0 {
        Ok(Seq::empty())
    } else {
        match restored_entities(entities.drop_last()) {
            Err(error) => Err(error),
            Ok(list) => match restored_entity(entities.last()) {
                Err(error) => Err(error),
                Ok(entity) => Ok(list.push(entity)),
            },
        }
    }
}

pub open spec fn restored_sections(sections: Seq<SectionView>) -> Result<
    Seq<SectionView>,
    MarkerError,
>
    decreases sections.len(),
{
    if sections.len() == 0 {
        Ok(Seq::empty())
    } else {
        match restored_sections(sections.drop_last()) {
            Err(error) => Err(error),
            Ok(list) => match restored_entities(sections.last().entities) {
                Err(error) => Err(error),
                Ok(entities) => Ok(
                    list.push(SectionView { meta: sections.last().meta, entities }),
                ),
            },
        }
    }
}

/// The data sections with empty aggregates in place of marked ones. The header has none.
pub open spec fn restored_exchange(exchange: ExchangeView) -> Result<ExchangeView, MarkerError> {
    match restored_sections(exchange.data) {
        Err(error) => Err(error),
        Ok(data) => Ok(ExchangeView { data, ..exchange }),
    }
}

fn marker_param(param: &Parameter) -> (out: bool)
    ensures
        out == is_marker(param@),
{
    match param {
        Parameter::Enumeration(value) => same_text(value.as_str(), "STEPREDOXEMPTYAGGREGATE"),
        _ => false,
    }
}

/// A copy of a parameter with empty aggregates in place of marked ones.
pub fn restore_empty_aggregate_param(param: &Parameter) -> (out: Result<Parameter, MarkerError>)
    ensures
        match out {
            Ok(p) => restored(param@) == Ok::<ParamView, MarkerError>(p@),
            Err(error) => restored(param@) == Err::<ParamView, MarkerError>(error),
        },
    decreases param,
{
    match param {
        Parameter::List(items) => {
            proof {
                lemma_list_view(*items);
            }
            let ghost views = params_view(items@);
            if items.len() == 1 && marker_param(&items[0]) {
                let empty: Vec<Parameter> = Vec::new();
                proof {
                    lemma_list_view(empty);
                    assert(params_view(empty@) =~= Seq::empty());
                }
                return Ok(Parameter::List(empty));
            }
            let mut list: Vec<Parameter> = Vec::new();
            let mut i: usize = 0;
            assert(views.take(0) =~= Seq::empty());
            assert(params_view(list@) =~= Seq::empty());
            while i < items.len()
                invariant
                    i <= items.len(),
                    decreases_to!(param => items@),
                    views == params_view(items@),
                    param@ == ParamView::List(views),
                    !(views.len() == 1 && is_marker(views[0])),
                    restored_items(views.take(i as int)) == Ok::<Seq<ParamView>, MarkerError>(
                        params_view(list@),
                    ),
                decreases items.len() - i,
            {
                let ghost old_list = list@;
                assert(views.take(i + 1).drop_last() =~= views.take(i as int));
                match restore_empty_aggregate_param(&items[i]) {
                    Err(error) => {
                        proof {
                            lemma_restored_prefix(views, (i + 1) as nat, error);
                        }
                        return Err(error);
                    },
                    Ok(item) => {
                        list.push(item);
                        assert(params_view(list@) =~= params_view(old_list).push(item@));
                    },
                }
                i = i + 1;
            }
            assert(views.take(views.len() as int) =~= views);
            proof {
                lemma_list_view(list);
            }
            Ok(Parameter::List(list))
        },
        Parameter::Typed { keyword, parameter } => {
            if marker_param(&**parameter) {
                return Err(MarkerError::TypedAggregate);
            }
            match restore_empty_aggregate_param(&**parameter) {
                Err(error) => Err(error),
                Ok(inner) => Ok(
                    Parameter::Typed { keyword: keyword.clone(), parameter: Box::new(inner) },
                ),
            }
        },
        other => {
            if marker_param(other) {
                Err(MarkerError::Escaped)
            } else {
                Ok(other.clone())
            }
        },
    }
}

/// An error in a prefix is the error of the whole.
pub proof fn lemma_restored_prefix(items: Seq<ParamView>, n: nat, error: MarkerError)
    requires
        n <= items.len(),
        restored_items(items.take(n as int)) == Err::<Seq<ParamView>, MarkerError>(error),
    ensures
        restored_items(items) == Err::<Seq<ParamView>, MarkerError>(error),
    decreases items.len(),
{
    if n == items.len() {
        assert(items.take(n as int) =~= items);
    } else {
        assert(items.drop_last().take(n as int) =~= items.take(n as int));
        lemma_restored_prefix(items.drop_last(), n, error);
    }
}

pub proof fn lemma_restored_records_prefix(
    records: Seq<RecordView>,
    n: nat,
    error: MarkerError,
)
    requires
        n <= records.len(),
        restored_records(records.take(n as int)) == Err::<Seq<RecordView>, MarkerError>(error),
    ensures
        restored_records(records) == Err::<Seq<RecordView>, MarkerError>(error),
    decreases records.len(),
{
    if n == records.len() {
        assert(records.take(n as int) =~= records);
    } else {
        assert(records.drop_last().take(n as int) =~= records.take(n as int));
        lemma_restored_records_prefix(records.drop_last(), n, error);
    }
}

pub proof fn lemma_restored_entities_prefix(
    entities: Seq<EntityView>,
    n: nat,
    error: MarkerError,
)
    requires
        n <= entities.len(),
        restored_entities(entities.take(n as int)) == Err::<Seq<EntityView>, MarkerError>(error),
    ensures
        restored_entities(entities) == Err::<Seq<EntityView>, MarkerError>(error),
    decreases entities.len(),
{
    if n == entities.len() {
        assert(entities.take(n as int) =~= entities);
    } else {
        assert(entities.drop_last().take(n as int) =~= entities.take(n as int));
        lemma_restored_entities_prefix(entities.drop_last(), n, error);
    }
}

pub proof fn lemma_restored_sections_prefix(
    sections: Seq<SectionView>,
    n: nat,
    error: MarkerError,
)
    requires
        n <= sections.len(),
        restored_sections(sections.take(n as int)) == Err::<Seq<SectionView>, MarkerError>(error),
    ensures
        restored_sections(sections) == Err::<Seq<SectionView>, MarkerError>(error),
    decreases sections.len(),
{
    if n == sections.len() {
        assert(sections.take(n as int) =~= sections);
    } else {
        assert(sections.drop_last().take(n as int) =~= sections.take(n as int));
        lemma_restored_sections_prefix(sections.drop_last(), n, error);
    }
}

fn restore_records(records: &Vec<Record>) -> (out: Result<Vec<Record>, MarkerError>)
    ensures
        match out {
            Ok(list) => restored_records(records_view(records@)) == Ok::<
                Seq<RecordView>,
                MarkerError,
            >(records_view(list@)),
            Err(error) => restored_records(records_view(records@)) == Err::<
                Seq<RecordView>,
                MarkerError,
            >(error),
        },
{
    let ghost views = records_view(records@);
    let mut list: Vec<Record> = Vec::new();
    let mut i: usize = 0;
    assert(views.take(0) =~= Seq::empty());
    assert(records_view(list@) =~= Seq::empty());
    while i < records.len()
        invariant
            i <= records.len(),
            views == records_view(records@),
            restored_records(views.take(i as int)) == Ok::<Seq<RecordView>, MarkerError>(
                records_view(list@),
            ),
        decreases records.len() - i,
    {
        let ghost old_list = list@;
        assert(views.take(i + 1).drop_last() =~= views.take(i as int));
        match restore_empty_aggregate_param(&records[i].parameter) {
            Err(error) => {
                proof {
                    lemma_restored_records_prefix(views, (i + 1) as nat, error);
                }
                return Err(error);
            },
            Ok(parameter) => {
                list.push(Record { name: records[i].name.clone(), parameter });
                assert(records_view(list@) =~= records_view(old_list).push(list@.last()@));
            },
        }
        i = i + 1;
    }
    assert(views.take(views.len() as int) =~= views);
    Ok(list)
}

fn restore_entity(entity: &EntityInstance) -> (out: Result<EntityInstance, MarkerError>)
    ensures
        match out {
            Ok(copy) => restored_entity(entity@) == Ok::<EntityView, MarkerError>(copy@),
            Err(error) => restored_entity(entity@) == Err::<EntityView, MarkerError>(error),
        },
{
    match entity {
        EntityInstance::Simple { id, record } => {
            match restore_empty_aggregate_param(&record.parameter) {
                Err(error) => Err(error),
                Ok(parameter) => Ok(
                    EntityInstance::Simple {
                        id: *id,
                        record: Record { name: record.name.clone(), parameter },
                    },
                ),
            }
        },
        EntityInstance::Complex { id, subsuper } => match restore_records(subsuper) {
            Err(error) => Err(error),
            Ok(list) => Ok(EntityInstance::Complex { id: *id, subsuper: list }),
        },
    }
}

fn restore_entities(entities: &Vec<EntityInstance>) -> (out: Result<
    Vec<EntityInstance>,
    MarkerError,
>)
    ensures
        match out {
            Ok(list) => restored_entities(entities_view(entities@)) == Ok::<
                Seq<EntityView>,
                MarkerError,
            >(entities_view(list@)),
            Err(error) => restored_entities(entities_view(entities@)) == Err::<
                Seq<EntityView>,
                MarkerError,
            >(error),
        },
{
    let ghost views = entities_view(entities@);
    let mut list: Vec<EntityInstance> = Vec::new();
    let mut i: usize = 0;
    assert(views.take(0) =~= Seq::empty());
    assert(entities_view(list@) =~= Seq::empty());
    while i < entities.len()
        invariant
            i <= entities.len(),
            views == entities_view(entities@),
            restored_entities(views.take(i as int)) == Ok::<Seq<EntityView>, MarkerError>(
                entities_view(list@),
            ),
        decreases entities.len() - i,
    {
        let ghost old_list = list@;
        assert(views.take(i + 1).drop_last() =~= views.take(i as int));
        match restore_entity(&entities[i]) {
            Err(error) => {
                proof {
                    lemma_restored_entities_prefix(views, (i + 1) as nat, error);
                }
                return Err(error);
            },
            Ok(entity) => {
                list.push(entity);
                assert(entities_view(list@) =~= entities_view(old_list).push(list@.last()@));
            },
        }
        i = i + 1;
    }
    assert(views.take(views.len() as int) =~= views);
    Ok(list)
}

/// Takes the marks out of the data sections.
pub fn restore_empty_aggregates(exchange: Exchange) -> (out: Result<Exchange, MarkerError>)
    ensures
        match out {
            Ok(x) => restored_exchange(exchange@) == Ok::<ExchangeView, MarkerError>(x@),
            Err(error) => restored_exchange(exchange@) == Err::<ExchangeView, MarkerError>(error),
        },
{
    let ghost views = sections_view(exchange.data@);
    let mut list: Vec<DataSection> = Vec::new();
    let mut i: usize = 0;
    assert(views.take(0) =~= Seq::empty());
    assert(sections_view(list@) =~= Seq::empty());
    while i < exchange.data.len()
        invariant
            i <= exchange.data.len(),
            views == sections_view(exchange.data@),
            restored_sections(views.take(i as int)) == Ok::<Seq<SectionView>, MarkerError>(
                sections_view(list@),
            ),
        decreases exchange.data.len() - i,
    {
        let ghost old_list = list@;
        assert(views.take(i + 1).drop_last() =~= views.take(i as int));
        match restore_entities(&exchange.data[i].entities) {
            Err(error) => {
                proof {
                    lemma_restored_sections_prefix(views, (i + 1) as nat, error);
                }
                return Err(error);
            },
            Ok(entities) => {
                let meta = crate::ast::clone_params(&exchange.data[i].meta);
                list.push(DataSection { meta, entities });
                assert(sections_view(list@) =~= sections_view(old_list).push(list@.last()@));
            },
        }
        i = i + 1;
    }
    assert(views.take(views.len() as int) =~= views);
    Ok(
        Exchange {
            header: exchange.header,
            anchor: exchange.anchor,
            reference: exchange.reference,
            data: list,
            signature: exchange.signature,
        },
    )
}

} // verus!
