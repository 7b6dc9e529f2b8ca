//! Reading a STEP file.

use ruststep::ast::{
    EntityInstance as ParsedEntity, Name as ParsedName, Parameter as ParsedParameter,
    Record as ParsedRecord,
};
use vstd::prelude::*;
use vstd::utf8::{decode_utf8, valid_utf8};

use crate::ast::{DataSection, EntityInstance, Exchange, ExchangeView, Name, Parameter, Record};
use crate::finite::{holds_infinite, is_infinite};
use crate::grammar::{
    exchange_holds_real, fits_records, fits_sections, is_decimal, is_real_word, Rules,
};
use crate::marks::metas_fit;
use crate::scan::{lex_step, next_step, occurs_at, stands_at, Lex};
use crate::shim::{
    prepare_parser_input, prepared, restore_empty_aggregates, restored_exchange, MarkerError,
};
use crate::text::text_chars;
use crate::write::{exchange_text, has_optional_sections};

verus! {

/// How the bytes of a file were encoded.
#[derive(Clone, Copy, PartialEq, Eq, Structural, Debug)]
pub enum Encoding {
    Utf8,
    Gbk,
}

impl Encoding {
    /// The name of the encoding.
    pub fn label(&self) -> (out: &'static str)
        ensures
            out@ == (match *self {
                Encoding::Utf8 => "utf-8"@,
                Encoding::Gbk => "gbk"@,
            }),
    {
        match self {
            Encoding::Utf8 => "utf-8",
            Encoding::Gbk => "gbk",
        }
    }
}

/// Why a file cannot be read.
#[derive(Clone, Copy, PartialEq, Eq, Structural, Debug)]
pub enum StepError {
    /// The bytes are neither UTF-8 nor GBK.
    NotText,
    /// The bytes are not UTF-8 and too many to be decoded otherwise.
    TooLong,
    /// The text holds the mark of an empty aggregate.
    MarkerCollision,
    /// The text holds a number that does not fit in 64 bits.
    NumberTooLarge,
    /// The text nests lists too deep.
    TooDeep,
    /// The text is not an exchange structure.
    Parse,
    /// A typed parameter is an empty aggregate.
    EmptyTypedAggregate,
    /// The mark of an empty aggregate stands elsewhere.
    MarkerEscaped,
    /// The file has an ANCHOR, REFERENCE or SIGNATURE section.
    OptionalSections,
    /// The text holds a real that is too large for a double.
    InfiniteReal,
    /// The file would change if what is written were cleaned again.
    Unstable,
}

impl StepError {
    /// The error in words.
    pub fn message(&self) -> (out: &'static str)
        ensures
            out@ == (match *self {
                StepError::NotText => "STEP input is neither valid UTF-8 nor valid GBK"@,
                StepError::TooLong => "STEP input is too long to be decoded"@,
                StepError::MarkerCollision => "STEP input collides with step-redox empty-aggregate parser marker"@,
                StepError::NumberTooLarge => "STEP input holds a number that does not fit in 64 bits"@,
                StepError::TooDeep => "STEP input nests lists too deep"@,
                StepError::Parse => "parse STEP exchange structure"@,
                StepError::EmptyTypedAggregate => "unsupported empty typed-parameter aggregate in STEP input"@,
                StepError::MarkerEscaped => "empty-aggregate parser marker escaped its aggregate"@,
                StepError::OptionalSections => "ANCHOR/REFERENCE/SIGNATURE sections are not yet supported by step-redox writer"@,
                StepError::InfiniteReal => "STEP input holds a real that is too large for a double"@,
                StepError::Unstable => "the cleaned STEP file would change if it were cleaned again"@,
            }),
    {
        match self {
            StepError::NotText => "STEP input is neither valid UTF-8 nor valid GBK",
            StepError::TooLong => "STEP input is too long to be decoded",
            StepError::MarkerCollision => "STEP input collides with step-redox empty-aggregate parser marker",
            StepError::NumberTooLarge => "STEP input holds a number that does not fit in 64 bits",
            StepError::TooDeep => "STEP input nests lists too deep",
            StepError::Parse => "parse STEP exchange structure",
            StepError::EmptyTypedAggregate => "unsupported empty typed-parameter aggregate in STEP input",
            StepError::MarkerEscaped => "empty-aggregate parser marker escaped its aggregate",
            StepError::OptionalSections => "ANCHOR/REFERENCE/SIGNATURE sections are not yet supported by step-redox writer",
            StepError::InfiniteReal => "STEP input holds a real that is too large for a double",
            StepError::Unstable => "the cleaned STEP file would change if it were cleaned again",
        }
    }
}

/// What `encoding_rs::GBK.decode` makes of bytes: the text, and whether a byte sequence was
/// malformed.
pub uninterp spec fn gbk_decoding(bytes: Seq<u8>) -> (Seq<char>, bool);

/// What `ruststep::parser::exchange::exchange_file` makes of a text: its exchange structure, or
/// nothing where it reports an error.
pub uninterp spec fn parse_outcome(text: Seq<char>) -> Option<ExchangeView>;

/// A parameter as the parser gives it.
#[verifier::external_type_specification]
#[verifier::external_body]
pub struct DeclaredParameter(ParsedParameter);

/// A reference as the parser gives it.
#[verifier::external_type_specification]
#[verifier::external_body]
pub struct DeclaredName(ParsedName);

/// A record as the parser gives it.
#[verifier::external_type_specification]
#[verifier::external_body]
pub struct DeclaredRecord(ParsedRecord);

/// An entity as the parser gives it.
#[verifier::external_type_specification]
#[verifier::external_body]
pub struct DeclaredEntity(ParsedEntity);

/// `std::str::from_utf8` accepts exactly the valid UTF-8 and gives the text that it encodes.
#[verifier::external_body]
fn utf8_text(input: &[u8]) -> (out: Option<String>)
    ensures
        out is Some == valid_utf8(input@),
        out matches Some(text) ==> text@ == decode_utf8(input@),
{
    match std::str::from_utf8(input) {
        Ok(text) => Some(text.to_owned()),
        Err(_) => None,
    }
}

/// `encoding_rs::GBK.decode` gives a text and whether the bytes were malformed, both of which
/// depend on the bytes alone. Its buffer takes at most three bytes for each one it reads, and
/// may be doubled once: the bound keeps that size a possible one.
#[verifier::external_body]
fn gbk_text(input: &[u8]) -> (out: (String, bool))
    requires
        8 * input@.len() + 64 <= isize::MAX,
    ensures
        (out.0@, out.1) == gbk_decoding(input@),
{
    let (text, _, malformed) = encoding_rs::GBK.decode(input);
    (text.into_owned(), malformed)
}

/// A reference of the parser as one of this library: the same variant with the same field.
#[verifier::external_body]
fn import_name(name: ParsedName) -> (out: Name) {
    match name {
        ParsedName::Entity(id) => Name::Entity(id),
        ParsedName::Value(id) => Name::Value(id),
        ParsedName::ConstantEntity(s) => Name::ConstantEntity(s),
        ParsedName::ConstantValue(s) => Name::ConstantValue(s),
    }
}

/// A parameter of the parser as one of this library: the same variant with the same fields,
/// where a real becomes its `Display` text.
#[verifier::external_body]
fn import_parameter(p: ParsedParameter) -> (out: Parameter) {
    match p {
        ParsedParameter::Typed { keyword, parameter } => {
            Parameter::Typed { keyword, parameter: Box::new(import_parameter(*parameter)) }
        },
        ParsedParameter::Integer(v) => Parameter::Integer(v),
        ParsedParameter::Real(v) => Parameter::Real(v.to_string()),
        ParsedParameter::String(s) => Parameter::String(s),
        ParsedParameter::Enumeration(s) => Parameter::Enumeration(s),
        ParsedParameter::List(v) => Parameter::List(v.into_iter().map(import_parameter).collect()),
        ParsedParameter::Ref(name) => Parameter::Ref(import_name(name)),
        ParsedParameter::NotProvided => Parameter::NotProvided,
        ParsedParameter::Omitted => Parameter::Omitted,
    }
}

/// A record of the parser as one of this library, field by field.
#[verifier::external_body]
fn import_record(record: ParsedRecord) -> (out: Record) {
    Record { name: record.name, parameter: import_parameter(record.parameter) }
}

/// An entity of the parser as one of this library: the same variant with the same fields.
#[verifier::external_body]
fn import_entity(entity: ParsedEntity) -> (out: EntityInstance) {
    match entity {
        ParsedEntity::Simple { id, record } => {
            EntityInstance::Simple { id, record: import_record(record) }
        },
        ParsedEntity::Complex { id, subsuper } => EntityInstance::Complex {
            id,
            subsuper: subsuper.0.into_iter().map(import_record).collect(),
        },
    }
}

/// Whether the parser gives a real for some text.
pub open spec fn is_given_real(s: Seq<char>) -> bool {
    exists|text: Seq<char>|
        (#[trigger] parse_outcome(text)) matches Some(exchange) && exchange_holds_real(exchange, s)
}

/// What the parser gives: reals that are numbers in decimal or infinite, no empty aggregates,
/// and strings without apostrophes.
pub open spec fn read_rules() -> Rules {
    Rules {
        reals: |s: Seq<char>| is_given_real(s) && is_real_word(s),
        empties: false,
        plain: false,
    }
}

/// What the parser gives back: finite reals that it has given before, no empty aggregates, and
/// strings of plain characters.
pub open spec fn written_rules() -> Rules {
    Rules {
        reals: |s: Seq<char>| is_given_real(s) && is_decimal(s),
        empties: false,
        plain: true,
    }
}

/// Whether a structure keeps rules throughout.
pub open spec fn keeps(exchange: ExchangeView, rules: Rules) -> bool {
    &&& exchange.header.len() > 0
    &&& fits_records(exchange.header, rules)
    &&& metas_fit(exchange.data, rules)
    &&& fits_sections(exchange.data, rules)
}

/// What is known of the parser's result for a text: what it gives keeps the rules of the
/// grammar, and what was written from a structure that keeps stricter ones is read back as
/// that structure.
pub open spec fn parser_facts(text: Seq<char>) -> bool {
    &&& parse_outcome(text) matches Some(exchange) ==> keeps(exchange, read_rules())
    &&& forall|exchange: ExchangeView| #[trigger]
        exchange_text(exchange) == text && keeps(exchange, written_rules())
            && !has_optional_sections(exchange) ==> parse_outcome(text) == Some(exchange)
}

/// `ruststep::parser::exchange::exchange_file`, whose result depends on the text alone. It does
/// not return where an integer or an exponent is too large, and runs out of stack where lists
/// are nested too deep: such texts are left out. What it gives has keywords of upper-case
/// letters, underscores and digits, strings without apostrophes, lists that are not empty but
/// for those of records, and reals whose `Display` text is decimal or names infinity. A text
/// that was written from a structure with such words, with strings of plain characters and with
/// finite reals that the parser has given for some text, it gives back as that structure: the
/// `Display` text of a finite double is read as that double.
#[verifier::external_body]
fn parse_text(text: &str) -> (out: Option<Exchange>)
    requires
        !oversized_number(text@),
        !too_deep(text@),
    ensures
        out is Some == parse_outcome(text@) is Some,
        out matches Some(exchange) ==> parse_outcome(text@) == Some(exchange@),
        out matches Some(exchange) ==> keeps(exchange@, read_rules()),
        forall|exchange: ExchangeView| #[trigger]
            exchange_text(exchange) == text@ && keeps(exchange, written_rules())
                && !has_optional_sections(exchange) ==> out is Some && out->Some_0@ == exchange,
{
    let (_, file) = ruststep::parser::exchange::exchange_file(text).ok()?;
    let section = |d: ruststep::ast::DataSection| DataSection {
        meta: d.meta.into_iter().map(import_parameter).collect(),
        entities: d.entities.into_iter().map(import_entity).collect(),
    };
    Some(Exchange {
        header: file.header.into_iter().map(import_record).collect(),
        anchor: file.anchor.len(),
        reference: file.reference.len(),
        data: file.data.into_iter().map(section).collect(),
        signature: file.signature.len(),
    })
}

/// Whether a character is a decimal digit.
pub open spec fn is_digit(c: char) -> bool {
    '0' <= c && c <= '9'
}

/// The number of digits at the start of a text.
pub open spec fn digits_len(s: Seq<char>) -> int
    decreases s.len(),
{
    if s.len() > 0 && is_digit(s[0]) {
        1 + digits_len(s.drop_first())
    } else {
        0
    }
}

/// The number that digits stand for.
pub open spec fn digits_value(s: Seq<char>) -> nat
    decreases s.len(),
{
    if s.len() == 0 {
        0
    } else {
        digits_value(s.drop_last()) * 10 + (s.last() as int - '0' as int) as nat
    }
}

/// What stands before a character outside of strings and comments: part of a word, of a
/// reference or of an enumeration, the digits before the point of a real, the point and the
/// digits behind it, the letter of an exponent with what may follow it, or something else.
#[derive(Clone, Copy, PartialEq, Eq, Structural, Debug)]
pub enum Lead {
    Plain,
    Word,
    Integral,
    Fraction,
    Exponent,
}

/// Whether a character can stand between the letter of an exponent and its digits.
pub open spec fn is_blank_or_sign(c: char) -> bool {
    c == ' ' || c == '\t' || c == '\r' || c == '\n' || c == '+' || c == '-'
}

pub open spec fn is_word_letter(c: char) -> bool {
    ('A' <= c && c <= 'Z') || c == '_'
}

/// What stands before the next character behind one that is no digit.
pub open spec fn lead_after(lead: Lead, c: char) -> Lead {
    if is_word_letter(c) {
        if lead == Lead::Fraction && c == 'E' {
            Lead::Exponent
        } else {
            Lead::Word
        }
    } else if c == '#' || c == '@' {
        Lead::Word
    } else if c == '.' {
        if lead == Lead::Integral {
            Lead::Fraction
        } else {
            Lead::Word
        }
    } else if is_blank_or_sign(c) && lead == Lead::Exponent {
        Lead::Exponent
    } else {
        Lead::Plain
    }
}

/// What stands before the next character behind digits.
pub open spec fn lead_after_digits(lead: Lead) -> Lead {
    match lead {
        Lead::Plain | Lead::Integral => Lead::Integral,
        Lead::Fraction => Lead::Fraction,
        Lead::Word | Lead::Exponent => Lead::Word,
    }
}

/// Whether the parser may read the digits at the start of a text as an integer or as an
/// exponent. With `strict` it may do so before the point of a real as well.
pub open spec fn reads_integer(s: Seq<char>, width: int, lead: Lead, strict: bool) -> bool {
    match lead {
        Lead::Exponent => true,
        Lead::Plain | Lead::Integral => strict || !(width < s.len() && s[width] == '.'),
        Lead::Word | Lead::Fraction => false,
    }
}

/// Whether the last tag of a file stands at the start of a text. The parser reads no number
/// behind it.
pub open spec fn starts_end(s: Seq<char>) -> bool {
    occurs_at(s, "END-ISO-10303-21;"@, 0)
}

/// Whether the end of a section stands at the start of a text.
pub open spec fn starts_endsec(s: Seq<char>) -> bool {
    occurs_at(s, "ENDSEC;"@, 0)
}

/// Whether a name in angle brackets starts. Only the sections of anchors and of references have
/// such names. They may hold any character but the closing bracket.
pub open spec fn starts_name(s: Seq<char>) -> bool {
    s[0] == '<'
}

/// The length of a text up to its first closing angle bracket, with it.
pub open spec fn name_len(s: Seq<char>) -> int
    decreases s.len(),
{
    if s.len() == 0 {
        0
    } else if s[0] == '>' {
        1
    } else {
        1 + name_len(s.drop_first())
    }
}

proof fn lemma_name_len(s: Seq<char>)
    ensures
        0 <= name_len(s) <= s.len(),
        s.len() > 0 ==> name_len(s) > 0,
    decreases s.len(),
{
    if s.len() > 0 && s[0] != '>' {
        lemma_name_len(s.drop_first());
    }
}

fn find_name_len(chars: &Vec<char>, from: usize) -> (out: usize)
    requires
        from <= chars.len(),
    ensures
        out == name_len(chars@.skip(from as int)),
        from + out <= chars.len(),
{
    let mut i: usize = from;
    while i < chars.len()
        invariant
            from <= i <= chars.len(),
            name_len(chars@.skip(from as int)) == (i - from) + name_len(chars@.skip(i as int)),
        decreases chars.len() - i,
    {
        let ghost rest = chars@.skip(i as int);
        assert(rest[0] == chars@[i as int]);
        assert(rest.drop_first() =~= chars@.skip(i + 1));
        if chars[i] == '>' {
            return i - from + 1;
        }
        i = i + 1;
    }
    assert(chars@.skip(i as int) =~= Seq::empty());
    i - from
}

/// Whether a text has digits that the parser might read as a number beyond 64 bits. `lead` is
/// what stands before the text. Behind a name, which is `strict`, the parser looks for an integer
/// before it looks for a real, up to the end of the section.
pub open spec fn oversized(s: Seq<char>, state: Lex, lead: Lead, strict: bool) -> bool
    decreases s.len(),
{
    if s.len() == 0 {
        false
    } else if state == Lex::Code && is_digit(s[0]) {
        let width = digits_len(s);
        if !(0 < width <= s.len()) {
            false
        } else if digits_value(s.take(width)) > i64::MAX && reads_integer(s, width, lead, strict) {
            true
        } else {
            oversized(s.skip(width), Lex::Code, lead_after_digits(lead), strict)
        }
    } else if state == Lex::Code && starts_end(s) {
        false
    } else if state == Lex::Code && starts_name(s) {
        let width = name_len(s);
        if !(0 < width <= s.len()) {
            false
        } else {
            oversized(s.skip(width), Lex::Code, Lead::Plain, true)
        }
    } else {
        let (width, next) = lex_step(s, state);
        if !(0 < width <= s.len()) {
            false
        } else {
            oversized(
                s.skip(width),
                next,
                if state == Lex::Code && next == Lex::Code {
                    lead_after(lead, s[0])
                } else {
                    Lead::Plain
                },
                strict && !(state == Lex::Code && starts_endsec(s)),
            )
        }
    }
}

/// Whether a text has digits that the parser might read as a number beyond 64 bits.
pub open spec fn oversized_number(text: Seq<char>) -> bool {
    oversized(text, Lex::Code, Lead::Plain, false)
}

/// How deep lists may be nested. The parser calls itself for each list in a list; so many calls
/// fit in two megabytes of stack.
pub const MAX_NESTING: usize = 200;

/// Whether a text opens more lists in one another than the parser has room for, `depth` of which
/// are open before it.
pub open spec fn deeper_than_allowed(s: Seq<char>, state: Lex, depth: int) -> bool
    decreases s.len(),
{
    if depth > MAX_NESTING {
        true
    } else if s.len() == 0 || (state == Lex::Code && starts_end(s)) {
        false
    } else if state == Lex::Code && starts_name(s) {
        let width = name_len(s);
        if !(0 < width <= s.len()) {
            false
        } else {
            deeper_than_allowed(s.skip(width), Lex::Code, depth)
        }
    } else {
        let (width, next) = lex_step(s, state);
        if !(0 < width <= s.len()) {
            false
        } else {
            deeper_than_allowed(
                s.skip(width),
                next,
                if state == Lex::Code && s[0] == '(' {
                    depth + 1
                } else if state == Lex::Code && s[0] == ')' && depth > 0 {
                    depth - 1
                } else {
                    depth
                },
            )
        }
    }
}

/// Whether a text nests lists deeper than the parser has room for.
pub open spec fn too_deep(text: Seq<char>) -> bool {
    deeper_than_allowed(text, Lex::Code, 0)
}

/// Whether a text nests lists deeper than the parser has room for.
pub fn is_too_deep(chars: &Vec<char>) -> (out: bool)
    ensures
        out == too_deep(chars@),
{
    let end = text_chars("END-ISO-10303-21;");
    let mut i: usize = 0;
    let mut state = Lex::Code;
    let mut depth: usize = 0;
    assert(chars@.skip(0) =~= chars@);
    while i < chars.len()
        invariant
            i <= chars.len(),
            end@ == "END-ISO-10303-21;"@,
            depth <= MAX_NESTING,
            too_deep(chars@) == deeper_than_allowed(chars@.skip(i as int), state, depth as int),
        decreases chars.len() - i,
    {
        let ghost rest = chars@.skip(i as int);
        let c = chars[i];
        assert(rest[0] == c);
        if state == Lex::Code && stands_at(chars, &end, i) {
            return false;
        }
        if state == Lex::Code && c == '<' {
            let width: usize = find_name_len(chars, i);
            proof {
                lemma_name_len(rest);
            }
            assert(rest.skip(width as int) =~= chars@.skip(i + width));
            i = i + width;
        } else {
            let (width, next) = next_step(chars, i, state);
            assert(rest.skip(width as int) =~= chars@.skip(i + width));
            if state == Lex::Code {
                if c == '(' {
                    depth = depth + 1;
                } else if c == ')' && depth > 0 {
                    depth = depth - 1;
                }
            }
            i = i + width;
            state = next;
        }
        assert(too_deep(chars@) == deeper_than_allowed(
            chars@.skip(i as int),
            state,
            depth as int,
        ));
        if depth > MAX_NESTING {
            assert(deeper_than_allowed(chars@.skip(i as int), state, depth as int));
            return true;
        }
    }
    assert(chars@.skip(chars@.len() as int) =~= Seq::empty());
    false
}

fn digit_char(c: char) -> (out: bool)
    ensures
        out == is_digit(c),
{
    '0' <= c && c <= '9'
}

fn find_lead(lead: Lead, c: char) -> (out: Lead)
    ensures
        out == lead_after(lead, c),
{
    if ('A' <= c && c <= 'Z') || c == '_' {
        if lead == Lead::Fraction && c == 'E' {
            Lead::Exponent
        } else {
            Lead::Word
        }
    } else if c == '#' || c == '@' {
        Lead::Word
    } else if c == '.' {
        if lead == Lead::Integral {
            Lead::Fraction
        } else {
            Lead::Word
        }
    } else if lead == Lead::Exponent && (c == ' ' || c == '\t' || c == '\r' || c == '\n' || c
        == '+' || c == '-') {
        Lead::Exponent
    } else {
        Lead::Plain
    }
}

fn find_lead_after_digits(lead: Lead) -> (out: Lead)
    ensures
        out == lead_after_digits(lead),
{
    match lead {
        Lead::Plain | Lead::Integral => Lead::Integral,
        Lead::Fraction => Lead::Fraction,
        Lead::Word | Lead::Exponent => Lead::Word,
    }
}

fn digit_value(c: char) -> (out: u64)
    requires
        is_digit(c),
    ensures
        out == c as int - '0' as int,
        out < 10,
{
    (c as u32 - 48) as u64
}

pub proof fn lemma_digits_len(s: Seq<char>)
    ensures
        0 <= digits_len(s) <= s.len(),
        forall|i: int| 0 <= i < digits_len(s) ==> is_digit(#[trigger] s[i]),
    decreases s.len(),
{
    if s.len() > 0 && is_digit(s[0]) {
        lemma_digits_len(s.drop_first());
        assert forall|i: int| 0 <= i < digits_len(s) implies is_digit(#[trigger] s[i]) by {
            if i > 0 {
                assert(s[i] == s.drop_first()[i - 1]);
            }
        }
    }
}

/// The length of the digits at a position, and whether their number is beyond 64 bits.
fn read_digits(chars: &Vec<char>, from: usize) -> (out: (usize, bool))
    requires
        from < chars.len(),
    ensures
        out.0 == digits_len(chars@.skip(from as int)),
        from + out.0 <= chars.len(),
        out.1 == (digits_value(chars@.skip(from as int).take(out.0 as int)) > i64::MAX),
{
    let ghost rest = chars@.skip(from as int);
    let mut i: usize = from;
    let mut value: u64 = 0;
    let mut large = false;
    assert(rest.take(0) =~= Seq::empty());
    while i < chars.len() && digit_char(chars[i])
        invariant
            from <= i <= chars.len(),
            rest == chars@.skip(from as int),
            digits_len(rest) == (i - from) + digits_len(chars@.skip(i as int)),
            forall|j: int| 0 <= j < i - from ==> is_digit(#[trigger] rest[j]),
            large == (digits_value(rest.take(i - from)) > i64::MAX),
            !large ==> value == digits_value(rest.take(i - from)),
        decreases chars.len() - i,
    {
        let ghost before = rest.take(i - from);
        assert(chars@.skip(i as int).drop_first() =~= chars@.skip(i + 1));
        assert(rest[i - from] == chars@[i as int]);
        let d: u64 = digit_value(chars[i]);
        if !large {
            let next: u128 = value as u128 * 10 + d as u128;
            if next > 9_223_372_036_854_775_807 {
                large = true;
            } else {
                value = next as u64;
            }
        }
        i = i + 1;
        assert(rest.take(i - from).drop_last() =~= before);
        assert(rest.take(i - from).last() == chars@[i - 1]);
    }
    assert(digits_len(chars@.skip(i as int)) == 0);
    (i - from, large)
}

/// Whether a text has digits that the parser might read as a number beyond 64 bits.
pub fn has_oversized_number(chars: &Vec<char>) -> (out: bool)
    ensures
        out == oversized_number(chars@),
{
    let end = text_chars("END-ISO-10303-21;");
    let endsec = text_chars("ENDSEC;");
    let mut i: usize = 0;
    let mut state = Lex::Code;
    let mut lead = Lead::Plain;
    let mut strict = false;
    assert(chars@.skip(0) =~= chars@);
    while i < chars.len()
        invariant
            i <= chars.len(),
            end@ == "END-ISO-10303-21;"@,
            endsec@ == "ENDSEC;"@,
            oversized_number(chars@) == oversized(chars@.skip(i as int), state, lead, strict),
        decreases chars.len() - i,
    {
        let ghost rest = chars@.skip(i as int);
        let c = chars[i];
        assert(rest[0] == c);
        proof {
            lemma_digits_len(rest);
            lemma_digits_len(rest.drop_first());
        }
        if state == Lex::Code && digit_char(c) {
            let (width, large) = read_digits(chars, i);
            let point = !strict && i + width < chars.len() && chars[i + width] == '.';
            if i + width < chars.len() {
                assert(rest[width as int] == chars@[i + width]);
            }
            let read = match lead {
                Lead::Exponent => true,
                Lead::Plain | Lead::Integral => !point,
                Lead::Word | Lead::Fraction => false,
            };
            if large && read {
                return true;
            }
            assert(rest.skip(width as int) =~= chars@.skip(i + width));
            i = i + width;
            lead = find_lead_after_digits(lead);
        } else if state == Lex::Code && stands_at(chars, &end, i) {
            return false;
        } else if state == Lex::Code && c == '<' {
            let width: usize = find_name_len(chars, i);
            proof {
                lemma_name_len(rest);
            }
            assert(rest.skip(width as int) =~= chars@.skip(i + width));
            i = i + width;
            lead = Lead::Plain;
            strict = true;
        } else {
            if state == Lex::Code && stands_at(chars, &endsec, i) {
                strict = false;
            }
            let (width, next) = next_step(chars, i, state);
            assert(rest.skip(width as int) =~= chars@.skip(i + width));
            lead = if state == Lex::Code && next == Lex::Code {
                find_lead(lead, c)
            } else {
                Lead::Plain
            };
            i = i + width;
            state = next;
        }
    }
    assert(chars@.skip(chars@.len() as int) =~= Seq::empty());
    false
}

/// The text of a file: UTF-8 where it is valid, else GBK.
pub open spec fn decoded(bytes: Seq<u8>) -> Result<(Seq<char>, Encoding), StepError> {
    if valid_utf8(bytes) {
        Ok((decode_utf8(bytes), Encoding::Utf8))
    } else if 8 * bytes.len() + 64 > isize::MAX {
        Err(StepError::TooLong)
    } else if gbk_decoding(bytes).1 {
        Err(StepError::NotText)
    } else {
        Ok((gbk_decoding(bytes).0, Encoding::Gbk))
    }
}

/// Decodes the bytes of a file.
pub fn decode_input(input: &[u8]) -> (out: Result<(String, Encoding), StepError>)
    ensures
        match out {
            Ok(pair) => decoded(input@) == Ok::<(Seq<char>, Encoding), StepError>(
                (pair.0@, pair.1),
            ),
            Err(error) => decoded(input@) == Err::<(Seq<char>, Encoding), StepError>(error),
        },
{
    match utf8_text(input) {
        Some(text) => Ok((text, Encoding::Utf8)),
        None => {
            let limit: usize = (isize::MAX as usize - 64) / 8;
            if input.len() > limit {
                return Err(StepError::TooLong);
            }
            let (text, malformed) = gbk_text(input);
            if malformed {
                Err(StepError::NotText)
            } else {
                Ok((text, Encoding::Gbk))
            }
        },
    }
}

/// The exchange structure that a prepared text stands for.
pub open spec fn structure_of(text: Seq<char>, marks: bool) -> Result<ExchangeView, StepError> {
    if oversized_number(text) {
        Err(StepError::NumberTooLarge)
    } else if too_deep(text) {
        Err(StepError::TooDeep)
    } else {
        match parse_outcome(text) {
            None => Err(StepError::Parse),
            Some(exchange) => restored_if(exchange, marks),
        }
    }
}

/// The exchange structure behind what the parser gave: without the marks, where there are any.
pub open spec fn restored_if(exchange: ExchangeView, marks: bool) -> Result<
    ExchangeView,
    StepError,
> {
    if !marks {
        Ok(exchange)
    } else {
        match restored_exchange(exchange) {
            Ok(x) => Ok(x),
            Err(MarkerError::TypedAggregate) => Err(StepError::EmptyTypedAggregate),
            Err(MarkerError::Escaped) => Err(StepError::MarkerEscaped),
        }
    }
}

/// The exchange structure of a text.
pub open spec fn parsed(text: Seq<char>) -> Result<ExchangeView, StepError> {
    match prepared(text) {
        None => Err(StepError::MarkerCollision),
        Some((prepared_text, marks)) => structure_of(prepared_text, marks),
    }
}

/// The exchange structure of a text without optional sections and infinite reals, neither of
/// which can be written.
pub open spec fn supported(exchange: Result<ExchangeView, StepError>) -> Result<
    ExchangeView,
    StepError,
> {
    match exchange {
        Ok(x) => if has_optional_sections(x) {
            Err(StepError::OptionalSections)
        } else if is_infinite(x) {
            Err(StepError::InfiniteReal)
        } else {
            Ok(x)
        },
        Err(error) => Err(error),
    }
}

/// The exchange structure and the encoding of a file.
pub open spec fn reading(bytes: Seq<u8>) -> Result<(ExchangeView, Encoding), StepError> {
    match decoded(bytes) {
        Err(error) => Err(error),
        Ok((text, encoding)) => match supported(parsed(text)) {
            Err(error) => Err(error),
            Ok(exchange) => Ok((exchange, encoding)),
        },
    }
}

/// Takes the marks out of what the parser gave, where there are any.
pub fn finish_parse(exchange: Exchange, marks: bool) -> (out: Result<Exchange, StepError>)
    ensures
        match out {
            Ok(x) => restored_if(exchange@, marks) == Ok::<ExchangeView, StepError>(x@),
            Err(error) => restored_if(exchange@, marks) == Err::<ExchangeView, StepError>(error),
        },
{
    if !marks {
        return Ok(exchange);
    }
    match restore_empty_aggregates(exchange) {
        Ok(x) => Ok(x),
        Err(MarkerError::TypedAggregate) => Err(StepError::EmptyTypedAggregate),
        Err(MarkerError::Escaped) => Err(StepError::MarkerEscaped),
    }
}

/// Parses a text.
pub fn parse_exchange(text: &String) -> (out: Result<Exchange, StepError>)
    ensures
        match out {
            Ok(x) => parsed(text@) == Ok::<ExchangeView, StepError>(x@),
            Err(error) => parsed(text@) == Err::<ExchangeView, StepError>(error),
        },
        prepared(text@) matches Some((given, _)) ==> oversized_number(given) || too_deep(given)
            || parser_facts(given),
{
    match prepare_parser_input(text) {
        None => Err(StepError::MarkerCollision),
        Some((prepared_text, marks)) => {
            let chars = text_chars(prepared_text.as_str());
            if has_oversized_number(&chars) {
                return Err(StepError::NumberTooLarge);
            }
            if is_too_deep(&chars) {
                return Err(StepError::TooDeep);
            }
            match parse_text(prepared_text.as_str()) {
                None => Err(StepError::Parse),
                Some(exchange) => finish_parse(exchange, marks),
            }
        },
    }
}

/// What is known of the parser's result for the text of a file.
pub open spec fn reading_facts(bytes: Seq<u8>) -> bool {
    decoded(bytes) matches Ok((text, _)) ==> prepared(text) matches Some((given, _))
        ==> oversized_number(given) || too_deep(given) || parser_facts(given)
}

/// Reads a file: decodes and parses it, and refuses optional sections and infinite reals.
pub fn read_exchange(input: &[u8]) -> (out: Result<(Exchange, Encoding), StepError>)
    ensures
        match out {
            Ok(pair) => reading(input@) == Ok::<(ExchangeView, Encoding), StepError>(
                (pair.0@, pair.1),
            ),
            Err(error) => reading(input@) == Err::<(ExchangeView, Encoding), StepError>(error),
        },
        reading_facts(input@),
{
    match decode_input(input) {
        Err(error) => Err(error),
        Ok((text, encoding)) => match parse_exchange(&text) {
            Err(error) => Err(error),
            Ok(exchange) => {
                if exchange.anchor != 0 || exchange.reference != 0 || exchange.signature != 0 {
                    Err(StepError::OptionalSections)
                } else if holds_infinite(&exchange) {
                    Err(StepError::InfiniteReal)
                } else {
                    Ok((exchange, encoding))
                }
            },
        },
    }
}

} // verus!
