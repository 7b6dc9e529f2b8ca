//! What an observer sees of faces: a text that is the same for congruent ones.
//!
//! The observer stands at a center, is turned by quarters about the upright axis, and sees
//! points, directions and real numbers in billionths of a unit.

use std::collections::HashMap;
use vstd::hash_map::StringHashMap;
use vstd::prelude::*;

use crate::ast::{
    entities_view, lemma_list_view, params_view, EntityInstance, EntityView, Name, NameView,
    ParamView, Parameter, Record, RecordView,
};
use crate::cycles::{canonical_cycle, first_start, lemma_first_start};
use crate::graph::{
    find_record, find_typed, indexes, nth, nth_entity_ref, nth_entity_ref_list, nth_param, nth_ref,
    nth_ref_list, record_at, typed_record,
};
use crate::sets::list_contains;
use crate::text::{decimal, push_decimal, push_signed, same_text, signed_decimal};
use crate::texts::{joined_texts, push_joined, put_text, sorted_texts, texts_view};

verus! {

broadcast use vstd::std_specs::hash::group_hash_axioms;

/// How deep the entities below a curve or a surface may be nested.
pub const MAX_DEPTH: u8 = 48;

/// What the `Debug` form of a text is.
pub uninterp spec fn quoted_text(text: Seq<char>) -> Seq<char>;

/// `Debug` of `str`: the text in quotes, with escapes. Which characters are escaped is left to
/// the standard library.
#[verifier::external_body]
fn quote_text(text: &str) -> (out: String)
    ensures
        out@ == quoted_text(text@),
{
    format!("{:?}", text)
}

/// Real numbers in billionths, by their texts.
pub struct RealTicks {
    ticks: StringHashMap<i64>,
}

impl View for RealTicks {
    type V = Map<Seq<char>, i64>;

    closed spec fn view(&self) -> Map<Seq<char>, i64> {
        self.ticks@
    }
}

impl RealTicks {
    /// No numbers.
    pub fn new() -> (out: RealTicks)
        ensures
            out@ == Map::<Seq<char>, i64>::empty(),
    {
        RealTicks { ticks: StringHashMap::new() }
    }

    /// Adds a number.
    pub fn set(&mut self, text: String, ticks: i64)
        ensures
            final(self)@ == old(self)@.insert(text@, ticks),
    {
        self.ticks.insert(text, ticks);
    }

    pub(crate) fn get(&self, text: &str) -> (out: Option<i64>)
        ensures
            out == (if self@.contains_key(text@) {
                Some(self@[text@])
            } else {
                None
            }),
    {
        match self.ticks.get(text) {
            Some(ticks) => Some(*ticks),
            None => None,
        }
    }
}

/// The entities of a section as an observer sees them.
pub struct Sight {
    pub entities: Seq<EntityView>,
    pub ticks: Map<u64, [i64; 3]>,
    pub reals: Map<Seq<char>, i64>,
    pub quarter: u8,
}

/// A coordinate seen from the other side. Numbers that are too large stay too large.
pub open spec fn flipped(v: i64) -> i64 {
    if v == i64::MAX {
        i64::MIN
    } else if v == i64::MIN {
        i64::MAX
    } else {
        (-v) as i64
    }
}

/// A place seen by an observer who is turned by quarters.
pub open spec fn turned(place: [i64; 3], quarter: u8) -> (i64, i64, i64) {
    if quarter % 4 == 0 {
        (place[0], place[1], place[2])
    } else if quarter % 4 == 1 {
        (flipped(place[1]), place[0], place[2])
    } else if quarter % 4 == 2 {
        (flipped(place[0]), flipped(place[1]), place[2])
    } else {
        (place[1], flipped(place[0]), place[2])
    }
}

fn flip(v: i64) -> (out: i64)
    ensures
        out == flipped(v),
{
    if v == i64::MAX {
        i64::MIN
    } else if v == i64::MIN {
        i64::MAX
    } else {
        -v
    }
}

/// Turns a place by quarters.
pub fn turn(place: &[i64; 3], quarter: u8) -> (out: (i64, i64, i64))
    ensures
        out == turned(*place, quarter),
{
    if quarter % 4 == 0 {
        (place[0], place[1], place[2])
    } else if quarter % 4 == 1 {
        (flip(place[1]), place[0], place[2])
    } else if quarter % 4 == 2 {
        (flip(place[0]), flip(place[1]), place[2])
    } else {
        (place[1], flip(place[0]), place[2])
    }
}

pub open spec fn place_text(place: (i64, i64, i64)) -> Seq<char> {
    "("@ + signed_decimal(place.0 as int) + ","@ + signed_decimal(place.1 as int) + ","@
        + signed_decimal(place.2 as int) + ")"@
}

/// Where a point or a direction is seen.
pub open spec fn spot_text(s: Sight, id: u64) -> Option<Seq<char>> {
    if s.ticks.contains_key(id) {
        Some(place_text(turned(s.ticks[id], s.quarter)))
    } else {
        None
    }
}

/// Whether a type is one of those that make up a shell.
pub open spec fn is_topology(name: Seq<char>) -> bool {
    ||| name == "MANIFOLD_SOLID_BREP"@
    ||| name == "CLOSED_SHELL"@
    ||| name == "OPEN_SHELL"@
    ||| name == "ADVANCED_FACE"@
    ||| name == "FACE_SURFACE"@
    ||| name == "FACE_OUTER_BOUND"@
    ||| name == "FACE_BOUND"@
    ||| name == "EDGE_LOOP"@
    ||| name == "ORIENTED_EDGE"@
    ||| name == "EDGE_CURVE"@
    ||| name == "VERTEX_POINT"@
}

pub open spec fn deeper(depth: u8) -> u8 {
    if depth > MAX_DEPTH {
        depth
    } else {
        (depth + 1) as u8
    }
}

pub open spec fn levels_left(depth: u8) -> nat {
    if depth > MAX_DEPTH {
        0
    } else {
        (MAX_DEPTH + 1 - depth) as nat
    }
}

/// What is seen of a curve or a surface: its type and all that it is made of. Nothing is seen of
/// one that is made of itself, that is nested too deep, or that is made of parts of a shell.
pub open spec fn support_text(s: Sight, id: u64, path: Seq<u64>, depth: u8) -> Option<Seq<char>>
    decreases levels_left(depth), 0nat, ParamView::Omitted, 0nat,
{
    if depth > MAX_DEPTH || path.contains(id) {
        None
    } else {
        match record_at(s.entities, id) {
            None => None,
            Some(record) => if record.name == "CARTESIAN_POINT"@ {
                match spot_text(s, id) {
                    Some(spot) => Some("POINT"@ + spot),
                    None => None,
                }
            } else if record.name == "DIRECTION"@ {
                match spot_text(s, id) {
                    Some(spot) => Some("DIR"@ + spot),
                    None => None,
                }
            } else if is_topology(record.name) {
                None
            } else {
                match part_text(s, record.parameter, path.push(id), deeper(depth)) {
                    Some(parts) => Some(record.name + parts),
                    None => None,
                }
            },
        }
    }
}

/// What is seen of a parameter of a curve or a surface.
pub open spec fn part_text(s: Sight, p: ParamView, path: Seq<u64>, depth: u8) -> Option<Seq<char>>
    decreases levels_left(depth), 1nat, p, 0nat,
{
    match p {
        ParamView::Ref(NameView::Entity(id)) => support_text(s, id, path, depth),
        ParamView::Ref(NameView::Value(id)) => Some("@"@ + decimal(id as nat)),
        ParamView::Ref(NameView::ConstantEntity(name)) => Some("#"@ + name),
        ParamView::Ref(NameView::ConstantValue(name)) => Some("@"@ + name),
        ParamView::Real(text) => if s.reals.contains_key(text) {
            Some("R"@ + signed_decimal(s.reals[text] as int))
        } else {
            None
        },
        ParamView::Integer(v) => Some("I"@ + signed_decimal(v as int)),
        ParamView::String(text) => Some("S"@ + quoted_text(text)),
        ParamView::Enumeration(word) => Some("."@ + word + "."@),
        ParamView::List(items) => match part_texts(s, items, path, deeper(depth), items.len()) {
            Some(parts) => Some("("@ + joined_texts(parts, ","@, parts.len()) + ")"@),
            None => None,
        },
        ParamView::Typed { keyword, parameter } => match part_text(
            s,
            *parameter,
            path,
            deeper(depth),
        ) {
            Some(part) => Some(keyword + "("@ + part + ")"@),
            None => None,
        },
        ParamView::NotProvided => Some("$"@),
        ParamView::Omitted => Some("*"@),
    }
}

/// What is seen of the first `n` items.
pub open spec fn part_texts(
    s: Sight,
    items: Seq<ParamView>,
    path: Seq<u64>,
    depth: u8,
    n: nat,
) -> Option<Seq<Seq<char>>>
    decreases levels_left(depth), 1nat, items, n,
{
    if n == 0 || n > items.len() {
        Some(Seq::empty())
    } else {
        match (
            part_texts(s, items, path, depth, (n - 1) as nat),
            part_text(s, items[n - 1], path, depth),
        ) {
            (Some(before), Some(text)) => Some(before.push(text)),
            _ => None,
        }
    }
}

/// What is seen of a flag.
pub open spec fn literal_text(s: Sight, p: ParamView) -> Option<Seq<char>> {
    match p {
        ParamView::Enumeration(word) => Some("."@ + word + "."@),
        ParamView::Integer(v) => Some(signed_decimal(v as int)),
        ParamView::Real(text) => if s.reals.contains_key(text) {
            Some(signed_decimal(s.reals[text] as int))
        } else {
            None
        },
        ParamView::Omitted => Some("*"@),
        ParamView::NotProvided => Some("$"@),
        _ => None,
    }
}

pub open spec fn flag_text(s: Sight, record: RecordView, n: int) -> Option<Seq<char>> {
    match nth(record, n) {
        Some(p) => literal_text(s, p),
        None => None,
    }
}

/// What is seen of the curve or the surface that a record refers to.
pub open spec fn carrier_text(s: Sight, record: RecordView, n: int) -> Option<Seq<char>> {
    match nth_ref(record, n) {
        Some(id) => support_text(s, id, Seq::empty(), 0),
        None => None,
    }
}

/// The point of a vertex.
pub open spec fn vertex_spot(entities: Seq<EntityView>, vertex: u64) -> Option<u64> {
    match typed_record(entities, vertex, "VERTEX_POINT"@) {
        None => None,
        Some(record) => match nth_ref(record, 1) {
            None => None,
            Some(point) => if typed_record(entities, point, "CARTESIAN_POINT"@) is Some {
                Some(point)
            } else {
                None
            },
        },
    }
}

/// Where the vertex that an edge refers to is seen.
pub open spec fn end_text(s: Sight, record: RecordView, n: int) -> Option<Seq<char>> {
    match nth_ref(record, n) {
        None => None,
        Some(vertex) => match vertex_spot(s.entities, vertex) {
            None => None,
            Some(point) => match spot_text(s, point) {
                Some(spot) => Some("P"@ + spot),
                None => None,
            },
        },
    }
}

/// What is seen of an edge that is walked in one direction.
pub open spec fn edge_text(s: Sight, oriented: u64) -> Option<Seq<char>> {
    match typed_record(s.entities, oriented, "ORIENTED_EDGE"@) {
        None => None,
        Some(record) => match (nth_ref(record, 3), flag_text(s, record, 4)) {
            (Some(edge), Some(orientation)) => match typed_record(
                s.entities,
                edge,
                "EDGE_CURVE"@,
            ) {
                None => None,
                Some(curve) => match (
                    end_text(s, curve, 1),
                    end_text(s, curve, 2),
                    carrier_text(s, curve, 3),
                    flag_text(s, curve, 4),
                ) {
                    (Some(first), Some(second), Some(carrier), Some(sense)) => Some(
                        walked_text(orientation, sense, first, second, carrier),
                    ),
                    _ => None,
                },
            },
            _ => None,
        },
    }
}

/// An edge that is walked backward is seen from its end.
pub open spec fn walked_text(
    orientation: Seq<char>,
    sense: Seq<char>,
    first: Seq<char>,
    second: Seq<char>,
    carrier: Seq<char>,
) -> Seq<char> {
    let back = orientation == ".F."@;
    "OE("@ + orientation + ";"@ + sense + ";"@ + (if back {
        second
    } else {
        first
    }) + "->"@ + (if back {
        first
    } else {
        second
    }) + ";"@ + carrier + ")"@
}

/// What is seen of the first `n` edges.
pub open spec fn edge_texts(s: Sight, edges: Seq<u64>, n: nat) -> Option<Seq<Seq<char>>>
    decreases n,
{
    if n == 0 {
        Some(Seq::empty())
    } else {
        match (edge_texts(s, edges, (n - 1) as nat), edge_text(s, edges[n - 1])) {
            (Some(before), Some(text)) => Some(before.push(text)),
            _ => None,
        }
    }
}

/// What is seen of a loop, wherever it starts.
pub open spec fn loop_text(s: Sight, id: u64) -> Option<Seq<char>> {
    match typed_record(s.entities, id, "EDGE_LOOP"@) {
        None => None,
        Some(record) => match nth_ref_list(record, 1) {
            None => None,
            Some(edges) => match edge_texts(s, edges, edges.len()) {
                None => None,
                Some(uses) => Some(
                    "LOOP["@ + joined_texts(first_start(uses), ">"@, first_start(uses).len())
                        + "]"@,
                ),
            },
        },
    }
}

/// What is seen of a bound of a face.
pub open spec fn bound_text(s: Sight, id: u64) -> Option<Seq<char>> {
    match record_at(s.entities, id) {
        None => None,
        Some(record) => if record.name == "FACE_OUTER_BOUND"@ || record.name == "FACE_BOUND"@ {
            match (nth_ref(record, 1), flag_text(s, record, 2)) {
                (Some(around), Some(orientation)) => match loop_text(s, around) {
                    Some(text) => Some(record.name + "("@ + orientation + ";"@ + text + ")"@),
                    None => None,
                },
                _ => None,
            }
        } else {
            None
        },
    }
}

/// What is seen of the first `n` bounds.
pub open spec fn bound_texts(s: Sight, bounds: Seq<u64>, n: nat) -> Option<Seq<Seq<char>>>
    decreases n,
{
    if n == 0 {
        Some(Seq::empty())
    } else {
        match (bound_texts(s, bounds, (n - 1) as nat), bound_text(s, bounds[n - 1])) {
            (Some(before), Some(text)) => Some(before.push(text)),
            _ => None,
        }
    }
}

/// What is seen of a face.
pub open spec fn face_text(s: Sight, id: u64) -> Option<Seq<char>> {
    match typed_record(s.entities, id, "ADVANCED_FACE"@) {
        None => None,
        Some(record) => match (
            nth_ref_list(record, 1),
            carrier_text(s, record, 2),
            flag_text(s, record, 3),
        ) {
            (Some(bounds), Some(carrier), Some(sense)) => match bound_texts(
                s,
                bounds,
                bounds.len(),
            ) {
                Some(texts) => Some(
                    "FACE("@ + sense + ";"@ + carrier + ";"@ + joined_texts(
                        sorted_texts(texts, texts.len()),
                        "&"@,
                        sorted_texts(texts, texts.len()).len(),
                    ) + ")"@,
                ),
                None => None,
            },
            _ => None,
        },
    }
}

/// What is seen of the first `n` faces.
pub open spec fn face_texts(s: Sight, faces: Seq<u64>, n: nat) -> Option<Seq<Seq<char>>>
    decreases n,
{
    if n == 0 {
        Some(Seq::empty())
    } else {
        match (face_texts(s, faces, (n - 1) as nat), face_text(s, faces[n - 1])) {
            (Some(before), Some(text)) => Some(before.push(text)),
            _ => None,
        }
    }
}

/// Faces in any order.
pub open spec fn gathered(texts: Seq<Seq<char>>) -> Seq<char> {
    let sorted = sorted_texts(texts, texts.len());
    "["@ + joined_texts(sorted, "|"@, sorted.len()) + "]"@
}

/// What is seen of faces that belong together.
pub open spec fn faces_text(s: Sight, faces: Seq<u64>) -> Option<Seq<char>> {
    match face_texts(s, faces, faces.len()) {
        Some(texts) => Some("F"@ + decimal(faces.len()) + gathered(texts)),
        None => None,
    }
}

/// What is seen of a solid.
pub open spec fn solid_text(s: Sight, solid: u64) -> Option<Seq<char>> {
    match typed_record(s.entities, solid, "MANIFOLD_SOLID_BREP"@) {
        None => None,
        Some(record) => match nth_ref(record, 1) {
            None => None,
            Some(shell) => match typed_record(s.entities, shell, "CLOSED_SHELL"@) {
                None => None,
                Some(shell_record) => match nth_ref_list(shell_record, 1) {
                    None => None,
                    Some(faces) => match face_texts(s, faces, faces.len()) {
                        Some(texts) => Some("SHELL"@ + gathered(texts)),
                        None => None,
                    },
                },
            },
        },
    }
}

/// One who looks at the entities of a section. Points are seen from a center, which the ticks
/// are counted from; the ticks of directions are those of their components.
pub struct Observer<'a> {
    pub entities: &'a Vec<EntityInstance>,
    pub index: &'a HashMap<u64, usize>,
    pub ticks: &'a HashMap<u64, [i64; 3]>,
    pub reals: &'a RealTicks,
    pub quarter: u8,
}

/// Whether an optional string is an optional text.
pub open spec fn is_text(out: Option<String>, text: Option<Seq<char>>) -> bool {
    match (out, text) {
        (Some(string), Some(chars)) => string@ == chars,
        (None, None) => true,
        _ => false,
    }
}

/// Whether optional strings are optional texts.
pub open spec fn are_texts(out: Option<Vec<String>>, texts: Option<Seq<Seq<char>>>) -> bool {
    match (out, texts) {
        (Some(strings), Some(chars)) => texts_view(strings@) == chars,
        (None, None) => true,
        _ => false,
    }
}

fn find_topology(name: &str) -> (out: bool)
    ensures
        out == is_topology(name@),
{
    same_text(name, "MANIFOLD_SOLID_BREP") || same_text(name, "CLOSED_SHELL") || same_text(
        name,
        "OPEN_SHELL",
    ) || same_text(name, "ADVANCED_FACE") || same_text(name, "FACE_SURFACE") || same_text(
        name,
        "FACE_OUTER_BOUND",
    ) || same_text(name, "FACE_BOUND") || same_text(name, "EDGE_LOOP") || same_text(
        name,
        "ORIENTED_EDGE",
    ) || same_text(name, "EDGE_CURVE") || same_text(name, "VERTEX_POINT")
}

fn find_deeper(depth: u8) -> (out: u8)
    ensures
        out == deeper(depth),
{
    if depth > MAX_DEPTH {
        depth
    } else {
        depth + 1
    }
}

fn push_place(out: &mut String, place: (i64, i64, i64))
    ensures
        final(out)@ == old(out)@ + place_text(place),
{
    out.append("(");
    push_signed(out, place.0);
    out.append(",");
    push_signed(out, place.1);
    out.append(",");
    push_signed(out, place.2);
    out.append(")");
    assert(out@ =~= old(out)@ + place_text(place));
}

fn push_part(list: &mut Vec<String>, text: String)
    ensures
        texts_view(final(list)@) == texts_view(old(list)@).push(text@),
{
    list.push(text);
    assert(texts_view(list@) =~= texts_view(old(list)@).push(text@));
}

/// Puts strings in order.
fn sort_strings(items: Vec<String>) -> (out: Vec<String>)
    ensures
        texts_view(out@) == sorted_texts(texts_view(items@), items@.len()),
{
    let ghost texts = texts_view(items@);
    let mut out: Vec<String> = Vec::new();
    let mut i: usize = 0;
    assert(texts_view(out@) =~= Seq::empty());
    while i < items.len()
        invariant
            i <= items.len(),
            texts == texts_view(items@),
            texts_view(out@) == sorted_texts(texts, i as nat),
        decreases items.len() - i,
    {
        assert(texts[i as int] == items@[i as int]@);
        put_text(&mut out, items[i].clone());
        i = i + 1;
    }
    out
}

impl<'a> Observer<'a> {
    pub open spec fn sight(&self) -> Sight {
        Sight {
            entities: entities_view(self.entities@),
            ticks: self.ticks@,
            reals: self.reals@,
            quarter: self.quarter,
        }
    }

    pub open spec fn wf(&self) -> bool {
        indexes(self.index@, entities_view(self.entities@))
    }

    fn spot(&self, kind: &str, id: u64) -> (out: Option<String>)
        ensures
            match spot_text(self.sight(), id) {
                Some(spot) => out matches Some(text) && text@ == kind@ + spot,
                None => out is None,
            },
    {
        match self.ticks.get(&id) {
            None => None,
            Some(place) => {
                let mut out = kind.to_owned();
                push_place(&mut out, turn(place, self.quarter));
                Some(out)
            },
        }
    }

    fn support(&self, id: u64, path: &mut Vec<u64>, depth: u8) -> (out: Option<String>)
        requires
            self.wf(),
        ensures
            is_text(out, support_text(self.sight(), id, old(path)@, depth)),
            out is Some ==> final(path)@ == old(path)@,
        decreases levels_left(depth), 0nat, Parameter::Omitted, 0nat,
    {
        if depth > MAX_DEPTH || list_contains(path, id) {
            return None;
        }
        let record = match find_record(self.entities, self.index, id) {
            Some(record) => record,
            None => {
                return None;
            },
        };
        let name = record.name.as_str();
        if same_text(name, "CARTESIAN_POINT") {
            return self.spot("POINT", id);
        }
        if same_text(name, "DIRECTION") {
            return self.spot("DIR", id);
        }
        if find_topology(name) {
            return None;
        }
        path.push(id);
        match self.part(&record.parameter, path, find_deeper(depth)) {
            None => None,
            Some(parts) => {
                path.pop();
                assert(path@ =~= old(path)@);
                let mut out = record.name.clone();
                out.append(parts.as_str());
                Some(out)
            },
        }
    }

    fn part(&self, param: &Parameter, path: &mut Vec<u64>, depth: u8) -> (out: Option<String>)
        requires
            self.wf(),
        ensures
            is_text(out, part_text(self.sight(), param@, old(path)@, depth)),
            out is Some ==> final(path)@ == old(path)@,
        decreases levels_left(depth), 1nat, param, 0nat,
    {
        match param {
            Parameter::Ref(Name::Entity(id)) => self.support(*id, path, depth),
            Parameter::Ref(Name::Value(id)) => {
                let mut out = "@".to_owned();
                push_decimal(&mut out, *id);
                Some(out)
            },
            Parameter::Ref(Name::ConstantEntity(name)) => {
                let mut out = "#".to_owned();
                out.append(name.as_str());
                Some(out)
            },
            Parameter::Ref(Name::ConstantValue(name)) => {
                let mut out = "@".to_owned();
                out.append(name.as_str());
                Some(out)
            },
            Parameter::Real(text) => match self.reals.get(text.as_str()) {
                None => None,
                Some(ticks) => {
                    let mut out = "R".to_owned();
                    push_signed(&mut out, ticks);
                    Some(out)
                },
            },
            Parameter::Integer(v) => {
                let mut out = "I".to_owned();
                push_signed(&mut out, *v);
                Some(out)
            },
            Parameter::String(text) => {
                let mut out = "S".to_owned();
                out.append(quote_text(text.as_str()).as_str());
                Some(out)
            },
            Parameter::Enumeration(word) => {
                let mut out = ".".to_owned();
                out.append(word.as_str());
                out.append(".");
                Some(out)
            },
            Parameter::List(items) => {
                proof {
                    lemma_list_view(*items);
                }
                assert(decreases_to!(param => items@));
                match self.parts(items, path, find_deeper(depth)) {
                    None => None,
                    Some(parts) => {
                        let mut out = "(".to_owned();
                        push_joined(&mut out, &parts, ",");
                        out.append(")");
                        Some(out)
                    },
                }
            },
            Parameter::Typed { keyword, parameter } => match self.part(
                &**parameter,
                path,
                find_deeper(depth),
            ) {
                None => None,
                Some(part) => {
                    let mut out = keyword.clone();
                    out.append("(");
                    out.append(part.as_str());
                    out.append(")");
                    Some(out)
                },
            },
            Parameter::NotProvided => Some("$".to_owned()),
            Parameter::Omitted => Some("*".to_owned()),
        }
    }

    fn parts(&self, items: &Vec<Parameter>, path: &mut Vec<u64>, depth: u8) -> (out: Option<
        Vec<String>,
    >)
        requires
            self.wf(),
        ensures
            are_texts(
                out,
                part_texts(
                    self.sight(),
                    params_view(items@),
                    old(path)@,
                    depth,
                    items@.len(),
                ),
            ),
            out is Some ==> final(path)@ == old(path)@,
        decreases levels_left(depth), 1nat, items@, 1nat,
    {
        let ghost views = params_view(items@);
        let ghost start = path@;
        let mut out: Vec<String> = Vec::new();
        let mut i: usize = 0;
        assert(texts_view(out@) =~= Seq::empty());
        while i < items.len()
            invariant
                i <= items.len(),
                self.wf(),
                views == params_view(items@),
                views.len() == items@.len(),
                start == old(path)@,
                path@ == start,
                part_texts(self.sight(), views, start, depth, i as nat) == Some(texts_view(out@)),
            decreases items.len() - i,
        {
            assert(views[i as int] == items@[i as int]@);
            match self.part(&items[i], path, depth) {
                None => {
                    proof {
                        lemma_no_parts(self.sight(), views, start, depth, i as nat, views.len());
                    }
                    return None;
                },
                Some(text) => {
                    push_part(&mut out, text);
                },
            }
            i = i + 1;
        }
        Some(out)
    }

    fn flag(&self, record: &Record, n: usize) -> (out: Option<String>)
        ensures
            is_text(out, flag_text(self.sight(), record@, n as int)),
    {
        match nth_param(record, n) {
            None => None,
            Some(param) => match param {
                Parameter::Enumeration(word) => {
                    let mut out = ".".to_owned();
                    out.append(word.as_str());
                    out.append(".");
                    Some(out)
                },
                Parameter::Integer(v) => {
                    let mut out = String::new();
                    push_signed(&mut out, *v);
                    assert(out@ =~= signed_decimal(*v as int));
                    Some(out)
                },
                Parameter::Real(text) => match self.reals.get(text.as_str()) {
                    None => None,
                    Some(ticks) => {
                        let mut out = String::new();
                        push_signed(&mut out, ticks);
                        assert(out@ =~= signed_decimal(ticks as int));
                        Some(out)
                    },
                },
                Parameter::Omitted => Some("*".to_owned()),
                Parameter::NotProvided => Some("$".to_owned()),
                _ => None,
            },
        }
    }

    fn carrier(&self, record: &Record, n: usize) -> (out: Option<String>)
        requires
            self.wf(),
        ensures
            is_text(out, carrier_text(self.sight(), record@, n as int)),
    {
        match nth_entity_ref(record, n) {
            None => None,
            Some(id) => {
                let mut path: Vec<u64> = Vec::new();
                self.support(id, &mut path, 0)
            },
        }
    }

    fn end(&self, record: &Record, n: usize) -> (out: Option<String>)
        requires
            self.wf(),
        ensures
            is_text(out, end_text(self.sight(), record@, n as int)),
    {
        match nth_entity_ref(record, n) {
            None => None,
            Some(vertex) => match find_vertex_spot(self.entities, self.index, vertex) {
                None => None,
                Some(point) => self.spot("P", point),
            },
        }
    }

    fn edge(&self, oriented: u64) -> (out: Option<String>)
        requires
            self.wf(),
        ensures
            is_text(out, edge_text(self.sight(), oriented)),
    {
        let record = match find_typed(self.entities, self.index, oriented, "ORIENTED_EDGE") {
            Some(record) => record,
            None => {
                return None;
            },
        };
        match (nth_entity_ref(record, 3), self.flag(record, 4)) {
            (Some(edge), Some(orientation)) => {
                let curve = match find_typed(self.entities, self.index, edge, "EDGE_CURVE") {
                    Some(curve) => curve,
                    None => {
                        return None;
                    },
                };
                match (
                    self.end(curve, 1),
                    self.end(curve, 2),
                    self.carrier(curve, 3),
                    self.flag(curve, 4),
                ) {
                    (Some(first), Some(second), Some(carrier), Some(sense)) => {
                        let back = same_text(orientation.as_str(), ".F.");
                        let mut out = "OE(".to_owned();
                        out.append(orientation.as_str());
                        out.append(";");
                        out.append(sense.as_str());
                        out.append(";");
                        if back {
                            out.append(second.as_str());
                            out.append("->");
                            out.append(first.as_str());
                        } else {
                            out.append(first.as_str());
                            out.append("->");
                            out.append(second.as_str());
                        }
                        out.append(";");
                        out.append(carrier.as_str());
                        out.append(")");
                        Some(out)
                    },
                    _ => None,
                }
            },
            _ => None,
        }
    }

    fn edges(&self, edges: &Vec<u64>) -> (out: Option<Vec<String>>)
        requires
            self.wf(),
        ensures
            are_texts(out, edge_texts(self.sight(), edges@, edges@.len())),
    {
        let mut out: Vec<String> = Vec::new();
        let mut i: usize = 0;
        assert(texts_view(out@) =~= Seq::empty());
        while i < edges.len()
            invariant
                i <= edges.len(),
                self.wf(),
                edge_texts(self.sight(), edges@, i as nat) == Some(texts_view(out@)),
            decreases edges.len() - i,
        {
            match self.edge(edges[i]) {
                None => {
                    proof {
                        lemma_no_edges(self.sight(), edges@, i as nat, edges@.len());
                    }
                    return None;
                },
                Some(text) => {
                    push_part(&mut out, text);
                },
            }
            i = i + 1;
        }
        Some(out)
    }

    fn around(&self, id: u64) -> (out: Option<String>)
        requires
            self.wf(),
        ensures
            is_text(out, loop_text(self.sight(), id)),
    {
        match find_typed(self.entities, self.index, id, "EDGE_LOOP") {
            None => None,
            Some(record) => match nth_entity_ref_list(record, 1) {
                None => None,
                Some(edges) => match self.edges(&edges) {
                    None => None,
                    Some(uses) => {
                        let cycle = canonical_cycle(&uses);
                        proof {
                            lemma_first_start(texts_view(uses@), texts_view(cycle@));
                        }
                        let mut out = "LOOP[".to_owned();
                        push_joined(&mut out, &cycle, ">");
                        out.append("]");
                        Some(out)
                    },
                },
            },
        }
    }

    fn bound(&self, id: u64) -> (out: Option<String>)
        requires
            self.wf(),
        ensures
            is_text(out, bound_text(self.sight(), id)),
    {
        let record = match find_record(self.entities, self.index, id) {
            Some(record) => record,
            None => {
                return None;
            },
        };
        if !same_text(record.name.as_str(), "FACE_OUTER_BOUND") && !same_text(
            record.name.as_str(),
            "FACE_BOUND",
        ) {
            return None;
        }
        match (nth_entity_ref(record, 1), self.flag(record, 2)) {
            (Some(around), Some(orientation)) => match self.around(around) {
                None => None,
                Some(text) => {
                    let mut out = record.name.clone();
                    out.append("(");
                    out.append(orientation.as_str());
                    out.append(";");
                    out.append(text.as_str());
                    out.append(")");
                    Some(out)
                },
            },
            _ => None,
        }
    }

    fn bounds(&self, bounds: &Vec<u64>) -> (out: Option<Vec<String>>)
        requires
            self.wf(),
        ensures
            are_texts(out, bound_texts(self.sight(), bounds@, bounds@.len())),
    {
        let mut out: Vec<String> = Vec::new();
        let mut i: usize = 0;
        assert(texts_view(out@) =~= Seq::empty());
        while i < bounds.len()
            invariant
                i <= bounds.len(),
                self.wf(),
                bound_texts(self.sight(), bounds@, i as nat) == Some(texts_view(out@)),
            decreases bounds.len() - i,
        {
            match self.bound(bounds[i]) {
                None => {
                    proof {
                        lemma_no_bounds(self.sight(), bounds@, i as nat, bounds@.len());
                    }
                    return None;
                },
                Some(text) => {
                    push_part(&mut out, text);
                },
            }
            i = i + 1;
        }
        Some(out)
    }

    fn face(&self, id: u64) -> (out: Option<String>)
        requires
            self.wf(),
        ensures
            is_text(out, face_text(self.sight(), id)),
    {
        let record = match find_typed(self.entities, self.index, id, "ADVANCED_FACE") {
            Some(record) => record,
            None => {
                return None;
            },
        };
        match (nth_entity_ref_list(record, 1), self.carrier(record, 2), self.flag(record, 3)) {
            (Some(bounds), Some(carrier), Some(sense)) => match self.bounds(&bounds) {
                None => None,
                Some(texts) => {
                    let sorted = sort_strings(texts);
                    assert(texts_view(sorted@).len() == sorted@.len());
                    let mut out = "FACE(".to_owned();
                    out.append(sense.as_str());
                    out.append(";");
                    out.append(carrier.as_str());
                    out.append(";");
                    push_joined(&mut out, &sorted, "&");
                    out.append(")");
                    Some(out)
                },
            },
            _ => None,
        }
    }

    fn faces(&self, faces: &Vec<u64>) -> (out: Option<Vec<String>>)
        requires
            self.wf(),
        ensures
            are_texts(out, face_texts(self.sight(), faces@, faces@.len())),
    {
        let mut out: Vec<String> = Vec::new();
        let mut i: usize = 0;
        assert(texts_view(out@) =~= Seq::empty());
        while i < faces.len()
            invariant
                i <= faces.len(),
                self.wf(),
                face_texts(self.sight(), faces@, i as nat) == Some(texts_view(out@)),
            decreases faces.len() - i,
        {
            match self.face(faces[i]) {
                None => {
                    proof {
                        lemma_no_faces(self.sight(), faces@, i as nat, faces@.len());
                    }
                    return None;
                },
                Some(text) => {
                    push_part(&mut out, text);
                },
            }
            i = i + 1;
        }
        Some(out)
    }

    /// What is seen of a face.
    pub fn face_signature(&self, face: u64) -> (out: Option<String>)
        requires
            self.wf(),
        ensures
            is_text(out, face_text(self.sight(), face)),
    {
        self.face(face)
    }

    /// What is seen of faces that belong together.
    pub fn faces_signature(&self, faces: &Vec<u64>) -> (out: Option<String>)
        requires
            self.wf(),
        ensures
            is_text(out, faces_text(self.sight(), faces@)),
    {
        match self.faces(faces) {
            None => None,
            Some(texts) => {
                let mut out = "F".to_owned();
                push_decimal(&mut out, faces.len() as u64);
                push_gathered(&mut out, texts);
                Some(out)
            },
        }
    }

    /// What is seen of a solid.
    pub fn solid_signature(&self, solid: u64) -> (out: Option<String>)
        requires
            self.wf(),
        ensures
            is_text(out, solid_text(self.sight(), solid)),
    {
        match find_typed(self.entities, self.index, solid, "MANIFOLD_SOLID_BREP") {
            None => None,
            Some(record) => match nth_entity_ref(record, 1) {
                None => None,
                Some(shell) => match find_typed(self.entities, self.index, shell, "CLOSED_SHELL") {
                    None => None,
                    Some(shell_record) => match nth_entity_ref_list(shell_record, 1) {
                        None => None,
                        Some(faces) => match self.faces(&faces) {
                            None => None,
                            Some(texts) => {
                                let mut out = "SHELL".to_owned();
                                push_gathered(&mut out, texts);
                                Some(out)
                            },
                        },
                    },
                },
            },
        }
    }
}

fn push_gathered(out: &mut String, texts: Vec<String>)
    ensures
        final(out)@ == old(out)@ + gathered(texts_view(texts@)),
{
    let sorted = sort_strings(texts);
    assert(texts_view(sorted@).len() == sorted@.len());
    out.append("[");
    push_joined(out, &sorted, "|");
    out.append("]");
    assert(out@ =~= old(out)@ + gathered(texts_view(texts@)));
}

/// The point of a vertex.
pub fn find_vertex_spot(
    entities: &Vec<EntityInstance>,
    index: &HashMap<u64, usize>,
    vertex: u64,
) -> (out: Option<u64>)
    requires
        indexes(index@, entities_view(entities@)),
    ensures
        out == vertex_spot(entities_view(entities@), vertex),
{
    match find_typed(entities, index, vertex, "VERTEX_POINT") {
        None => None,
        Some(record) => match nth_entity_ref(record, 1) {
            None => None,
            Some(point) => match find_typed(entities, index, point, "CARTESIAN_POINT") {
                Some(_) => Some(point),
                None => None,
            },
        },
    }
}

proof fn lemma_no_parts(
    s: Sight,
    items: Seq<ParamView>,
    path: Seq<u64>,
    depth: u8,
    i: nat,
    n: nat,
)
    requires
        i < n <= items.len(),
        part_text(s, items[i as int], path, depth) is None,
    ensures
        part_texts(s, items, path, depth, n) is None,
    decreases n,
{
    if n > i + 1 {
        lemma_no_parts(s, items, path, depth, i, (n - 1) as nat);
    }
}

proof fn lemma_no_edges(s: Sight, edges: Seq<u64>, i: nat, n: nat)
    requires
        i < n <= edges.len(),
        edge_text(s, edges[i as int]) is None,
    ensures
        edge_texts(s, edges, n) is None,
    decreases n,
{
    if n > i + 1 {
        lemma_no_edges(s, edges, i, (n - 1) as nat);
    }
}

proof fn lemma_no_bounds(s: Sight, bounds: Seq<u64>, i: nat, n: nat)
    requires
        i < n <= bounds.len(),
        bound_text(s, bounds[i as int]) is None,
    ensures
        bound_texts(s, bounds, n) is None,
    decreases n,
{
    if n > i + 1 {
        lemma_no_bounds(s, bounds, i, (n - 1) as nat);
    }
}

proof fn lemma_no_faces(s: Sight, faces: Seq<u64>, i: nat, n: nat)
    requires
        i < n <= faces.len(),
        face_text(s, faces[i as int]) is None,
    ensures
        face_texts(s, faces, n) is None,
    decreases n,
{
    if n > i + 1 {
        lemma_no_faces(s, faces, i, (n - 1) as nat);
    }
}

} // verus!
