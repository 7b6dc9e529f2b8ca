//! The faces of a body, and copies of parts of it.

use std::collections::HashMap;
use vstd::prelude::*;

use crate::ast::{
    clone_entities, entities_view, entity_id, lemma_list_view, params_view, EntityInstance,
    EntityView, ParamView, Parameter, Record,
};
use crate::face_coalesce::{append_ids, lemma_position_updated};
use crate::graph::{
    build_index, find_record, find_typed, indexes, largest_id, max_id, nth_entity_ref,
    nth_entity_ref_list, nth_ref, nth_ref_list, position, record_at, replace_entity, simple_entity,
    typed_record,
};
use crate::text::same_text;

verus! {

broadcast use vstd::std_specs::hash::group_hash_axioms;

/// Why a periodic body cannot be resized.
#[derive(Debug, Clone, Copy, PartialEq, Eq, Structural)]
pub enum BodyError {
    /// Growing asks for more sites than there are.
    NotLarger,
    /// Shrinking asks for fewer sites than there are.
    NotSmaller,
    TooFewSites,
    UnevenFamilies,
    ZeroAxis,
    BadPitch,
    NoShell,
    /// A face, a bound, a loop, an edge or a vertex is missing or malformed.
    BadTopology,
    /// The fixed faces do not lie at both ends.
    NoCaps,
    /// A part to copy refers to an entity that is not there.
    MissingEntity,
    BadPoint,
    /// Nothing was measured of something that has no usable coordinates.
    NotMeasured,
    MissingCopy,
    NoVertex,
    AmbiguousVertex,
    /// The edges between two stretched faces are not one for each gap and two ends.
    BadGaps,
    /// The edges of a face are not closed loops.
    OpenBoundary,
    NoOuterLoop,
    NoLoop,
    ZeroArea,
    OutOfIds,
}

/// The edge of an oriented edge.
pub open spec fn edge_of(entities: Seq<EntityView>, oe: u64) -> Option<u64> {
    match typed_record(entities, oe, "ORIENTED_EDGE"@) {
        Some(record) => nth_ref(record, 3),
        None => None,
    }
}

pub open spec fn edges_of(entities: Seq<EntityView>, oes: Seq<u64>) -> Option<Seq<u64>>
    decreases oes.len(),
{
    if oes.len() == 0 {
        Some(Seq::empty())
    } else {
        match (edges_of(entities, oes.drop_last()), edge_of(entities, oes.last())) {
            (Some(edges), Some(edge)) => Some(edges.push(edge)),
            _ => None,
        }
    }
}

pub open spec fn is_bound_name(name: Seq<char>) -> bool {
    name == "FACE_BOUND"@ || name == "FACE_OUTER_BOUND"@
}

/// The edges of a bound.
pub open spec fn bound_edges(entities: Seq<EntityView>, bound: u64) -> Option<Seq<u64>> {
    match record_at(entities, bound) {
        Some(record) if is_bound_name(record.name) => match nth_ref(record, 1) {
            Some(id) => match typed_record(entities, id, "EDGE_LOOP"@) {
                Some(edge_loop) => match nth_ref_list(edge_loop, 1) {
                    Some(oes) => edges_of(entities, oes),
                    None => None,
                },
                None => None,
            },
            None => None,
        },
        _ => None,
    }
}

pub open spec fn all_bound_edges(entities: Seq<EntityView>, bounds: Seq<u64>) -> Option<Seq<u64>>
    decreases bounds.len(),
{
    if bounds.len() == 0 {
        Some(Seq::empty())
    } else {
        match (
            all_bound_edges(entities, bounds.drop_last()),
            bound_edges(entities, bounds.last()),
        ) {
            (Some(edges), Some(more)) => Some(edges + more),
            _ => None,
        }
    }
}

/// The bounds of a face.
pub open spec fn bounds_of(entities: Seq<EntityView>, face: u64) -> Option<Seq<u64>> {
    match typed_record(entities, face, "ADVANCED_FACE"@) {
        Some(record) => nth_ref_list(record, 1),
        None => None,
    }
}

/// The edges around a face, bound by bound.
pub open spec fn boundary(entities: Seq<EntityView>, face: u64) -> Option<Seq<u64>> {
    match bounds_of(entities, face) {
        Some(bounds) => all_bound_edges(entities, bounds),
        None => None,
    }
}

/// The vertices at the ends of an edge.
pub open spec fn ends(entities: Seq<EntityView>, edge: u64) -> Option<(u64, u64)> {
    match typed_record(entities, edge, "EDGE_CURVE"@) {
        Some(record) => match (nth_ref(record, 1), nth_ref(record, 2)) {
            (Some(a), Some(b)) => Some((a, b)),
            _ => None,
        },
        None => None,
    }
}

pub open spec fn all_ends(entities: Seq<EntityView>, edges: Seq<u64>) -> Option<Seq<u64>>
    decreases edges.len(),
{
    if edges.len() == 0 {
        Some(Seq::empty())
    } else {
        match (all_ends(entities, edges.drop_last()), ends(entities, edges.last())) {
            (Some(vertices), Some((a, b))) => Some(vertices.push(a).push(b)),
            _ => None,
        }
    }
}

/// The vertices of a face, once for each edge that ends there.
pub open spec fn corners(entities: Seq<EntityView>, face: u64) -> Option<Seq<u64>> {
    match boundary(entities, face) {
        Some(edges) => all_ends(entities, edges),
        None => None,
    }
}

/// Whether a face has an outer bound.
pub open spec fn has_outer(entities: Seq<EntityView>, bounds: Seq<u64>) -> bool {
    exists|i: int|
        0 <= i < bounds.len() && typed_record(
            entities,
            #[trigger] bounds[i],
            "FACE_OUTER_BOUND"@,
        ) is Some
}

proof fn lemma_edges_stop(entities: Seq<EntityView>, oes: Seq<u64>, n: int)
    requires
        0 <= n <= oes.len(),
        edges_of(entities, oes.take(n)) is None,
    ensures
        edges_of(entities, oes) is None,
    decreases oes.len(),
{
    if n == oes.len() {
        assert(oes.take(n) =~= oes);
    } else {
        assert(oes.drop_last().take(n) =~= oes.take(n));
        lemma_edges_stop(entities, oes.drop_last(), n);
    }
}

proof fn lemma_bound_edges_stop(entities: Seq<EntityView>, bounds: Seq<u64>, n: int)
    requires
        0 <= n <= bounds.len(),
        all_bound_edges(entities, bounds.take(n)) is None,
    ensures
        all_bound_edges(entities, bounds) is None,
    decreases bounds.len(),
{
    if n == bounds.len() {
        assert(bounds.take(n) =~= bounds);
    } else {
        assert(bounds.drop_last().take(n) =~= bounds.take(n));
        lemma_bound_edges_stop(entities, bounds.drop_last(), n);
    }
}

proof fn lemma_ends_stop(entities: Seq<EntityView>, edges: Seq<u64>, n: int)
    requires
        0 <= n <= edges.len(),
        all_ends(entities, edges.take(n)) is None,
    ensures
        all_ends(entities, edges) is None,
    decreases edges.len(),
{
    if n == edges.len() {
        assert(edges.take(n) =~= edges);
    } else {
        assert(edges.drop_last().take(n) =~= edges.take(n));
        lemma_ends_stop(entities, edges.drop_last(), n);
    }
}

fn find_edges(
    oes: &Vec<u64>,
    entities: &Vec<EntityInstance>,
    index: &HashMap<u64, usize>,
) -> (out: Option<Vec<u64>>)
    requires
        indexes(index@, entities_view(entities@)),
    ensures
        out is Some == edges_of(entities_view(entities@), oes@) is Some,
        out matches Some(edges) ==> edges_of(entities_view(entities@), oes@) == Some(edges@),
{
    let ghost views = entities_view(entities@);
    let mut edges: Vec<u64> = Vec::new();
    let mut i: usize = 0;
    while i < oes.len()
        invariant
            i <= oes.len(),
            views == entities_view(entities@),
            indexes(index@, views),
            edges_of(views, oes@.take(i as int)) == Some(edges@),
        decreases oes.len() - i,
    {
        assert(oes@.take(i + 1).drop_last() =~= oes@.take(i as int));
        assert(oes@.take(i + 1).last() == oes@[i as int]);
        let edge = match find_typed(entities, index, oes[i], "ORIENTED_EDGE") {
            Some(record) => nth_entity_ref(record, 3),
            None => None,
        };
        match edge {
            Some(edge) => {
                edges.push(edge);
            },
            None => {
                proof {
                    lemma_edges_stop(views, oes@, i + 1);
                }
                return None;
            },
        }
        i = i + 1;
    }
    assert(oes@.take(oes@.len() as int) =~= oes@);
    Some(edges)
}

fn find_bound_edges(
    bound: u64,
    entities: &Vec<EntityInstance>,
    index: &HashMap<u64, usize>,
) -> (out: Option<Vec<u64>>)
    requires
        indexes(index@, entities_view(entities@)),
    ensures
        out is Some == bound_edges(entities_view(entities@), bound) is Some,
        out matches Some(edges) ==> bound_edges(entities_view(entities@), bound) == Some(edges@),
{
    let record = match find_record(entities, index, bound) {
        Some(record) => record,
        None => {
            return None;
        },
    };
    if !same_text(record.name.as_str(), "FACE_BOUND") && !same_text(
        record.name.as_str(),
        "FACE_OUTER_BOUND",
    ) {
        return None;
    }
    let id: u64 = match nth_entity_ref(record, 1) {
        Some(id) => id,
        None => {
            return None;
        },
    };
    match find_typed(entities, index, id, "EDGE_LOOP") {
        Some(edge_loop) => match nth_entity_ref_list(edge_loop, 1) {
            Some(oes) => find_edges(&oes, entities, index),
            None => None,
        },
        None => None,
    }
}

/// The bounds of a face.
pub fn find_bounds(face: u64, entities: &Vec<EntityInstance>, index: &HashMap<u64, usize>) -> (out:
    Option<Vec<u64>>)
    requires
        indexes(index@, entities_view(entities@)),
    ensures
        out is Some == bounds_of(entities_view(entities@), face) is Some,
        out matches Some(bounds) ==> bounds_of(entities_view(entities@), face) == Some(bounds@),
{
    match find_typed(entities, index, face, "ADVANCED_FACE") {
        Some(record) => nth_entity_ref_list(record, 1),
        None => None,
    }
}

/// The edges around a face, bound by bound.
pub fn face_edges_ordered(
    face: u64,
    entities: &Vec<EntityInstance>,
    index: &HashMap<u64, usize>,
) -> (out: Option<Vec<u64>>)
    requires
        indexes(index@, entities_view(entities@)),
    ensures
        out is Some == boundary(entities_view(entities@), face) is Some,
        out matches Some(edges) ==> boundary(entities_view(entities@), face) == Some(edges@),
{
    let ghost views = entities_view(entities@);
    let bounds = match find_bounds(face, entities, index) {
        Some(bounds) => bounds,
        None => {
            return None;
        },
    };
    let mut edges: Vec<u64> = Vec::new();
    let mut i: usize = 0;
    while i < bounds.len()
        invariant
            i <= bounds.len(),
            views == entities_view(entities@),
            indexes(index@, views),
            bounds_of(views, face) == Some(bounds@),
            all_bound_edges(views, bounds@.take(i as int)) == Some(edges@),
        decreases bounds.len() - i,
    {
        assert(bounds@.take(i + 1).drop_last() =~= bounds@.take(i as int));
        assert(bounds@.take(i + 1).last() == bounds@[i as int]);
        match find_bound_edges(bounds[i], entities, index) {
            Some(more) => {
                append_ids(&mut edges, &more);
            },
            None => {
                proof {
                    lemma_bound_edges_stop(views, bounds@, i + 1);
                }
                return None;
            },
        }
        i = i + 1;
    }
    assert(bounds@.take(bounds@.len() as int) =~= bounds@);
    Some(edges)
}

/// The vertices at the ends of an edge.
pub fn edge_vertices(edge: u64, entities: &Vec<EntityInstance>, index: &HashMap<u64, usize>) -> (out:
    Option<(u64, u64)>)
    requires
        indexes(index@, entities_view(entities@)),
    ensures
        out == ends(entities_view(entities@), edge),
{
    match find_typed(entities, index, edge, "EDGE_CURVE") {
        Some(record) => match (nth_entity_ref(record, 1), nth_entity_ref(record, 2)) {
            (Some(a), Some(b)) => Some((a, b)),
            _ => None,
        },
        None => None,
    }
}

/// The vertices of edges, once for each edge that ends there.
pub(crate) fn find_all_ends(
    edges: &Vec<u64>,
    entities: &Vec<EntityInstance>,
    index: &HashMap<u64, usize>,
) -> (out: Option<Vec<u64>>)
    requires
        indexes(index@, entities_view(entities@)),
    ensures
        out is Some == all_ends(entities_view(entities@), edges@) is Some,
        out matches Some(vertices) ==> all_ends(entities_view(entities@), edges@) == Some(
            vertices@,
        ),
{
    let ghost views = entities_view(entities@);
    let mut vertices: Vec<u64> = Vec::new();
    let mut i: usize = 0;
    while i < edges.len()
        invariant
            i <= edges.len(),
            views == entities_view(entities@),
            indexes(index@, views),
            all_ends(views, edges@.take(i as int)) == Some(vertices@),
        decreases edges.len() - i,
    {
        assert(edges@.take(i + 1).drop_last() =~= edges@.take(i as int));
        assert(edges@.take(i + 1).last() == edges@[i as int]);
        match edge_vertices(edges[i], entities, index) {
            Some((a, b)) => {
                vertices.push(a);
                vertices.push(b);
            },
            None => {
                proof {
                    lemma_ends_stop(views, edges@, i + 1);
                }
                return None;
            },
        }
        i = i + 1;
    }
    assert(edges@.take(edges@.len() as int) =~= edges@);
    Some(vertices)
}

/// The vertices of a face, once for each edge that ends there.
pub fn face_vertices(face: u64, entities: &Vec<EntityInstance>, index: &HashMap<u64, usize>) -> (out:
    Option<Vec<u64>>)
    requires
        indexes(index@, entities_view(entities@)),
    ensures
        out is Some == corners(entities_view(entities@), face) is Some,
        out matches Some(vertices) ==> corners(entities_view(entities@), face) == Some(vertices@),
{
    match face_edges_ordered(face, entities, index) {
        Some(edges) => find_all_ends(&edges, entities, index),
        None => None,
    }
}

pub(crate) fn find_outer(
    bounds: &Vec<u64>,
    entities: &Vec<EntityInstance>,
    index: &HashMap<u64, usize>,
) -> (out: bool)
    requires
        indexes(index@, entities_view(entities@)),
    ensures
        out == has_outer(entities_view(entities@), bounds@),
{
    let mut i: usize = 0;
    while i < bounds.len()
        invariant
            i <= bounds.len(),
            indexes(index@, entities_view(entities@)),
            forall|k: int|
                0 <= k < i ==> typed_record(
                    entities_view(entities@),
                    #[trigger] bounds@[k],
                    "FACE_OUTER_BOUND"@,
                ) is None,
        decreases bounds.len() - i,
    {
        if find_typed(entities, index, bounds[i], "FACE_OUTER_BOUND").is_some() {
            assert(typed_record(
                entities_view(entities@),
                bounds@[i as int],
                "FACE_OUTER_BOUND"@,
            ) is Some);
            return true;
        }
        i = i + 1;
    }
    false
}

/// The id of the entity in a place behind the entities that there were at the start. Where no
/// ids are left it is zero.
pub open spec fn id_at(start: Seq<EntityView>, place: int) -> u64 {
    let id = max_id(start) + (place - start.len()) + 1;
    if id <= u64::MAX {
        id as u64
    } else {
        0
    }
}

/// The entities with one more.
pub open spec fn with_new(
    start: Seq<EntityView>,
    entities: Seq<EntityView>,
    name: Seq<char>,
    params: Seq<ParamView>,
) -> Seq<EntityView> {
    entities.push(simple_entity(id_at(start, entities.len() as int), name, params))
}

/// Entities under work, with what finds them by id.
pub struct Draft {
    pub entities: Vec<EntityInstance>,
    pub index: HashMap<u64, usize>,
    pub last: u64,
    pub base: usize,
}

impl View for Draft {
    type V = Seq<EntityView>;

    open spec fn view(&self) -> Seq<EntityView> {
        entities_view(self.entities@)
    }
}

impl Draft {
    /// The index fits, and nothing has left since the start.
    pub open spec fn wf(&self, start: Seq<EntityView>) -> bool {
        &&& indexes(self.index@, self@)
        &&& self.last == max_id(start)
        &&& self.base == start.len()
        &&& self.base <= self.entities@.len()
    }
}

/// A draft of entities.
pub(crate) fn draft_of(entities: &Vec<EntityInstance>) -> (out: Draft)
    ensures
        out.wf(entities_view(entities@)),
        out@ == entities_view(entities@),
{
    let copy = clone_entities(entities);
    let index = build_index(&copy);
    let last: u64 = largest_id(&copy);
    let base: usize = copy.len();
    Draft { entities: copy, index, last, base }
}

/// The id of the entity in a place of a draft.
pub(crate) fn id_in(draft: &Draft, place: usize, Ghost(start): Ghost<Seq<EntityView>>) -> (id: u64)
    requires
        draft.wf(start),
        place >= draft.base,
    ensures
        id == id_at(start, place as int),
{
    let id: u128 = draft.last as u128 + (place - draft.base) as u128 + 1;
    if id <= u64::MAX as u128 {
        id as u64
    } else {
        0
    }
}

/// Appends an entity.
pub(crate) fn push_entity(
    draft: &mut Draft,
    entity: EntityInstance,
    Ghost(start): Ghost<Seq<EntityView>>,
)
    requires
        old(draft).wf(start),
    ensures
        final(draft).wf(start),
        final(draft)@ == old(draft)@.push(entity@),
{
    let ghost before = draft@;
    let ghost view = entity@;
    let id: u64 = entity_id(&entity);
    let at: usize = draft.entities.len();
    draft.entities.push(entity);
    draft.index.insert(id, at);
    assert(draft@ =~= before.push(view));
    assert forall|k: u64| #[trigger]
        draft.index@.contains_key(k) == (position(draft@, k) is Some) && (
        draft.index@.contains_key(k) ==> draft.index@[k] == position(draft@, k)->Some_0) by {
        assert(draft@.drop_last() =~= before);
    }
}

/// Appends a simple entity, and gives its id.
pub(crate) fn push_record(
    draft: &mut Draft,
    name: &str,
    params: Vec<Parameter>,
    Ghost(start): Ghost<Seq<EntityView>>,
) -> (id: u64)
    requires
        old(draft).wf(start),
    ensures
        final(draft).wf(start),
        id == id_at(start, old(draft)@.len() as int),
        final(draft)@ == with_new(start, old(draft)@, name@, params_view(params@)),
{
    let id: u64 = id_in(draft, draft.entities.len(), Ghost(start));
    proof {
        lemma_list_view(params);
    }
    let entity = EntityInstance::Simple {
        id,
        record: Record { name: name.to_string(), parameter: Parameter::List(params) },
    };
    push_entity(draft, entity, Ghost(start));
    id
}

/// Puts an entity in the place of one with its id.
pub(crate) fn put_entity(
    draft: &mut Draft,
    at: usize,
    entity: EntityInstance,
    Ghost(start): Ghost<Seq<EntityView>>,
)
    requires
        old(draft).wf(start),
        at < old(draft)@.len(),
        entity@.id() == old(draft)@[at as int].id(),
    ensures
        final(draft).wf(start),
        final(draft)@ == old(draft)@.update(at as int, entity@),
{
    let ghost before = draft@;
    let ghost view = entity@;
    replace_entity(&mut draft.entities, at, entity);
    assert(draft@ =~= before.update(at as int, view));
    assert forall|k: u64| #[trigger]
        draft.index@.contains_key(k) == (position(draft@, k) is Some) && (
        draft.index@.contains_key(k) ==> draft.index@[k] == position(draft@, k)->Some_0) by {
        lemma_position_updated(before, at as int, view, k);
    }
}

} // verus!
