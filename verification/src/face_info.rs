//! Faces, their loops and their edges.

use std::collections::HashMap;
use vstd::prelude::*;

use crate::ast::{entities_view, EntityInstance, EntityView};
use crate::graph::{
    find_record, find_typed, indexes, nth_bool, nth_entity_ref, nth_entity_ref_list, nth_logical,
    nth_ref, nth_ref_list, record_at, typed_record,
};
use crate::text::same_text;

verus! {

broadcast use vstd::std_specs::hash::group_hash_axioms;

/// The surface types on which faces may be merged.
pub open spec fn surface_type(name: Seq<char>) -> bool {
    ||| name == "PLANE"@
    ||| name == "CYLINDRICAL_SURFACE"@
    ||| name == "TOROIDAL_SURFACE"@
    ||| name == "CONICAL_SURFACE"@
    ||| name == "SPHERICAL_SURFACE"@
    ||| name == "B_SPLINE_SURFACE_WITH_KNOTS"@
    ||| name == "SURFACE_OF_LINEAR_EXTRUSION"@
    ||| name == "SURFACE_OF_REVOLUTION"@
}

fn is_surface_type(name: &str) -> (out: bool)
    ensures
        out == surface_type(name@),
{
    same_text(name, "PLANE") || same_text(name, "CYLINDRICAL_SURFACE") || same_text(
        name,
        "TOROIDAL_SURFACE",
    ) || same_text(name, "CONICAL_SURFACE") || same_text(name, "SPHERICAL_SURFACE") || same_text(
        name,
        "B_SPLINE_SURFACE_WITH_KNOTS",
    ) || same_text(name, "SURFACE_OF_LINEAR_EXTRUSION") || same_text(name, "SURFACE_OF_REVOLUTION")
}

/// A face as it is merged: its surface, its sense and its oriented edges, each with its edge.
#[derive(Debug)]
pub struct FaceInfo {
    pub support: u64,
    pub sense: bool,
    pub oes: Vec<(u64, u64)>,
}

pub struct FaceView {
    pub support: u64,
    pub sense: bool,
    pub oes: Seq<(u64, u64)>,
}

impl View for FaceInfo {
    type V = FaceView;

    open spec fn view(&self) -> FaceView {
        FaceView { support: self.support, sense: self.sense, oes: self.oes@ }
    }
}

/// The edge of an oriented edge.
pub open spec fn edge_of(entities: Seq<EntityView>, oe: u64) -> Option<u64> {
    match typed_record(entities, oe, "ORIENTED_EDGE"@) {
        Some(record) => nth_ref(record, 3),
        None => None,
    }
}

/// Oriented edges with their edges; nothing where one has none.
pub open spec fn paired(entities: Seq<EntityView>, oes: Seq<u64>) -> Option<Seq<(u64, u64)>> {
    if forall|i: int| 0 <= i < oes.len() ==> edge_of(entities, #[trigger] oes[i]) is Some {
        Some(Seq::new(oes.len(), |i: int| (oes[i], edge_of(entities, oes[i])->Some_0)))
    } else {
        None
    }
}

/// The oriented edges of a bound with positive sense.
pub open spec fn bound_oes(entities: Seq<EntityView>, bound: u64) -> Option<Seq<(u64, u64)>> {
    match record_at(entities, bound) {
        Some(record) if (record.name == "FACE_BOUND"@ || record.name == "FACE_OUTER_BOUND"@)
            && nth_logical(record, 2) == Some(true) => match nth_ref(record, 1) {
            Some(loop_id) => match typed_record(entities, loop_id, "EDGE_LOOP"@) {
                Some(loop_record) => match nth_ref_list(loop_record, 1) {
                    Some(oes) => paired(entities, oes),
                    None => None,
                },
                None => None,
            },
            None => None,
        },
        _ => None,
    }
}

/// The oriented edges of bounds, one bound after the other.
pub open spec fn bounds_oes(entities: Seq<EntityView>, bounds: Seq<u64>) -> Option<
    Seq<(u64, u64)>,
>
    decreases bounds.len(),
{
    if bounds.len() == 0 {
        Some(Seq::empty())
    } else {
        match (bounds_oes(entities, bounds.drop_last()), bound_oes(entities, bounds.last())) {
            (Some(a), Some(b)) => Some(a + b),
            _ => None,
        }
    }
}

/// What is read of a face. A face with a bound of negative sense, or on another surface, is
/// not read.
pub open spec fn face_info(entities: Seq<EntityView>, face: u64) -> Option<FaceView> {
    match typed_record(entities, face, "ADVANCED_FACE"@) {
        Some(record) => match (
            nth_ref(record, 2),
            nth_logical(record, 3),
            nth_ref_list(record, 1),
        ) {
            (Some(support), Some(sense), Some(bounds)) => match (
                record_at(entities, support),
                bounds_oes(entities, bounds),
            ) {
                (Some(surface), Some(oes)) if surface_type(surface.name) => Some(
                    FaceView { support, sense, oes },
                ),
                _ => None,
            },
            _ => None,
        },
        None => None,
    }
}

pub proof fn lemma_bounds_prefix(entities: Seq<EntityView>, bounds: Seq<u64>, n: int)
    requires
        0 <= n <= bounds.len(),
        bounds_oes(entities, bounds.take(n)) is None,
    ensures
        bounds_oes(entities, bounds) is None,
    decreases bounds.len(),
{
    if n == bounds.len() {
        assert(bounds.take(n) =~= bounds);
    } else {
        assert(bounds.drop_last().take(n) =~= bounds.take(n));
        lemma_bounds_prefix(entities, bounds.drop_last(), n);
    }
}

/// The edge of an oriented edge.
pub fn oriented_edge_element(
    entities: &Vec<EntityInstance>,
    index: &HashMap<u64, usize>,
    oe: u64,
) -> (out: Option<u64>)
    requires
        indexes(index@, entities_view(entities@)),
    ensures
        out == edge_of(entities_view(entities@), oe),
{
    match find_typed(entities, index, oe, "ORIENTED_EDGE") {
        Some(record) => nth_entity_ref(record, 3),
        None => None,
    }
}

fn read_bound(
    entities: &Vec<EntityInstance>,
    index: &HashMap<u64, usize>,
    bound: u64,
) -> (out: Option<Vec<(u64, u64)>>)
    requires
        indexes(index@, entities_view(entities@)),
    ensures
        out is Some == bound_oes(entities_view(entities@), bound) is Some,
        out matches Some(oes) ==> bound_oes(entities_view(entities@), bound) == Some(oes@),
{
    let ghost views = entities_view(entities@);
    let record = match find_record(entities, index, bound) {
        Some(record) => record,
        None => {
            return None;
        },
    };
    if !same_text(record.name.as_str(), "FACE_BOUND") && !same_text(
        record.name.as_str(),
        "FACE_OUTER_BOUND",
    ) {
        return None;
    }
    match nth_bool(record, 2) {
        Some(sense) => {
            if !sense {
                return None;
            }
        },
        None => {
            return None;
        },
    }
    let loop_id: u64 = match nth_entity_ref(record, 1) {
        Some(id) => id,
        None => {
            return None;
        },
    };
    let loop_record = match find_typed(entities, index, loop_id, "EDGE_LOOP") {
        Some(record) => record,
        None => {
            return None;
        },
    };
    let oes = match nth_entity_ref_list(loop_record, 1) {
        Some(oes) => oes,
        None => {
            return None;
        },
    };
    let mut out: Vec<(u64, u64)> = Vec::new();
    let mut i: usize = 0;
    while i < oes.len()
        invariant
            i <= oes.len(),
            out.len() == i,
            views == entities_view(entities@),
            indexes(index@, views),
            bound_oes(views, bound) == paired(views, oes@),
            forall|j: int|
                0 <= j < i ==> edge_of(views, #[trigger] oes@[j]) == Some(out@[j].1) && out@[j].0
                    == oes@[j],
        decreases oes.len() - i,
    {
        match oriented_edge_element(entities, index, oes[i]) {
            Some(edge) => out.push((oes[i], edge)),
            None => {
                return None;
            },
        }
        i = i + 1;
    }
    assert(out@ =~= paired(views, oes@)->Some_0);
    Some(out)
}

/// Reads a face.
pub fn parse_face_info(
    face: u64,
    entities: &Vec<EntityInstance>,
    index: &HashMap<u64, usize>,
) -> (out: Option<FaceInfo>)
    requires
        indexes(index@, entities_view(entities@)),
    ensures
        out is Some == face_info(entities_view(entities@), face) is Some,
        out matches Some(info) ==> face_info(entities_view(entities@), face) == Some(info@),
{
    let ghost views = entities_view(entities@);
    let record = match find_typed(entities, index, face, "ADVANCED_FACE") {
        Some(record) => record,
        None => {
            return None;
        },
    };
    let support: u64 = match nth_entity_ref(record, 2) {
        Some(id) => id,
        None => {
            return None;
        },
    };
    match find_record(entities, index, support) {
        Some(surface) => {
            if !is_surface_type(surface.name.as_str()) {
                return None;
            }
        },
        None => {
            return None;
        },
    }
    let sense = match nth_bool(record, 3) {
        Some(sense) => sense,
        None => {
            return None;
        },
    };
    let bounds = match nth_entity_ref_list(record, 1) {
        Some(bounds) => bounds,
        None => {
            return None;
        },
    };
    let mut oes: Vec<(u64, u64)> = Vec::new();
    let mut i: usize = 0;
    assert(bounds@.take(0) =~= Seq::empty());
    while i < bounds.len()
        invariant
            i <= bounds.len(),
            views == entities_view(entities@),
            indexes(index@, views),
            bounds_oes(views, bounds@.take(i as int)) == Some(oes@),
            bounds_oes(views, bounds@) is None ==> face_info(views, face) is None,
        decreases bounds.len() - i,
    {
        assert(bounds@.take(i + 1).drop_last() =~= bounds@.take(i as int));
        assert(bounds@.take(i + 1).last() == bounds@[i as int]);
        match read_bound(entities, index, bounds[i]) {
            Some(more) => {
                let ghost before = oes@;
                let mut k: usize = 0;
                assert(before + more@.take(0) =~= before);
                while k < more.len()
                    invariant
                        k <= more.len(),
                        oes@ == before + more@.take(k as int),
                    decreases more.len() - k,
                {
                    oes.push(more[k]);
                    k = k + 1;
                    assert(before + more@.take(k as int) =~= (before + more@.take(k - 1)).push(
                        more@[k - 1],
                    ));
                }
                assert(more@.take(more@.len() as int) =~= more@);
            },
            None => {
                proof {
                    lemma_bounds_prefix(views, bounds@, i + 1);
                }
                return None;
            },
        }
        i = i + 1;
    }
    assert(bounds@.take(bounds@.len() as int) =~= bounds@);
    Some(FaceInfo { support, sense, oes })
}

/// The vertices of an edge, from its start to its end.
pub open spec fn edge_vertices_of(entities: Seq<EntityView>, edge: u64) -> Option<(u64, u64)> {
    match typed_record(entities, edge, "EDGE_CURVE"@) {
        Some(record) => match (nth_ref(record, 1), nth_ref(record, 2)) {
            (Some(a), Some(b)) => Some((a, b)),
            _ => None,
        },
        None => None,
    }
}

/// The vertices of an oriented edge in its direction.
pub open spec fn oriented_ends(entities: Seq<EntityView>, oe: u64, edge: u64) -> Option<(u64, u64)> {
    match (edge_vertices_of(entities, edge), record_at(entities, oe)) {
        (Some((a, b)), Some(record)) => match nth_logical(record, 4) {
            Some(true) => Some((a, b)),
            Some(false) => Some((b, a)),
            None => None,
        },
        _ => None,
    }
}

/// The vertices of an edge.
pub fn edge_vertices(
    edge: u64,
    entities: &Vec<EntityInstance>,
    index: &HashMap<u64, usize>,
) -> (out: Option<(u64, u64)>)
    requires
        indexes(index@, entities_view(entities@)),
    ensures
        out == edge_vertices_of(entities_view(entities@), edge),
{
    match find_typed(entities, index, edge, "EDGE_CURVE") {
        Some(record) => match (nth_entity_ref(record, 1), nth_entity_ref(record, 2)) {
            (Some(a), Some(b)) => Some((a, b)),
            _ => None,
        },
        None => None,
    }
}

/// The vertices of an oriented edge in its direction.
pub fn oriented_vertices(
    oe: u64,
    edge: u64,
    entities: &Vec<EntityInstance>,
    index: &HashMap<u64, usize>,
) -> (out: Option<(u64, u64)>)
    requires
        indexes(index@, entities_view(entities@)),
    ensures
        out == oriented_ends(entities_view(entities@), oe, edge),
{
    match (edge_vertices(edge, entities, index), find_record(entities, index, oe)) {
        (Some((a, b)), Some(record)) => match nth_bool(record, 4) {
            Some(forward) => if forward {
                Some((a, b))
            } else {
                Some((b, a))
            },
            None => None,
        },
        _ => None,
    }
}

} // verus!
