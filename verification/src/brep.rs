//! Reading and changing of boundary representations.

use std::collections::{HashMap, HashSet};
use vstd::prelude::*;

use crate::ast::{
    clone_params, entities_view, lemma_list_view, params_view, EntityInstance, EntityView,
    ParamView, Parameter, Record,
};
use crate::face_coalesce::{append_ids, kept_refs, ref_param, ref_params};
use crate::face_plan::same_ids;
use crate::graph::{
    entity_ref, entity_ref_value, find_record, find_typed, indexes, nth, nth_bool, nth_entity_ref,
    nth_entity_ref_list, nth_logical, nth_param, nth_ref, nth_ref_list, record_at, simple_entity,
    simple_record, typed_record,
};
use crate::number::is_number;
use crate::sets::{ascending, lemma_ascending_determined, sorted_ids, sorted_of, sorted_set};
use crate::text::same_text;

verus! {

/// The other logical value. What is none stays.
pub open spec fn toggled(value: Seq<char>) -> Seq<char> {
    if value == "T"@ {
        "F"@
    } else if value == "F"@ {
        "T"@
    } else {
        value
    }
}

/// The other logical value. What is none stays.
pub fn toggle_tf(value: &str) -> (out: String)
    ensures
        out@ == toggled(value@),
{
    if same_text(value, "T") {
        "F".to_string()
    } else if same_text(value, "F") {
        "T".to_string()
    } else {
        value.to_string()
    }
}

/// The other of the other value is the value itself.
pub proof fn law_toggle_twice(value: Seq<char>)
    ensures
        toggled(toggled(value)) == value,
{
    reveal_strlit("T");
    reveal_strlit("F");
    assert("T"@[0] != "F"@[0]);
}

/// Whether a point has three coordinates.
pub open spec fn has_coordinates(entities: Seq<EntityView>, point: u64) -> bool {
    &&& typed_record(entities, point, "CARTESIAN_POINT"@) matches Some(record)
    &&& nth(record, 1) matches Some(ParamView::List(numbers))
    &&& numbers.len() == 3
    &&& is_number(numbers[0]) && is_number(numbers[1]) && is_number(numbers[2])
}

/// Whether a vertex stands at a point with three coordinates.
pub open spec fn stands_somewhere(entities: Seq<EntityView>, vertex: u64) -> bool {
    &&& typed_record(entities, vertex, "VERTEX_POINT"@) matches Some(record)
    &&& nth_ref(record, 1) matches Some(point)
    &&& has_coordinates(entities, point)
}

/// How a loop uses an edge: from which vertex to which, and whether along the curve.
#[derive(Debug, Clone, Copy, PartialEq, Eq, Structural)]
pub struct EdgeUse {
    pub oriented_edge_id: u64,
    pub edge_id: u64,
    pub curve_id: u64,
    pub curve_same_sense: bool,
    pub parameter_forward: bool,
    pub start_vertex: u64,
    pub end_vertex: u64,
}

/// How an oriented edge that is complete uses its edge.
pub open spec fn edge_use(entities: Seq<EntityView>, oe: u64) -> Option<EdgeUse> {
    match typed_record(entities, oe, "ORIENTED_EDGE"@) {
        None => None,
        Some(record) => match (nth_ref(record, 3), nth_logical(record, 4)) {
            (Some(edge), Some(forward)) => match typed_record(entities, edge, "EDGE_CURVE"@) {
                None => None,
                Some(curve) => match (
                    nth_ref(curve, 1),
                    nth_ref(curve, 2),
                    nth_ref(curve, 3),
                    nth_logical(curve, 4),
                ) {
                    (Some(a), Some(b), Some(curve_id), Some(same)) => if stands_somewhere(
                        entities,
                        a,
                    ) && stands_somewhere(entities, b) {
                        Some(
                            EdgeUse {
                                oriented_edge_id: oe,
                                edge_id: edge,
                                curve_id,
                                curve_same_sense: same,
                                parameter_forward: forward == same,
                                start_vertex: if forward {
                                    a
                                } else {
                                    b
                                },
                                end_vertex: if forward {
                                    b
                                } else {
                                    a
                                },
                            },
                        )
                    } else {
                        None
                    },
                    _ => None,
                },
            },
            _ => None,
        },
    }
}

/// How oriented edges use their edges, where all of them are complete.
pub open spec fn edge_uses(entities: Seq<EntityView>, oes: Seq<u64>) -> Option<Seq<EdgeUse>> {
    if forall|i: int| 0 <= i < oes.len() ==> edge_use(entities, #[trigger] oes[i]) is Some {
        Some(Seq::new(oes.len(), |i: int| edge_use(entities, oes[i])->Some_0))
    } else {
        None
    }
}

/// A loop of a face: the bound, whether it is the outer one, its orientation, and the edges in
/// the order in which they are used.
#[derive(Debug)]
pub struct FaceLoop {
    pub bound_id: u64,
    pub loop_id: u64,
    pub outer: bool,
    pub orientation: bool,
    pub edges: Vec<EdgeUse>,
}

#[verifier::ext_equal]
pub struct LoopView {
    pub bound_id: u64,
    pub loop_id: u64,
    pub outer: bool,
    pub orientation: bool,
    pub edges: Seq<EdgeUse>,
}

impl View for FaceLoop {
    type V = LoopView;

    open spec fn view(&self) -> LoopView {
        LoopView {
            bound_id: self.bound_id,
            loop_id: self.loop_id,
            outer: self.outer,
            orientation: self.orientation,
            edges: self.edges@,
        }
    }
}

/// The loop of a bound.
pub open spec fn loop_of(entities: Seq<EntityView>, bound: u64) -> Option<LoopView> {
    match record_at(entities, bound) {
        Some(record) if record.name == "FACE_OUTER_BOUND"@ || record.name == "FACE_BOUND"@ => match (
            nth_ref(record, 1),
            nth_logical(record, 2),
        ) {
            (Some(loop_id), Some(orientation)) => match typed_record(
                entities,
                loop_id,
                "EDGE_LOOP"@,
            ) {
                None => None,
                Some(loop_record) => match nth_ref_list(loop_record, 1) {
                    None => None,
                    Some(oes) => match edge_uses(entities, oes) {
                        Some(edges) => Some(
                            LoopView {
                                bound_id: bound,
                                loop_id,
                                outer: record.name == "FACE_OUTER_BOUND"@,
                                orientation,
                                edges,
                            },
                        ),
                        None => None,
                    },
                },
            },
            _ => None,
        },
        _ => None,
    }
}

/// The edges that are used.
pub open spec fn edges_used(uses: Seq<EdgeUse>) -> Seq<u64> {
    Seq::new(uses.len(), |i: int| uses[i].edge_id)
}

/// The loop of a bound, its edges, and the orientation of the bound.
pub open spec fn bound_loop(entities: Seq<EntityView>, bound: u64) -> Option<(u64, Seq<u64>, bool)> {
    match loop_of(entities, bound) {
        Some(found) => Some((found.loop_id, edges_used(found.edges), found.orientation)),
        None => None,
    }
}

/// The loops of bounds, where all of them are complete.
pub open spec fn loops_of(entities: Seq<EntityView>, bounds: Seq<u64>) -> Option<Seq<LoopView>> {
    if forall|i: int| 0 <= i < bounds.len() ==> loop_of(entities, #[trigger] bounds[i]) is Some {
        Some(Seq::new(bounds.len(), |i: int| loop_of(entities, bounds[i])->Some_0))
    } else {
        None
    }
}

/// The loops of a face.
pub open spec fn loops_around(entities: Seq<EntityView>, face: u64) -> Option<Seq<LoopView>> {
    match record_at(entities, face) {
        Some(record) if record.name == "ADVANCED_FACE"@ || record.name == "FACE_SURFACE"@ => match nth_ref_list(
            record,
            1,
        ) {
            Some(bounds) => loops_of(entities, bounds),
            None => None,
        },
        _ => None,
    }
}

/// The shell of a solid.
pub open spec fn shell_of(entities: Seq<EntityView>, solid: u64) -> Option<u64> {
    match typed_record(entities, solid, "MANIFOLD_SOLID_BREP"@) {
        Some(record) => nth_ref(record, 1),
        None => None,
    }
}

/// The faces that the shell of a solid lists.
pub open spec fn shell_faces(entities: Seq<EntityView>, solid: u64) -> Option<Seq<u64>> {
    match shell_of(entities, solid) {
        Some(shell) => listed_in(entities, shell, 1),
        None => None,
    }
}

/// The sense of a face.
pub open spec fn sense_of(entities: Seq<EntityView>, face: u64) -> Option<Seq<char>> {
    match record_at(entities, face) {
        Some(record) => match nth(record, 3) {
            Some(ParamView::Enumeration(value)) => Some(value),
            _ => None,
        },
        None => None,
    }
}

/// The inner bounds among the first `n` whose edges are those of a set. A bound that is no
/// simple entity stops the search.
pub open spec fn bounds_on(
    entities: Seq<EntityView>,
    bounds: Seq<u64>,
    edges: Set<u64>,
    n: nat,
) -> Option<Seq<u64>>
    decreases n,
{
    if n == 0 {
        Some(Seq::empty())
    } else {
        match (
            bounds_on(entities, bounds, edges, (n - 1) as nat),
            record_at(entities, bounds[n - 1]),
        ) {
            (Some(before), Some(record)) => if record.name == "FACE_BOUND"@ && (bound_loop(
                entities,
                bounds[n - 1],
            ) matches Some(found) && found.1.to_set() == edges) {
                Some(before.push(bounds[n - 1]))
            } else {
                Some(before)
            },
            _ => None,
        }
    }
}

/// The only inner bound of a face whose edges are those of a set.
pub open spec fn bound_on(entities: Seq<EntityView>, face: u64, edges: Set<u64>) -> Option<u64> {
    match listed_in(entities, face, 1) {
        None => None,
        Some(bounds) => match bounds_on(entities, bounds, edges, bounds.len()) {
            Some(found) if found.len() == 1 => Some(found[0]),
            _ => None,
        },
    }
}

pub open spec fn bounds_edges(entities: Seq<EntityView>, bounds: Seq<u64>) -> Option<Seq<u64>>
    decreases bounds.len(),
{
    if bounds.len() == 0 {
        Some(Seq::empty())
    } else {
        match (bounds_edges(entities, bounds.drop_last()), bound_loop(entities, bounds.last())) {
            (Some(rest), Some(found)) => Some(rest + found.1),
            _ => None,
        }
    }
}

/// The edges of a face in ascending order.
pub open spec fn face_edges(entities: Seq<EntityView>, face: u64) -> Option<Seq<u64>> {
    match record_at(entities, face) {
        None => None,
        Some(record) => match nth_ref_list(record, 1) {
            None => None,
            Some(bounds) => match bounds_edges(entities, bounds) {
                Some(edges) => Some(sorted_of(edges)),
                None => None,
            },
        },
    }
}

/// The surface of a face.
pub open spec fn surface_of(entities: Seq<EntityView>, face: u64) -> Option<u64> {
    match record_at(entities, face) {
        Some(record) if record.name == "ADVANCED_FACE"@ || record.name == "FACE_SURFACE"@ => nth_ref(
            record,
            2,
        ),
        _ => None,
    }
}

/// The entities that a parameter of an entity lists.
pub open spec fn listed_in(entities: Seq<EntityView>, id: u64, n: int) -> Option<Seq<u64>> {
    match record_at(entities, id) {
        Some(record) => nth_ref_list(record, n),
        None => None,
    }
}

pub(crate) fn find_coordinates(
    point: u64,
    entities: &Vec<EntityInstance>,
    index: &HashMap<u64, usize>,
) -> (out: bool)
    requires
        indexes(index@, entities_view(entities@)),
    ensures
        out == has_coordinates(entities_view(entities@), point),
{
    match find_typed(entities, index, point, "CARTESIAN_POINT") {
        None => false,
        Some(record) => match nth_param(record, 1) {
            Some(Parameter::List(numbers)) => {
                proof {
                    lemma_list_view(*numbers);
                }
                let ghost views = params_view(numbers@);
                if numbers.len() != 3 {
                    return false;
                }
                assert(views[0] == numbers@[0]@ && views[1] == numbers@[1]@ && views[2]
                    == numbers@[2]@);
                is_coordinate(&numbers[0]) && is_coordinate(&numbers[1]) && is_coordinate(
                    &numbers[2],
                )
            },
            _ => false,
        },
    }
}

fn is_coordinate(param: &Parameter) -> (out: bool)
    ensures
        out == is_number(param@),
{
    match param {
        Parameter::Integer(_) | Parameter::Real(_) => true,
        _ => false,
    }
}

pub(crate) fn find_stand(
    vertex: u64,
    entities: &Vec<EntityInstance>,
    index: &HashMap<u64, usize>,
) -> (out: bool)
    requires
        indexes(index@, entities_view(entities@)),
    ensures
        out == stands_somewhere(entities_view(entities@), vertex),
{
    match find_typed(entities, index, vertex, "VERTEX_POINT") {
        None => false,
        Some(record) => match nth_entity_ref(record, 1) {
            Some(point) => find_coordinates(point, entities, index),
            None => false,
        },
    }
}

/// How an oriented edge that is complete uses its edge.
pub fn oriented_edge_use(
    oe: u64,
    entities: &Vec<EntityInstance>,
    index: &HashMap<u64, usize>,
) -> (out: Option<EdgeUse>)
    requires
        indexes(index@, entities_view(entities@)),
    ensures
        out == edge_use(entities_view(entities@), oe),
{
    let record = match find_typed(entities, index, oe, "ORIENTED_EDGE") {
        Some(record) => record,
        None => {
            return None;
        },
    };
    let (edge, forward) = match (nth_entity_ref(record, 3), nth_bool(record, 4)) {
        (Some(edge), Some(forward)) => (edge, forward),
        _ => {
            return None;
        },
    };
    let curve = match find_typed(entities, index, edge, "EDGE_CURVE") {
        Some(curve) => curve,
        None => {
            return None;
        },
    };
    match (
        nth_entity_ref(curve, 1),
        nth_entity_ref(curve, 2),
        nth_entity_ref(curve, 3),
        nth_bool(curve, 4),
    ) {
        (Some(a), Some(b), Some(curve_id), Some(same)) => {
            if find_stand(a, entities, index) && find_stand(b, entities, index) {
                Some(
                    EdgeUse {
                        oriented_edge_id: oe,
                        edge_id: edge,
                        curve_id,
                        curve_same_sense: same,
                        parameter_forward: forward == same,
                        start_vertex: if forward {
                            a
                        } else {
                            b
                        },
                        end_vertex: if forward {
                            b
                        } else {
                            a
                        },
                    },
                )
            } else {
                None
            }
        },
        _ => None,
    }
}

/// The loop of a bound.
pub fn ordered_bound_loop(
    bound: u64,
    entities: &Vec<EntityInstance>,
    index: &HashMap<u64, usize>,
) -> (out: Option<FaceLoop>)
    requires
        indexes(index@, entities_view(entities@)),
    ensures
        out is Some == loop_of(entities_view(entities@), bound) is Some,
        out matches Some(found) ==> loop_of(entities_view(entities@), bound) == Some(found@),
{
    let ghost views = entities_view(entities@);
    let record = match find_record(entities, index, bound) {
        Some(record) => record,
        None => {
            return None;
        },
    };
    let outer = same_text(record.name.as_str(), "FACE_OUTER_BOUND");
    if !outer && !same_text(record.name.as_str(), "FACE_BOUND") {
        return None;
    }
    let (loop_id, orientation) = match (nth_entity_ref(record, 1), nth_bool(record, 2)) {
        (Some(loop_id), Some(orientation)) => (loop_id, orientation),
        _ => {
            return None;
        },
    };
    let oes = match find_typed(entities, index, loop_id, "EDGE_LOOP") {
        None => {
            return None;
        },
        Some(loop_record) => match nth_entity_ref_list(loop_record, 1) {
            Some(oes) => oes,
            None => {
                return None;
            },
        },
    };
    let mut edges: Vec<EdgeUse> = Vec::new();
    let mut i: usize = 0;
    while i < oes.len()
        invariant
            i <= oes.len(),
            edges.len() == i,
            views == entities_view(entities@),
            indexes(index@, views),
            loop_of(views, bound) == (match edge_uses(views, oes@) {
                Some(edges) => Some(
                    LoopView { bound_id: bound, loop_id, outer, orientation, edges },
                ),
                None => None,
            }),
            forall|j: int|
                0 <= j < i ==> edge_use(views, #[trigger] oes@[j]) == Some(edges@[j]),
        decreases oes.len() - i,
    {
        match oriented_edge_use(oes[i], entities, index) {
            Some(found) => edges.push(found),
            None => {
                assert(edge_use(views, oes@[i as int]) is None);
                return None;
            },
        }
        i = i + 1;
    }
    assert(edges@ =~= edge_uses(views, oes@)->Some_0);
    Some(FaceLoop { bound_id: bound, loop_id, outer, orientation, edges })
}

/// The loop of a bound, its edges, and the orientation of the bound.
pub fn bound_loop_edges(
    bound: u64,
    entities: &Vec<EntityInstance>,
    index: &HashMap<u64, usize>,
) -> (out: Option<(u64, Vec<u64>, bool)>)
    requires
        indexes(index@, entities_view(entities@)),
    ensures
        out is Some == bound_loop(entities_view(entities@), bound) is Some,
        out matches Some(found) ==> bound_loop(entities_view(entities@), bound) == Some(
            (found.0, found.1@, found.2),
        ),
{
    match ordered_bound_loop(bound, entities, index) {
        None => None,
        Some(found) => {
            let mut edges: Vec<u64> = Vec::new();
            let mut i: usize = 0;
            while i < found.edges.len()
                invariant
                    i <= found.edges.len(),
                    edges.len() == i,
                    forall|j: int| 0 <= j < i ==> edges@[j] == found.edges@[j].edge_id,
                decreases found.edges.len() - i,
            {
                edges.push(found.edges[i].edge_id);
                i = i + 1;
            }
            assert(edges@ =~= edges_used(found.edges@));
            Some((found.loop_id, edges, found.orientation))
        },
    }
}

/// The loops of a face.
pub fn face_loops(
    face: u64,
    entities: &Vec<EntityInstance>,
    index: &HashMap<u64, usize>,
) -> (out: Option<Vec<FaceLoop>>)
    requires
        indexes(index@, entities_view(entities@)),
    ensures
        out is Some == loops_around(entities_view(entities@), face) is Some,
        out matches Some(loops) ==> loops@.len() == loops_around(
            entities_view(entities@),
            face,
        )->Some_0.len() && forall|i: int|
            0 <= i < loops@.len() ==> #[trigger] loops@[i]@ == loops_around(
                entities_view(entities@),
                face,
            )->Some_0[i],
{
    let ghost views = entities_view(entities@);
    let bounds = match find_record(entities, index, face) {
        None => {
            return None;
        },
        Some(record) => {
            if !same_text(record.name.as_str(), "ADVANCED_FACE") && !same_text(
                record.name.as_str(),
                "FACE_SURFACE",
            ) {
                return None;
            }
            match nth_entity_ref_list(record, 1) {
                None => {
                    return None;
                },
                Some(bounds) => bounds,
            }
        },
    };
    let mut loops: Vec<FaceLoop> = Vec::new();
    let mut i: usize = 0;
    while i < bounds.len()
        invariant
            i <= bounds.len(),
            loops.len() == i,
            views == entities_view(entities@),
            indexes(index@, views),
            loops_around(views, face) == loops_of(views, bounds@),
            forall|j: int| 0 <= j < i ==> loop_of(views, #[trigger] bounds@[j]) is Some,
            forall|j: int|
                0 <= j < i ==> loop_of(views, bounds@[j]) == Some((#[trigger] loops@[j])@),
        decreases bounds.len() - i,
    {
        match ordered_bound_loop(bounds[i], entities, index) {
            Some(found) => loops.push(found),
            None => {
                assert(loop_of(views, bounds@[i as int]) is None);
                return None;
            },
        }
        i = i + 1;
    }
    Some(loops)
}

/// The shell of a solid.
pub fn manifold_shell(
    solid: u64,
    entities: &Vec<EntityInstance>,
    index: &HashMap<u64, usize>,
) -> (out: Option<u64>)
    requires
        indexes(index@, entities_view(entities@)),
    ensures
        out == shell_of(entities_view(entities@), solid),
{
    match find_typed(entities, index, solid, "MANIFOLD_SOLID_BREP") {
        Some(record) => nth_entity_ref(record, 1),
        None => None,
    }
}

/// The faces that the shell of a solid lists.
pub fn solid_face_ids(
    solid: u64,
    entities: &Vec<EntityInstance>,
    index: &HashMap<u64, usize>,
) -> (out: Option<Vec<u64>>)
    requires
        indexes(index@, entities_view(entities@)),
    ensures
        out is Some == shell_faces(entities_view(entities@), solid) is Some,
        out matches Some(ids) ==> shell_faces(entities_view(entities@), solid) == Some(ids@),
{
    match manifold_shell(solid, entities, index) {
        Some(shell) => ref_list_param(shell, 1, entities, index),
        None => None,
    }
}

/// The sense of a face.
pub fn face_sense(
    face: u64,
    entities: &Vec<EntityInstance>,
    index: &HashMap<u64, usize>,
) -> (out: Option<String>)
    requires
        indexes(index@, entities_view(entities@)),
    ensures
        out is Some == sense_of(entities_view(entities@), face) is Some,
        out matches Some(value) ==> sense_of(entities_view(entities@), face) == Some(value@),
{
    match find_record(entities, index, face) {
        Some(record) => match nth_param(record, 3) {
            Some(Parameter::Enumeration(value)) => Some(value.clone()),
            _ => None,
        },
        None => None,
    }
}

proof fn lemma_bounds_stop(entities: Seq<EntityView>, bounds: Seq<u64>, edges: Set<u64>, n: nat, m: nat)
    requires
        n <= m,
        bounds_on(entities, bounds, edges, n) is None,
    ensures
        bounds_on(entities, bounds, edges, m) is None,
    decreases m,
{
    if n < m {
        lemma_bounds_stop(entities, bounds, edges, n, (m - 1) as nat);
    }
}

/// The only inner bound of a face whose edges are those of a list. With several such bounds
/// there is none.
pub fn matching_plane_bound(
    face: u64,
    edges: &Vec<u64>,
    entities: &Vec<EntityInstance>,
    index: &HashMap<u64, usize>,
) -> (out: Option<u64>)
    requires
        indexes(index@, entities_view(entities@)),
    ensures
        out == bound_on(entities_view(entities@), face, edges@.to_set()),
{
    let ghost views = entities_view(entities@);
    let bounds = match ref_list_param(face, 1, entities, index) {
        Some(bounds) => bounds,
        None => {
            return None;
        },
    };
    let mut found: Vec<u64> = Vec::new();
    let mut i: usize = 0;
    while i < bounds.len()
        invariant
            i <= bounds.len(),
            views == entities_view(entities@),
            indexes(index@, views),
            listed_in(views, face, 1) == Some(bounds@),
            bounds_on(views, bounds@, edges@.to_set(), i as nat) == Some(found@),
        decreases bounds.len() - i,
    {
        match find_record(entities, index, bounds[i]) {
            None => {
                proof {
                    lemma_bounds_stop(
                        views,
                        bounds@,
                        edges@.to_set(),
                        (i + 1) as nat,
                        bounds@.len(),
                    );
                }
                return None;
            },
            Some(record) => {
                if same_text(record.name.as_str(), "FACE_BOUND") {
                    if let Some((_, list, _)) = bound_loop_edges(bounds[i], entities, index) {
                        if holds_same(&list, edges) {
                            found.push(bounds[i]);
                        }
                    }
                }
            },
        }
        i = i + 1;
    }
    if found.len() == 1 {
        Some(found[0])
    } else {
        None
    }
}

/// Whether two lists hold the same ids.
fn holds_same(a: &Vec<u64>, b: &Vec<u64>) -> (out: bool)
    ensures
        out == (a@.to_set() == b@.to_set()),
{
    let first = sorted_ids(a);
    let second = sorted_ids(b);
    let same = same_ids(&first, &second);
    proof {
        if same {
            assert forall|id: u64| a@.to_set().contains(id) == b@.to_set().contains(id) by {
                assert(first@.contains(id) == a@.contains(id));
                assert(second@.contains(id) == b@.contains(id));
            }
            assert(a@.to_set() =~= b@.to_set());
        } else if a@.to_set() == b@.to_set() {
            assert forall|id: u64| #[trigger] first@.contains(id) == second@.contains(id) by {
                assert(a@.to_set().contains(id) == b@.to_set().contains(id));
            }
            lemma_ascending_determined(first@, second@);
        }
    }
    same
}

proof fn lemma_edges_stop(entities: Seq<EntityView>, bounds: Seq<u64>, n: int)
    requires
        0 <= n <= bounds.len(),
        bounds_edges(entities, bounds.take(n)) is None,
    ensures
        bounds_edges(entities, bounds) is None,
    decreases bounds.len(),
{
    if n < bounds.len() {
        assert(bounds.drop_last().take(n) =~= bounds.take(n));
        lemma_edges_stop(entities, bounds.drop_last(), n);
    } else {
        assert(bounds.take(n) =~= bounds);
    }
}

/// The edges of a face in ascending order.
pub fn face_edge_curves(
    face: u64,
    entities: &Vec<EntityInstance>,
    index: &HashMap<u64, usize>,
) -> (out: Option<Vec<u64>>)
    requires
        indexes(index@, entities_view(entities@)),
    ensures
        out is Some == face_edges(entities_view(entities@), face) is Some,
        out matches Some(edges) ==> face_edges(entities_view(entities@), face) == Some(edges@)
            && ascending(edges@),
{
    let ghost views = entities_view(entities@);
    let bounds = match ref_list_param(face, 1, entities, index) {
        Some(bounds) => bounds,
        None => {
            return None;
        },
    };
    let mut edges: Vec<u64> = Vec::new();
    let mut i: usize = 0;
    assert(bounds@.take(0) =~= Seq::empty());
    while i < bounds.len()
        invariant
            i <= bounds.len(),
            views == entities_view(entities@),
            indexes(index@, views),
            listed_in(views, face, 1) == Some(bounds@),
            bounds_edges(views, bounds@.take(i as int)) == Some(edges@),
        decreases bounds.len() - i,
    {
        assert(bounds@.take(i + 1).drop_last() =~= bounds@.take(i as int));
        match bound_loop_edges(bounds[i], entities, index) {
            Some((_, more, _)) => append_ids(&mut edges, &more),
            None => {
                proof {
                    lemma_edges_stop(views, bounds@, i + 1);
                }
                return None;
            },
        }
        i = i + 1;
    }
    assert(bounds@.take(bounds@.len() as int) =~= bounds@);
    Some(sorted_set(&edges))
}

/// The surface of a face.
pub fn face_surface(
    face: u64,
    entities: &Vec<EntityInstance>,
    index: &HashMap<u64, usize>,
) -> (out: Option<u64>)
    requires
        indexes(index@, entities_view(entities@)),
    ensures
        out == surface_of(entities_view(entities@), face),
{
    match find_record(entities, index, face) {
        Some(record) => if same_text(record.name.as_str(), "ADVANCED_FACE") || same_text(
            record.name.as_str(),
            "FACE_SURFACE",
        ) {
            nth_entity_ref(record, 2)
        } else {
            None
        },
        None => None,
    }
}

/// The entities that a parameter of an entity lists.
pub fn ref_list_param(
    id: u64,
    n: usize,
    entities: &Vec<EntityInstance>,
    index: &HashMap<u64, usize>,
) -> (out: Option<Vec<u64>>)
    requires
        indexes(index@, entities_view(entities@)),
    ensures
        out is Some == listed_in(entities_view(entities@), id, n as int) is Some,
        out matches Some(ids) ==> listed_in(entities_view(entities@), id, n as int) == Some(ids@),
{
    match find_record(entities, index, id) {
        Some(record) => nth_entity_ref_list(record, n),
        None => None,
    }
}

/// An entity without some references in one of its lists; nothing where none goes.
pub open spec fn list_without(entity: EntityView, n: int, remove: Set<u64>) -> Option<EntityView> {
    match simple_record(entity) {
        None => None,
        Some(record) => match record.parameter {
            ParamView::List(params) if 0 <= n < params.len() => match params[n] {
                ParamView::List(items) => if kept_refs(items, remove).len() < items.len() {
                    Some(
                        simple_entity(
                            entity.id(),
                            record.name,
                            params.update(n, ParamView::List(kept_refs(items, remove))),
                        ),
                    )
                } else {
                    None
                },
                _ => None,
            },
            _ => None,
        },
    }
}

/// An entity with some more references in one of its lists; nothing where it has no such list.
pub open spec fn list_with(entity: EntityView, n: int, more: Seq<u64>) -> Option<EntityView> {
    match simple_record(entity) {
        None => None,
        Some(record) => match record.parameter {
            ParamView::List(params) if 0 <= n < params.len() => match params[n] {
                ParamView::List(items) => Some(
                    simple_entity(
                        entity.id(),
                        record.name,
                        params.update(n, ParamView::List(items + ref_params(more))),
                    ),
                ),
                _ => None,
            },
            _ => None,
        },
    }
}

/// The references that stay.
fn keep_refs(items: &Vec<Parameter>, remove: &HashSet<u64>) -> (out: Vec<Parameter>)
    ensures
        params_view(out@) == kept_refs(params_view(items@), remove@),
{
    broadcast use vstd::std_specs::hash::group_hash_axioms;

    let ghost views = params_view(items@);
    let mut list: Vec<Parameter> = Vec::new();
    let mut k: usize = 0;
    assert(views.take(0) =~= Seq::empty());
    assert(params_view(list@) =~= Seq::empty());
    while k < items.len()
        invariant
            k <= items.len(),
            views == params_view(items@),
            params_view(list@) == kept_refs(views.take(k as int), remove@),
        decreases items.len() - k,
    {
        let ghost before = list@;
        assert(views[k as int] == items@[k as int]@);
        let gone = match entity_ref_value(&items[k]) {
            Some(id) => remove.contains(&id),
            None => false,
        };
        if !gone {
            list.push(items[k].clone());
            assert(params_view(list@) =~= params_view(before).push(list@.last()@));
        }
        k = k + 1;
        assert(views.take(k as int).drop_last() =~= views.take(k - 1));
    }
    assert(views.take(views.len() as int) =~= views);
    list
}

/// A copy of a simple entity with another parameter in one place.
pub(crate) fn with_param(id: u64, record: &Record, params: &Vec<Parameter>, n: usize, new: Parameter) -> (out:
    EntityInstance)
    requires
        n < params@.len(),
        record.parameter@ == ParamView::List(params_view(params@)),
    ensures
        out@ == simple_entity(id, record@.name, params_view(params@).update(n as int, new@)),
{
    let ghost new_view = new@;
    let mut copy = clone_params(params);
    let ghost before = copy@;
    assert(params_view(before).len() == before.len());
    copy.set(n, new);
    assert(params_view(copy@) =~= params_view(before).update(n as int, new_view));
    proof {
        lemma_list_view(copy);
    }
    EntityInstance::Simple {
        id,
        record: Record { name: record.name.clone(), parameter: Parameter::List(copy) },
    }
}

/// An entity without some references in one of its lists.
pub fn remove_refs_from_list_param(
    entity: &EntityInstance,
    n: usize,
    remove: &HashSet<u64>,
) -> (out: Option<EntityInstance>)
    ensures
        out is Some == list_without(entity@, n as int, remove@) is Some,
        out matches Some(done) ==> list_without(entity@, n as int, remove@) == Some(done@),
{
    if let EntityInstance::Simple { id, record } = entity {
        if let Parameter::List(params) = &record.parameter {
            proof {
                lemma_list_view(*params);
            }
            if n < params.len() {
                assert(params_view(params@)[n as int] == params@[n as int]@);
                if let Parameter::List(items) = &params[n] {
                    proof {
                        lemma_list_view(*items);
                    }
                    let kept = keep_refs(items, remove);
                    assert(params_view(kept@).len() == kept@.len());
                    assert(params_view(items@).len() == items@.len());
                    if kept.len() < items.len() {
                        proof {
                            lemma_list_view(kept);
                        }
                        return Some(with_param(*id, record, params, n, Parameter::List(kept)));
                    }
                }
            }
        }
    }
    None
}

/// An entity with some more references in one of its lists.
pub fn append_refs_to_list_param(
    entity: &EntityInstance,
    n: usize,
    more: &Vec<u64>,
) -> (out: Option<EntityInstance>)
    ensures
        out is Some == list_with(entity@, n as int, more@) is Some,
        out matches Some(done) ==> list_with(entity@, n as int, more@) == Some(done@),
{
    if let EntityInstance::Simple { id, record } = entity {
        if let Parameter::List(params) = &record.parameter {
            proof {
                lemma_list_view(*params);
            }
            if n < params.len() {
                assert(params_view(params@)[n as int] == params@[n as int]@);
                if let Parameter::List(items) = &params[n] {
                    proof {
                        lemma_list_view(*items);
                    }
                    let mut list = clone_params(items);
                    push_refs(&mut list, more);
                    proof {
                        lemma_list_view(list);
                    }
                    return Some(with_param(*id, record, params, n, Parameter::List(list)));
                }
            }
        }
    }
    None
}

/// Appends references.
pub(crate) fn push_refs(list: &mut Vec<Parameter>, ids: &Vec<u64>)
    ensures
        params_view(final(list)@) == params_view(old(list)@) + ref_params(ids@),
{
    let ghost before = params_view(list@);
    let ghost more = ref_params(ids@);
    let mut i: usize = 0;
    assert(before + more.take(0) =~= before);
    while i < ids.len()
        invariant
            i <= ids.len(),
            more == ref_params(ids@),
            params_view(list@) == before + more.take(i as int),
        decreases ids.len() - i,
    {
        let ghost so_far = list@;
        list.push(entity_ref(ids[i]));
        i = i + 1;
        assert(params_view(list@) =~= params_view(so_far).push(ref_param(ids@[i - 1])));
        assert(before + more.take(i as int) =~= (before + more.take(i - 1)).push(more[i - 1]));
    }
    assert(more.take(more.len() as int) =~= more);
}

} // verus!
