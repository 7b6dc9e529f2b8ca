//! The edges between stretched faces of a resized body.

use std::collections::HashMap;
use vstd::prelude::*;

use crate::ast::{clone_params, lemma_list_view, params_view, EntityView, ParamView, Parameter};
use crate::body_bounds::LoopMeasure;
use crate::body_copies::Spot;
use crate::body_graph::{
    edge_vertices, ends, id_at, push_record, with_new, BodyError, Draft,
};
use crate::body_plan::{faces_of, find_vertex_at, vertex_at, Scene, SceneView};
use crate::face_coalesce::ref_param;
use crate::graph::{entity_ref, find_typed, typed_record};

verus! {

broadcast use vstd::std_specs::hash::group_hash_axioms;

/// What was measured of an edge between two stretched faces.
#[derive(Debug, Clone, Copy, PartialEq, Eq, Structural)]
pub struct RowMeasure {
    /// The place of its middle along the axis.
    pub rank: u64,
    /// Whether it spans the whole body.
    pub full: bool,
    /// Whether it starts behind its end.
    pub turned: bool,
}

/// What was measured of a body and of its resized draft.
pub struct BodyEvidence {
    /// The axis has a direction.
    pub has_axis: bool,
    /// Whether the middle of a face lies behind the last site.
    pub beyond: HashMap<u64, bool>,
    /// Where the points of the end that moves go.
    pub cap_spots: HashMap<u64, Spot>,
    /// Where the points of the copied site go, for each new site.
    pub site_spots: Vec<HashMap<u64, Spot>>,
    /// The places of vertices. Vertices in one place are in the same.
    pub places: HashMap<u64, u64>,
    /// The places that vertices move to with the end.
    pub shifted: HashMap<u64, u64>,
    /// The places that vertices move to by one pitch, by two, and so on.
    pub stepped: Vec<HashMap<u64, u64>>,
    pub rows: HashMap<u64, RowMeasure>,
    pub loops: HashMap<u64, LoopMeasure>,
}

/// Whether an edge lies between two stretched faces.
pub open spec fn is_row(scene: SceneView, edge: u64) -> bool {
    let faces = scene.at(edge);
    faces.len() == 2 && scene.stretch.contains(faces[0]) && scene.stretch.contains(faces[1])
}

/// The two faces of an edge.
pub open spec fn pair_of(scene: SceneView, edge: u64) -> (u64, u64) {
    (scene.at(edge)[0], scene.at(edge)[1])
}

/// The pairs of stretched faces with one of the first `n` edges between them.
pub open spec fn pairs(scene: SceneView, n: nat) -> Seq<(u64, u64)>
    decreases n,
{
    if n == 0 {
        Seq::empty()
    } else {
        let rest = pairs(scene, (n - 1) as nat);
        let edge = scene.edges()[n - 1];
        if is_row(scene, edge) && !rest.contains(pair_of(scene, edge)) {
            rest.push(pair_of(scene, edge))
        } else {
            rest
        }
    }
}

/// Those of the first `n` edges that lie between two faces.
pub open spec fn rows_of(scene: SceneView, pair: (u64, u64), n: nat) -> Seq<u64>
    decreases n,
{
    if n == 0 {
        Seq::empty()
    } else {
        let rest = rows_of(scene, pair, (n - 1) as nat);
        let edge = scene.edges()[n - 1];
        if is_row(scene, edge) && pair_of(scene, edge) == pair {
            rest.push(edge)
        } else {
            rest
        }
    }
}

pub open spec fn all_rows_measured(scene: SceneView, rows: Map<u64, RowMeasure>, n: nat) -> bool {
    forall|i: int|
        0 <= i < n && is_row(scene, #[trigger] scene.edges()[i]) ==> rows.contains_key(
            scene.edges()[i],
        )
}

/// Edges in the order of their middles, with one more.
pub open spec fn put(rows: Map<u64, RowMeasure>, order: Seq<u64>, edge: u64) -> Seq<u64>
    decreases order.len(),
{
    if order.len() == 0 || rows[order.last()].rank <= rows[edge].rank {
        order.push(edge)
    } else {
        put(rows, order.drop_last(), edge).push(order.last())
    }
}

/// Edges in the order of their middles. Those with one middle stay in order.
pub open spec fn ranked(rows: Map<u64, RowMeasure>, edges: Seq<u64>) -> Seq<u64>
    decreases edges.len(),
{
    if edges.len() == 0 {
        Seq::empty()
    } else {
        put(rows, ranked(rows, edges.drop_last()), edges.last())
    }
}

/// The edges that span the body, or those that do not.
pub open spec fn spanning(rows: Map<u64, RowMeasure>, edges: Seq<u64>, full: bool) -> Seq<u64>
    decreases edges.len(),
{
    if edges.len() == 0 {
        Seq::empty()
    } else {
        let rest = spanning(rows, edges.drop_last(), full);
        if rows[edges.last()].full == full {
            rest.push(edges.last())
        } else {
            rest
        }
    }
}

/// Entities under work and the edges that are marked for faces.
pub type Stage = (Seq<EntityView>, Seq<(u64, u64)>);

/// A new edge like another, between two vertices, for two faces.
pub open spec fn with_edge_like(
    start: Seq<EntityView>,
    stage: Stage,
    pair: (u64, u64),
    edge: u64,
    a: u64,
    b: u64,
) -> Result<Stage, BodyError> {
    match typed_record(stage.0, edge, "EDGE_CURVE"@) {
        Some(record) => match record.parameter {
            ParamView::List(params) => if params.len() < 5 {
                Err(BodyError::BadTopology)
            } else {
                let id = id_at(start, stage.0.len() as int);
                Ok(
                    (
                        with_new(
                            start,
                            stage.0,
                            "EDGE_CURVE"@,
                            params.update(1, ref_param(a)).update(2, ref_param(b)),
                        ),
                        stage.1.push((pair.0, id)).push((pair.1, id)),
                    ),
                )
            },
            _ => Err(BodyError::BadTopology),
        },
        None => Err(BodyError::BadTopology),
    }
}

/// A new edge like one that spans the body, with its far end moved.
pub open spec fn with_full(
    start: Seq<EntityView>,
    stage: Stage,
    pair: (u64, u64),
    edge: u64,
    evidence: BodyEvidence,
    vertices: Seq<u64>,
) -> Result<Stage, BodyError> {
    match ends(stage.0, edge) {
        None => Err(BodyError::BadTopology),
        Some((a, b)) => {
            let (near, far) = if evidence.rows@[edge].turned {
                (b, a)
            } else {
                (a, b)
            };
            match vertex_at(evidence.places@, vertices, evidence.shifted@, far) {
                Err(error) => Err(error),
                Ok(vertex) => with_edge_like(start, stage, pair, edge, near, vertex),
            }
        },
    }
}

/// A new edge like another, with both ends moved.
pub open spec fn with_moved(
    start: Seq<EntityView>,
    stage: Stage,
    pair: (u64, u64),
    edge: u64,
    places: Map<u64, u64>,
    vertices: Seq<u64>,
    moved: Map<u64, u64>,
) -> Result<Stage, BodyError> {
    match ends(stage.0, edge) {
        None => Err(BodyError::BadTopology),
        Some((a, b)) => match vertex_at(places, vertices, moved, a) {
            Err(error) => Err(error),
            Ok(first) => match vertex_at(places, vertices, moved, b) {
                Err(error) => Err(error),
                Ok(second) => with_edge_like(start, stage, pair, edge, first, second),
            },
        },
    }
}

pub open spec fn with_fulls(
    start: Seq<EntityView>,
    stage: Stage,
    pair: (u64, u64),
    edges: Seq<u64>,
    evidence: BodyEvidence,
    vertices: Seq<u64>,
) -> Result<Stage, BodyError>
    decreases edges.len(),
{
    if edges.len() == 0 {
        Ok(stage)
    } else {
        match with_fulls(start, stage, pair, edges.drop_last(), evidence, vertices) {
            Err(error) => Err(error),
            Ok(next) => with_full(start, next, pair, edges.last(), evidence, vertices),
        }
    }
}

/// Edges that stay, for two faces.
pub open spec fn both_marks(pair: (u64, u64), edges: Seq<u64>) -> Seq<(u64, u64)>
    decreases edges.len(),
{
    if edges.len() == 0 {
        Seq::empty()
    } else {
        both_marks(pair, edges.drop_last()).push((pair.0, edges.last())).push(
            (pair.1, edges.last()),
        )
    }
}

/// Copies of an edge, one pitch further each time.
pub open spec fn with_steps_of(
    start: Seq<EntityView>,
    stage: Stage,
    pair: (u64, u64),
    edge: u64,
    evidence: BodyEvidence,
    vertices: Seq<u64>,
    n: nat,
) -> Result<Stage, BodyError>
    decreases n,
{
    if n == 0 {
        Ok(stage)
    } else {
        match with_steps_of(start, stage, pair, edge, evidence, vertices, (n - 1) as nat) {
            Err(error) => Err(error),
            Ok(next) => if n > evidence.stepped@.len() {
                Err(BodyError::NotMeasured)
            } else {
                with_moved(
                    start,
                    next,
                    pair,
                    edge,
                    evidence.places@,
                    vertices,
                    evidence.stepped@[n - 1]@,
                )
            },
        }
    }
}

/// The edges at the gaps between sites. The first and those at gaps that stay stay, the last
/// gap is repeated for each further site, and the last edge moves with its end.
pub open spec fn with_gaps(
    start: Seq<EntityView>,
    stage: Stage,
    pair: (u64, u64),
    edges: Seq<u64>,
    evidence: BodyEvidence,
    vertices: Seq<u64>,
    old_sites: usize,
    new_sites: usize,
) -> Result<Stage, BodyError> {
    if edges.len() == 0 {
        Ok(stage)
    } else if edges.len() != old_sites + 1 {
        Err(BodyError::BadGaps)
    } else {
        let kept = if new_sites < old_sites {
            new_sites as int
        } else {
            old_sites as int
        };
        let marked = (stage.0, stage.1 + both_marks(pair, edges.take(kept)));
        match with_steps_of(
            start,
            marked,
            pair,
            edges[old_sites - 1],
            evidence,
            vertices,
            (new_sites - kept) as nat,
        ) {
            Err(error) => Err(error),
            Ok(next) => with_moved(
                start,
                next,
                pair,
                edges.last(),
                evidence.places@,
                vertices,
                evidence.shifted@,
            ),
        }
    }
}

/// The edges between two stretched faces.
pub open spec fn with_pair(
    start: Seq<EntityView>,
    stage: Stage,
    scene: SceneView,
    pair: (u64, u64),
    evidence: BodyEvidence,
    vertices: Seq<u64>,
    old_sites: usize,
    new_sites: usize,
) -> Result<Stage, BodyError> {
    let edges = ranked(evidence.rows@, rows_of(scene, pair, scene.edges().len()));
    match with_fulls(
        start,
        stage,
        pair,
        spanning(evidence.rows@, edges, true),
        evidence,
        vertices,
    ) {
        Err(error) => Err(error),
        Ok(next) => with_gaps(
            start,
            next,
            pair,
            spanning(evidence.rows@, edges, false),
            evidence,
            vertices,
            old_sites,
            new_sites,
        ),
    }
}

/// The edges between stretched faces, for the first `n` pairs.
pub open spec fn with_pairs(
    start: Seq<EntityView>,
    stage: Stage,
    scene: SceneView,
    evidence: BodyEvidence,
    vertices: Seq<u64>,
    old_sites: usize,
    new_sites: usize,
    n: nat,
) -> Result<Stage, BodyError>
    decreases n,
{
    if n == 0 {
        Ok(stage)
    } else {
        match with_pairs(
            start,
            stage,
            scene,
            evidence,
            vertices,
            old_sites,
            new_sites,
            (n - 1) as nat,
        ) {
            Err(error) => Err(error),
            Ok(next) => with_pair(
                start,
                next,
                scene,
                pairs(scene, scene.edges().len())[n - 1],
                evidence,
                vertices,
                old_sites,
                new_sites,
            ),
        }
    }
}

/// The edges between stretched faces.
pub open spec fn with_rows(
    start: Seq<EntityView>,
    stage: Stage,
    scene: SceneView,
    evidence: BodyEvidence,
    vertices: Seq<u64>,
    old_sites: usize,
    new_sites: usize,
) -> Result<Stage, BodyError> {
    if !all_rows_measured(scene, evidence.rows@, scene.edges().len()) {
        Err(BodyError::NotMeasured)
    } else {
        with_pairs(
            start,
            stage,
            scene,
            evidence,
            vertices,
            old_sites,
            new_sites,
            pairs(scene, scene.edges().len()).len(),
        )
    }
}

/// A result that stands for a stage.
pub open spec fn is_stage(
    out: Result<(), BodyError>,
    draft: Draft,
    marks: Seq<(u64, u64)>,
    expected: Result<Stage, BodyError>,
) -> bool {
    match (out, expected) {
        (Ok(_), Ok(stage)) => draft@ == stage.0 && marks == stage.1,
        (Err(a), Err(b)) => a == b,
        _ => false,
    }
}

/// Whether an edge lies between two stretched faces.
fn find_row(scene: &Scene, edge: u64, Ghost(view): Ghost<SceneView>) -> (out: Option<(u64, u64)>)
    requires
        scene.shows(view),
    ensures
        out is Some == is_row(view, edge),
        out matches Some(pair) ==> pair == pair_of(view, edge),
{
    let none: Vec<u64> = Vec::new();
    let faces = faces_of(&scene.table, edge, &none);
    assert(faces@ == view.at(edge));
    if faces.len() == 2 && scene.stretch.contains(&faces[0]) && scene.stretch.contains(&faces[1]) {
        Some((faces[0], faces[1]))
    } else {
        None
    }
}

fn has_pair(list: &Vec<(u64, u64)>, pair: (u64, u64)) -> (out: bool)
    ensures
        out == list@.contains(pair),
{
    let mut i: usize = 0;
    while i < list.len()
        invariant
            i <= list.len(),
            forall|k: int| 0 <= k < i ==> list@[k] != pair,
        decreases list.len() - i,
    {
        if list[i].0 == pair.0 && list[i].1 == pair.1 {
            assert(list@[i as int] == pair);
            return true;
        }
        i = i + 1;
    }
    false
}

/// The pairs of stretched faces with an edge between them, where every such edge is measured.
fn find_pairs(
    scene: &Scene,
    rows: &HashMap<u64, RowMeasure>,
    Ghost(view): Ghost<SceneView>,
) -> (out: Option<Vec<(u64, u64)>>)
    requires
        scene.shows(view),
    ensures
        out is Some == all_rows_measured(view, rows@, view.edges().len()),
        out matches Some(list) ==> list@ == pairs(view, view.edges().len()),
{
    let mut out: Vec<(u64, u64)> = Vec::new();
    let mut i: usize = 0;
    while i < scene.table.edges.len()
        invariant
            i <= scene.table.edges.len(),
            scene.shows(view),
            all_rows_measured(view, rows@, i as nat),
            out@ == pairs(view, i as nat),
        decreases scene.table.edges.len() - i,
    {
        let edge: u64 = scene.table.edges[i];
        assert(view.edges()[i as int] == edge);
        if let Some(pair) = find_row(scene, edge, Ghost(view)) {
            if !rows.contains_key(&edge) {
                assert(!all_rows_measured(view, rows@, view.edges().len())) by {
                    assert(is_row(view, view.edges()[i as int]));
                }
                return None;
            }
            if !has_pair(&out, pair) {
                out.push(pair);
            }
        }
        i = i + 1;
    }
    Some(out)
}

proof fn lemma_put(rows: Map<u64, RowMeasure>, order: Seq<u64>, edge: u64, at: int)
    requires
        0 <= at <= order.len(),
        forall|k: int| at <= k < order.len() ==> rows[#[trigger] order[k]].rank > rows[edge].rank,
        at > 0 ==> rows[order[at - 1]].rank <= rows[edge].rank,
    ensures
        put(rows, order, edge) == order.insert(at, edge),
    decreases order.len(),
{
    if at == order.len() {
        assert(order.insert(at, edge) =~= order.push(edge));
    } else {
        assert(rows[order[order.len() - 1]].rank > rows[edge].rank);
        let rest = order.drop_last();
        assert forall|k: int| at <= k < rest.len() implies rows[#[trigger] rest[k]].rank
            > rows[edge].rank by {
            assert(rest[k] == order[k]);
        }
        lemma_put(rows, rest, edge, at);
        assert(rest.insert(at, edge).push(order.last()) =~= order.insert(at, edge));
    }
}

/// Puts an edge in its place in the order of middles.
fn put_row(order: &mut Vec<u64>, edge: u64, rows: &HashMap<u64, RowMeasure>)
    requires
        rows@.contains_key(edge),
        forall|k: int| 0 <= k < old(order)@.len() ==> rows@.contains_key(#[trigger] old(order)@[k]),
    ensures
        final(order)@ == put(rows@, old(order)@, edge),
        forall|k: int|
            0 <= k < final(order)@.len() ==> rows@.contains_key(#[trigger] final(order)@[k]),
{
    let ghost before = order@;
    let rank: u64 = rows.get(&edge).unwrap().rank;
    let mut at: usize = order.len();
    while at > 0
        invariant_except_break
            at <= order.len(),
            order@ == before,
            rank == rows@[edge].rank,
            forall|k: int| 0 <= k < before.len() ==> rows@.contains_key(#[trigger] before[k]),
            forall|k: int|
                at <= k < before.len() ==> rows@[#[trigger] before[k]].rank > rows@[edge].rank,
        ensures
            at <= order.len(),
            order@ == before,
            forall|k: int|
                at <= k < before.len() ==> rows@[#[trigger] before[k]].rank > rows@[edge].rank,
            at > 0 ==> rows@[before[at - 1]].rank <= rows@[edge].rank,
        decreases at,
    {
        let other: u64 = order[at - 1];
        assert(rows@.contains_key(before[at - 1]));
        if rows.get(&other).unwrap().rank <= rank {
            break;
        }
        at = at - 1;
    }
    proof {
        lemma_put(rows@, before, edge, at as int);
    }
    order.insert(at, edge);
    assert forall|k: int| 0 <= k < order@.len() implies rows@.contains_key(#[trigger] order@[k]) by {
        if k < at {
            assert(order@[k] == before[k]);
        } else if k > at {
            assert(order@[k] == before[k - 1]);
        }
    }
}

/// The edges between two faces in the order of their middles.
fn order_rows(
    scene: &Scene,
    pair: (u64, u64),
    rows: &HashMap<u64, RowMeasure>,
    Ghost(view): Ghost<SceneView>,
) -> (out: Vec<u64>)
    requires
        scene.shows(view),
        all_rows_measured(view, rows@, view.edges().len()),
    ensures
        out@ == ranked(rows@, rows_of(view, pair, view.edges().len())),
        forall|k: int| 0 <= k < out@.len() ==> rows@.contains_key(#[trigger] out@[k]),
{
    let mut out: Vec<u64> = Vec::new();
    let mut i: usize = 0;
    while i < scene.table.edges.len()
        invariant
            i <= scene.table.edges.len(),
            scene.shows(view),
            all_rows_measured(view, rows@, view.edges().len()),
            out@ == ranked(rows@, rows_of(view, pair, i as nat)),
            forall|k: int| 0 <= k < out@.len() ==> rows@.contains_key(#[trigger] out@[k]),
        decreases scene.table.edges.len() - i,
    {
        let edge: u64 = scene.table.edges[i];
        assert(view.edges()[i as int] == edge);
        let ghost so_far = rows_of(view, pair, i as nat);
        if let Some(found) = find_row(scene, edge, Ghost(view)) {
            assert(is_row(view, view.edges()[i as int]));
            if found.0 == pair.0 && found.1 == pair.1 {
                put_row(&mut out, edge, rows);
                assert(so_far.push(edge).drop_last() =~= so_far);
            }
        }
        i = i + 1;
    }
    out
}

fn find_spanning(edges: &Vec<u64>, rows: &HashMap<u64, RowMeasure>, full: bool) -> (out: Vec<u64>)
    requires
        forall|k: int| 0 <= k < edges@.len() ==> rows@.contains_key(#[trigger] edges@[k]),
    ensures
        out@ == spanning(rows@, edges@, full),
        forall|k: int| 0 <= k < out@.len() ==> rows@.contains_key(#[trigger] out@[k]),
{
    let mut out: Vec<u64> = Vec::new();
    let mut i: usize = 0;
    assert(edges@.take(0) =~= Seq::<u64>::empty());
    while i < edges.len()
        invariant
            i <= edges.len(),
            forall|k: int| 0 <= k < edges@.len() ==> rows@.contains_key(#[trigger] edges@[k]),
            out@ == spanning(rows@, edges@.take(i as int), full),
            forall|k: int| 0 <= k < out@.len() ==> rows@.contains_key(#[trigger] out@[k]),
        decreases edges.len() - i,
    {
        let edge: u64 = edges[i];
        assert(edges@.take(i + 1).drop_last() =~= edges@.take(i as int));
        assert(edges@.take(i + 1).last() == edge);
        assert(rows@.contains_key(edges@[i as int]));
        if rows.get(&edge).unwrap().full == full {
            out.push(edge);
        }
        i = i + 1;
    }
    assert(edges@.take(edges@.len() as int) =~= edges@);
    out
}

/// Adds an edge like another between two vertices, for two faces.
fn make_edge_like(
    draft: &mut Draft,
    marks: &mut Vec<(u64, u64)>,
    pair: (u64, u64),
    edge: u64,
    a: u64,
    b: u64,
    Ghost(start): Ghost<Seq<EntityView>>,
) -> (out: Result<(), BodyError>)
    requires
        old(draft).wf(start),
    ensures
        final(draft).wf(start),
        final(draft)@.len() >= old(draft)@.len(),
        is_stage(
            out,
            *final(draft),
            final(marks)@,
            with_edge_like(start, (old(draft)@, old(marks)@), pair, edge, a, b),
        ),
{
    let mut params = match find_typed(&draft.entities, &draft.index, edge, "EDGE_CURVE") {
        Some(record) => match &record.parameter {
            Parameter::List(params) => {
                proof {
                    lemma_list_view(*params);
                }
                clone_params(params)
            },
            _ => {
                return Err(BodyError::BadTopology);
            },
        },
        None => {
            return Err(BodyError::BadTopology);
        },
    };
    let ghost views = params_view(params@);
    if params.len() < 5 {
        return Err(BodyError::BadTopology);
    }
    params.set(1, entity_ref(a));
    params.set(2, entity_ref(b));
    assert(params_view(params@) =~= views.update(1, ref_param(a)).update(2, ref_param(b)));
    let id: u64 = push_record(draft, "EDGE_CURVE", params, Ghost(start));
    marks.push((pair.0, id));
    marks.push((pair.1, id));
    Ok(())
}

fn add_full(
    draft: &mut Draft,
    marks: &mut Vec<(u64, u64)>,
    pair: (u64, u64),
    edge: u64,
    evidence: &BodyEvidence,
    vertices: &Vec<u64>,
    Ghost(start): Ghost<Seq<EntityView>>,
) -> (out: Result<(), BodyError>)
    requires
        old(draft).wf(start),
        evidence.rows@.contains_key(edge),
    ensures
        final(draft).wf(start),
        final(draft)@.len() >= old(draft)@.len(),
        is_stage(
            out,
            *final(draft),
            final(marks)@,
            with_full(start, (old(draft)@, old(marks)@), pair, edge, *evidence, vertices@),
        ),
{
    let (a, b) = match edge_vertices(edge, &draft.entities, &draft.index) {
        Some(pair) => pair,
        None => {
            return Err(BodyError::BadTopology);
        },
    };
    let (near, far): (u64, u64) = if evidence.rows.get(&edge).unwrap().turned {
        (b, a)
    } else {
        (a, b)
    };
    match find_vertex_at(&evidence.places, vertices, &evidence.shifted, far) {
        Err(error) => Err(error),
        Ok(vertex) => make_edge_like(draft, marks, pair, edge, near, vertex, Ghost(start)),
    }
}

fn add_moved(
    draft: &mut Draft,
    marks: &mut Vec<(u64, u64)>,
    pair: (u64, u64),
    edge: u64,
    places: &HashMap<u64, u64>,
    vertices: &Vec<u64>,
    moved: &HashMap<u64, u64>,
    Ghost(start): Ghost<Seq<EntityView>>,
) -> (out: Result<(), BodyError>)
    requires
        old(draft).wf(start),
    ensures
        final(draft).wf(start),
        final(draft)@.len() >= old(draft)@.len(),
        is_stage(
            out,
            *final(draft),
            final(marks)@,
            with_moved(
                start,
                (old(draft)@, old(marks)@),
                pair,
                edge,
                places@,
                vertices@,
                moved@,
            ),
        ),
{
    let (a, b) = match edge_vertices(edge, &draft.entities, &draft.index) {
        Some(pair) => pair,
        None => {
            return Err(BodyError::BadTopology);
        },
    };
    match find_vertex_at(places, vertices, moved, a) {
        Err(error) => Err(error),
        Ok(first) => match find_vertex_at(places, vertices, moved, b) {
            Err(error) => Err(error),
            Ok(second) => make_edge_like(draft, marks, pair, edge, first, second, Ghost(start)),
        },
    }
}

proof fn lemma_fulls_stop(
    start: Seq<EntityView>,
    stage: Stage,
    pair: (u64, u64),
    edges: Seq<u64>,
    evidence: BodyEvidence,
    vertices: Seq<u64>,
    n: int,
)
    requires
        0 <= n <= edges.len(),
        with_fulls(start, stage, pair, edges.take(n), evidence, vertices) is Err,
    ensures
        with_fulls(start, stage, pair, edges, evidence, vertices) == with_fulls(
            start,
            stage,
            pair,
            edges.take(n),
            evidence,
            vertices,
        ),
    decreases edges.len(),
{
    if n == edges.len() {
        assert(edges.take(n) =~= edges);
    } else {
        assert(edges.drop_last().take(n) =~= edges.take(n));
        lemma_fulls_stop(start, stage, pair, edges.drop_last(), evidence, vertices, n);
    }
}

fn add_fulls(
    draft: &mut Draft,
    marks: &mut Vec<(u64, u64)>,
    pair: (u64, u64),
    edges: &Vec<u64>,
    evidence: &BodyEvidence,
    vertices: &Vec<u64>,
    Ghost(start): Ghost<Seq<EntityView>>,
) -> (out: Result<(), BodyError>)
    requires
        old(draft).wf(start),
        forall|k: int| 0 <= k < edges@.len() ==> evidence.rows@.contains_key(#[trigger] edges@[k]),
    ensures
        final(draft).wf(start),
        final(draft)@.len() >= old(draft)@.len(),
        is_stage(
            out,
            *final(draft),
            final(marks)@,
            with_fulls(start, (old(draft)@, old(marks)@), pair, edges@, *evidence, vertices@),
        ),
{
    let ghost stage = (draft@, marks@);
    let mut i: usize = 0;
    assert(edges@.take(0) =~= Seq::<u64>::empty());
    while i < edges.len()
        invariant
            i <= edges.len(),
            stage == (old(draft)@, old(marks)@),
            draft.wf(start),
            draft@.len() >= stage.0.len(),
            forall|k: int|
                0 <= k < edges@.len() ==> evidence.rows@.contains_key(#[trigger] edges@[k]),
            with_fulls(start, stage, pair, edges@.take(i as int), *evidence, vertices@) == Ok::<
                _,
                BodyError,
            >((draft@, marks@)),
        decreases edges.len() - i,
    {
        assert(edges@.take(i + 1).drop_last() =~= edges@.take(i as int));
        assert(edges@.take(i + 1).last() == edges@[i as int]);
        if let Err(error) = add_full(
            draft,
            marks,
            pair,
            edges[i],
            evidence,
            vertices,
            Ghost(start),
        ) {
            proof {
                lemma_fulls_stop(start, stage, pair, edges@, *evidence, vertices@, i + 1);
            }
            return Err(error);
        }
        i = i + 1;
    }
    assert(edges@.take(edges@.len() as int) =~= edges@);
    Ok(())
}

proof fn lemma_steps_stop(
    start: Seq<EntityView>,
    stage: Stage,
    pair: (u64, u64),
    edge: u64,
    evidence: BodyEvidence,
    vertices: Seq<u64>,
    n: nat,
    m: nat,
)
    requires
        n <= m,
        with_steps_of(start, stage, pair, edge, evidence, vertices, n) is Err,
    ensures
        with_steps_of(start, stage, pair, edge, evidence, vertices, m) == with_steps_of(
            start,
            stage,
            pair,
            edge,
            evidence,
            vertices,
            n,
        ),
    decreases m,
{
    if n < m {
        lemma_steps_stop(start, stage, pair, edge, evidence, vertices, n, (m - 1) as nat);
    }
}

fn add_steps_of(
    draft: &mut Draft,
    marks: &mut Vec<(u64, u64)>,
    pair: (u64, u64),
    edge: u64,
    evidence: &BodyEvidence,
    vertices: &Vec<u64>,
    count: usize,
    Ghost(start): Ghost<Seq<EntityView>>,
) -> (out: Result<(), BodyError>)
    requires
        old(draft).wf(start),
    ensures
        final(draft).wf(start),
        final(draft)@.len() >= old(draft)@.len(),
        is_stage(
            out,
            *final(draft),
            final(marks)@,
            with_steps_of(
                start,
                (old(draft)@, old(marks)@),
                pair,
                edge,
                *evidence,
                vertices@,
                count as nat,
            ),
        ),
{
    let ghost stage = (draft@, marks@);
    let mut i: usize = 0;
    while i < count
        invariant
            i <= count,
            stage == (old(draft)@, old(marks)@),
            draft.wf(start),
            draft@.len() >= stage.0.len(),
            with_steps_of(start, stage, pair, edge, *evidence, vertices@, i as nat) == Ok::<
                _,
                BodyError,
            >((draft@, marks@)),
        decreases count - i,
    {
        if i >= evidence.stepped.len() {
            proof {
                lemma_steps_stop(
                    start,
                    stage,
                    pair,
                    edge,
                    *evidence,
                    vertices@,
                    (i + 1) as nat,
                    count as nat,
                );
            }
            return Err(BodyError::NotMeasured);
        }
        if let Err(error) = add_moved(
            draft,
            marks,
            pair,
            edge,
            &evidence.places,
            vertices,
            &evidence.stepped[i],
            Ghost(start),
        ) {
            proof {
                lemma_steps_stop(
                    start,
                    stage,
                    pair,
                    edge,
                    *evidence,
                    vertices@,
                    (i + 1) as nat,
                    count as nat,
                );
            }
            return Err(error);
        }
        i = i + 1;
    }
    Ok(())
}

/// Marks edges for two faces.
fn mark_both(marks: &mut Vec<(u64, u64)>, pair: (u64, u64), edges: &Vec<u64>, count: usize)
    requires
        count <= edges@.len(),
    ensures
        final(marks)@ == old(marks)@ + both_marks(pair, edges@.take(count as int)),
{
    let ghost before = marks@;
    let mut i: usize = 0;
    assert(edges@.take(0) =~= Seq::<u64>::empty());
    assert(before + both_marks(pair, edges@.take(0)) =~= before);
    while i < count
        invariant
            i <= count,
            count <= edges@.len(),
            marks@ == before + both_marks(pair, edges@.take(i as int)),
        decreases count - i,
    {
        let edge: u64 = edges[i];
        let ghost rest = both_marks(pair, edges@.take(i as int));
        assert(edges@.take(i + 1).drop_last() =~= edges@.take(i as int));
        assert(edges@.take(i + 1).last() == edge);
        marks.push((pair.0, edge));
        marks.push((pair.1, edge));
        assert(marks@ =~= before + rest.push((pair.0, edge)).push((pair.1, edge)));
        i = i + 1;
    }
}

fn add_gaps(
    draft: &mut Draft,
    marks: &mut Vec<(u64, u64)>,
    pair: (u64, u64),
    edges: &Vec<u64>,
    evidence: &BodyEvidence,
    vertices: &Vec<u64>,
    old_sites: usize,
    new_sites: usize,
    Ghost(start): Ghost<Seq<EntityView>>,
) -> (out: Result<(), BodyError>)
    requires
        old(draft).wf(start),
        old_sites > 0,
    ensures
        final(draft).wf(start),
        final(draft)@.len() >= old(draft)@.len(),
        is_stage(
            out,
            *final(draft),
            final(marks)@,
            with_gaps(
                start,
                (old(draft)@, old(marks)@),
                pair,
                edges@,
                *evidence,
                vertices@,
                old_sites,
                new_sites,
            ),
        ),
{
    if edges.len() == 0 {
        return Ok(());
    }
    if edges.len() - 1 != old_sites {
        return Err(BodyError::BadGaps);
    }
    let kept: usize = if new_sites < old_sites {
        new_sites
    } else {
        old_sites
    };
    mark_both(marks, pair, edges, kept);
    if let Err(error) = add_steps_of(
        draft,
        marks,
        pair,
        edges[old_sites - 1],
        evidence,
        vertices,
        new_sites - kept,
        Ghost(start),
    ) {
        return Err(error);
    }
    add_moved(
        draft,
        marks,
        pair,
        edges[edges.len() - 1],
        &evidence.places,
        vertices,
        &evidence.shifted,
        Ghost(start),
    )
}

fn add_pair(
    draft: &mut Draft,
    marks: &mut Vec<(u64, u64)>,
    scene: &Scene,
    pair: (u64, u64),
    evidence: &BodyEvidence,
    vertices: &Vec<u64>,
    old_sites: usize,
    new_sites: usize,
    Ghost(start): Ghost<Seq<EntityView>>,
    Ghost(view): Ghost<SceneView>,
) -> (out: Result<(), BodyError>)
    requires
        old(draft).wf(start),
        old_sites > 0,
        scene.shows(view),
        all_rows_measured(view, evidence.rows@, view.edges().len()),
    ensures
        final(draft).wf(start),
        final(draft)@.len() >= old(draft)@.len(),
        is_stage(
            out,
            *final(draft),
            final(marks)@,
            with_pair(
                start,
                (old(draft)@, old(marks)@),
                view,
                pair,
                *evidence,
                vertices@,
                old_sites,
                new_sites,
            ),
        ),
{
    let edges = order_rows(scene, pair, &evidence.rows, Ghost(view));
    let full = find_spanning(&edges, &evidence.rows, true);
    let short = find_spanning(&edges, &evidence.rows, false);
    if let Err(error) = add_fulls(draft, marks, pair, &full, evidence, vertices, Ghost(start)) {
        return Err(error);
    }
    add_gaps(
        draft,
        marks,
        pair,
        &short,
        evidence,
        vertices,
        old_sites,
        new_sites,
        Ghost(start),
    )
}

proof fn lemma_pairs_stop(
    start: Seq<EntityView>,
    stage: Stage,
    scene: SceneView,
    evidence: BodyEvidence,
    vertices: Seq<u64>,
    old_sites: usize,
    new_sites: usize,
    n: nat,
    m: nat,
)
    requires
        n <= m,
        with_pairs(start, stage, scene, evidence, vertices, old_sites, new_sites, n) is Err,
    ensures
        with_pairs(start, stage, scene, evidence, vertices, old_sites, new_sites, m) == with_pairs(
            start,
            stage,
            scene,
            evidence,
            vertices,
            old_sites,
            new_sites,
            n,
        ),
    decreases m,
{
    if n < m {
        lemma_pairs_stop(
            start,
            stage,
            scene,
            evidence,
            vertices,
            old_sites,
            new_sites,
            n,
            (m - 1) as nat,
        );
    }
}

/// Adds the edges between stretched faces.
pub(crate) fn add_rows(
    draft: &mut Draft,
    marks: &mut Vec<(u64, u64)>,
    scene: &Scene,
    evidence: &BodyEvidence,
    vertices: &Vec<u64>,
    old_sites: usize,
    new_sites: usize,
    Ghost(start): Ghost<Seq<EntityView>>,
    Ghost(view): Ghost<SceneView>,
) -> (out: Result<(), BodyError>)
    requires
        old(draft).wf(start),
        old_sites > 0,
        scene.shows(view),
    ensures
        final(draft).wf(start),
        final(draft)@.len() >= old(draft)@.len(),
        is_stage(
            out,
            *final(draft),
            final(marks)@,
            with_rows(
                start,
                (old(draft)@, old(marks)@),
                view,
                *evidence,
                vertices@,
                old_sites,
                new_sites,
            ),
        ),
{
    let ghost stage = (draft@, marks@);
    let list = match find_pairs(scene, &evidence.rows, Ghost(view)) {
        Some(list) => list,
        None => {
            return Err(BodyError::NotMeasured);
        },
    };
    let mut i: usize = 0;
    while i < list.len()
        invariant
            i <= list.len(),
            stage == (old(draft)@, old(marks)@),
            draft.wf(start),
            draft@.len() >= stage.0.len(),
            old_sites > 0,
            scene.shows(view),
            all_rows_measured(view, evidence.rows@, view.edges().len()),
            list@ == pairs(view, view.edges().len()),
            with_pairs(
                start,
                stage,
                view,
                *evidence,
                vertices@,
                old_sites,
                new_sites,
                i as nat,
            ) == Ok::<_, BodyError>((draft@, marks@)),
        decreases list.len() - i,
    {
        if let Err(error) = add_pair(
            draft,
            marks,
            scene,
            list[i],
            evidence,
            vertices,
            old_sites,
            new_sites,
            Ghost(start),
            Ghost(view),
        ) {
            proof {
                lemma_pairs_stop(
                    start,
                    stage,
                    view,
                    *evidence,
                    vertices@,
                    old_sites,
                    new_sites,
                    (i + 1) as nat,
                    list@.len(),
                );
            }
            return Err(error);
        }
        i = i + 1;
    }
    Ok(())
}

} // verus!
