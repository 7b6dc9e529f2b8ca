//! New bounds for a face.

use vstd::prelude::*;

use crate::ast::{lemma_list_view, params_view, EntityInstance, EntityView, ParamView, Parameter};
use crate::body_cycles::{cycles, loops_view, trace_cycles, Traversal};
use crate::body_graph::{
    edge_vertices, ends, id_at, push_record, put_entity, with_new, BodyError, Draft,
};
use crate::brep::{push_refs, with_param};
use crate::face_coalesce::{ref_param, ref_params};
use crate::graph::{entity_ref, lemma_position, position, record_at, simple_entity};

verus! {

broadcast use vstd::std_specs::hash::group_hash_axioms;

/// How a loop runs around a face: as its outer loop did before, the other way, or around no area.
#[derive(Debug, Clone, Copy, PartialEq, Eq, Structural)]
pub enum Winding {
    Along,
    Against,
    Flat,
}

/// What was measured of the loops of a face.
#[derive(Debug)]
pub struct LoopMeasure {
    /// The outer loop was around no area.
    pub flat: bool,
    /// The first hole ran along the outer loop.
    pub holes_along: bool,
    /// The new loop around the largest area.
    pub outer: usize,
    pub windings: Vec<Winding>,
}

/// The same way, backwards.
pub open spec fn flipped(steps: Seq<Traversal>) -> Seq<Traversal> {
    Seq::new(
        steps.len(),
        |i: int|
            {
                let step = steps[steps.len() - 1 - i];
                Traversal { edge: step.edge, start: step.end, end: step.start }
            },
    )
}

/// A step as an oriented edge.
pub open spec fn step_params(entities: Seq<EntityView>, step: Traversal) -> Seq<ParamView> {
    seq![
        ParamView::String(Seq::empty()),
        ParamView::Omitted,
        ParamView::Omitted,
        ref_param(step.edge),
        ParamView::Enumeration(
            if ends(entities, step.edge) == Some((step.start, step.end)) {
                "T"@
            } else {
                "F"@
            },
        ),
    ]
}

/// The entities with oriented edges for the first `n` steps.
pub open spec fn with_steps(
    start: Seq<EntityView>,
    entities: Seq<EntityView>,
    steps: Seq<Traversal>,
    n: nat,
) -> Seq<EntityView>
    decreases n,
{
    if n == 0 {
        entities
    } else {
        let before = with_steps(start, entities, steps, (n - 1) as nat);
        with_new(start, before, "ORIENTED_EDGE"@, step_params(before, steps[n - 1]))
    }
}

/// The ids of entities in consecutive places.
pub open spec fn ids_from(start: Seq<EntityView>, first: int, n: nat) -> Seq<u64> {
    Seq::new(n, |i: int| id_at(start, first + i))
}

/// The entities with a bound around some steps.
pub open spec fn with_bound(
    start: Seq<EntityView>,
    entities: Seq<EntityView>,
    steps: Seq<Traversal>,
    name: Seq<char>,
) -> Seq<EntityView> {
    let first = with_steps(start, entities, steps, steps.len());
    let second = with_new(
        start,
        first,
        "EDGE_LOOP"@,
        seq![
            ParamView::String(Seq::empty()),
            ParamView::List(ref_params(ids_from(start, entities.len() as int, steps.len()))),
        ],
    );
    with_new(
        start,
        second,
        name,
        seq![
            ParamView::String(Seq::empty()),
            ref_param(id_at(start, first.len() as int)),
            ParamView::Enumeration("T"@),
        ],
    )
}

/// The way that a loop is written: the outer one as before, holes as before.
pub open spec fn directed(
    steps: Seq<Traversal>,
    winding: Winding,
    outer: bool,
    holes_along: bool,
) -> Seq<Traversal> {
    if (winding is Along) != (outer || holes_along) {
        flipped(steps)
    } else {
        steps
    }
}

pub open spec fn bound_name(outer: bool) -> Seq<char> {
    if outer {
        "FACE_OUTER_BOUND"@
    } else {
        "FACE_BOUND"@
    }
}

/// The entities with bounds around the first `n` loops, and the ids of the bounds.
pub open spec fn with_bounds(
    start: Seq<EntityView>,
    entities: Seq<EntityView>,
    loops: Seq<Seq<Traversal>>,
    measure: LoopMeasure,
    n: nat,
) -> Result<(Seq<EntityView>, Seq<u64>), BodyError>
    decreases n,
{
    if n == 0 {
        Ok((entities, Seq::empty()))
    } else {
        match with_bounds(start, entities, loops, measure, (n - 1) as nat) {
            Err(error) => Err(error),
            Ok((before, bounds)) => {
                let outer = n - 1 == measure.outer;
                let winding = measure.windings@[n - 1];
                if winding is Flat {
                    Err(BodyError::ZeroArea)
                } else {
                    let after = with_bound(
                        start,
                        before,
                        directed(loops[n - 1], winding, outer, measure.holes_along),
                        bound_name(outer),
                    );
                    Ok((after, bounds.push(id_at(start, after.len() - 1))))
                }
            },
        }
    }
}

/// The entities with another list in the second parameter of one, which needs some parameters.
pub open spec fn with_list(entities: Seq<EntityView>, id: u64, ids: Seq<u64>, least: int) -> Result<
    Seq<EntityView>,
    BodyError,
> {
    match record_at(entities, id) {
        Some(record) => match record.parameter {
            ParamView::List(params) => if params.len() < least {
                Err(BodyError::BadTopology)
            } else {
                Ok(
                    entities.update(
                        position(entities, id)->Some_0,
                        simple_entity(
                            id,
                            record.name,
                            params.update(1, ParamView::List(ref_params(ids))),
                        ),
                    ),
                )
            },
            _ => Err(BodyError::BadTopology),
        },
        None => Err(BodyError::BadTopology),
    }
}

/// The entities with bounds for a face along edges.
pub open spec fn rebuilt(
    start: Seq<EntityView>,
    entities: Seq<EntityView>,
    face: u64,
    edges: Seq<u64>,
    measure: LoopMeasure,
) -> Result<Seq<EntityView>, BodyError> {
    if measure.flat {
        Err(BodyError::ZeroArea)
    } else {
        match cycles(entities, edges) {
            Err(error) => Err(error),
            Ok(loops) => if loops.len() == 0 {
                Err(BodyError::NoLoop)
            } else if loops.len() != measure.windings@.len() || measure.outer >= loops.len() {
                Err(BodyError::NotMeasured)
            } else {
                match with_bounds(start, entities, loops, measure, loops.len()) {
                    Err(error) => Err(error),
                    Ok((more, bounds)) => with_list(more, face, bounds, 4),
                }
            },
        }
    }
}

/// Going backwards twice leads the same way.
pub proof fn law_flipped_twice(steps: Seq<Traversal>)
    ensures
        flipped(flipped(steps)) == steps,
{
    assert(flipped(flipped(steps)) =~= steps);
}

fn flip(steps: &Vec<Traversal>) -> (out: Vec<Traversal>)
    ensures
        out@ == flipped(steps@),
{
    let mut out: Vec<Traversal> = Vec::new();
    let mut i: usize = 0;
    while i < steps.len()
        invariant
            i <= steps.len(),
            out@ == flipped(steps@).take(i as int),
        decreases steps.len() - i,
    {
        let step = steps[steps.len() - 1 - i];
        out.push(Traversal { edge: step.edge, start: step.end, end: step.start });
        i = i + 1;
        assert(out@ =~= flipped(steps@).take(i as int));
    }
    assert(flipped(steps@).take(steps@.len() as int) =~= flipped(steps@));
    out
}

proof fn lemma_steps_len(
    start: Seq<EntityView>,
    entities: Seq<EntityView>,
    steps: Seq<Traversal>,
    n: nat,
)
    ensures
        with_steps(start, entities, steps, n).len() == entities.len() + n,
    decreases n,
{
    if n > 0 {
        lemma_steps_len(start, entities, steps, (n - 1) as nat);
    }
}

/// Appends oriented edges for steps, and gives their ids.
fn push_steps(draft: &mut Draft, steps: &Vec<Traversal>, Ghost(start): Ghost<Seq<EntityView>>) -> (out:
    Vec<u64>)
    requires
        old(draft).wf(start),
    ensures
        final(draft).wf(start),
        final(draft)@ == with_steps(start, old(draft)@, steps@, steps@.len()),
        out@ == ids_from(start, old(draft)@.len() as int, steps@.len()),
{
    let ghost before = draft@;
    let mut out: Vec<u64> = Vec::new();
    let mut i: usize = 0;
    while i < steps.len()
        invariant
            i <= steps.len(),
            draft.wf(start),
            draft@ == with_steps(start, before, steps@, i as nat),
            out@ == ids_from(start, before.len() as int, i as nat),
        decreases steps.len() - i,
    {
        proof {
            lemma_steps_len(start, before, steps@, i as nat);
        }
        let ghost views = draft@;
        let step = steps[i];
        let forward = match edge_vertices(step.edge, &draft.entities, &draft.index) {
            Some((a, b)) => a == step.start && b == step.end,
            None => false,
        };
        let mut params: Vec<Parameter> = Vec::new();
        params.push(Parameter::String(String::new()));
        params.push(Parameter::Omitted);
        params.push(Parameter::Omitted);
        params.push(entity_ref(step.edge));
        let way = if forward {
            "T".to_string()
        } else {
            "F".to_string()
        };
        params.push(Parameter::Enumeration(way));
        assert(params_view(params@) =~= step_params(views, step));
        let id: u64 = push_record(draft, "ORIENTED_EDGE", params, Ghost(start));
        out.push(id);
        assert(out@ =~= ids_from(start, before.len() as int, (i + 1) as nat));
        i = i + 1;
    }
    out
}

/// References to entities as a list.
pub(crate) fn refs_param(ids: &Vec<u64>) -> (out: Parameter)
    ensures
        out@ == ParamView::List(ref_params(ids@)),
{
    let mut list: Vec<Parameter> = Vec::new();
    assert(params_view(list@) =~= Seq::<ParamView>::empty());
    push_refs(&mut list, ids);
    assert(params_view(list@) =~= ref_params(ids@));
    proof {
        lemma_list_view(list);
    }
    Parameter::List(list)
}

/// Appends a bound around steps, and gives its id.
fn push_bound(
    draft: &mut Draft,
    steps: &Vec<Traversal>,
    outer: bool,
    Ghost(start): Ghost<Seq<EntityView>>,
) -> (id: u64)
    requires
        old(draft).wf(start),
    ensures
        final(draft).wf(start),
        final(draft)@ == with_bound(start, old(draft)@, steps@, bound_name(outer)),
        id == id_at(start, final(draft)@.len() - 1),
{
    let oes = push_steps(draft, steps, Ghost(start));
    let mut params: Vec<Parameter> = Vec::new();
    params.push(Parameter::String(String::new()));
    params.push(refs_param(&oes));
    assert(params_view(params@) =~= seq![
        ParamView::String(Seq::empty()),
        ParamView::List(ref_params(oes@)),
    ]);
    let edge_loop: u64 = push_record(draft, "EDGE_LOOP", params, Ghost(start));
    let mut around: Vec<Parameter> = Vec::new();
    around.push(Parameter::String(String::new()));
    around.push(entity_ref(edge_loop));
    around.push(Parameter::Enumeration("T".to_string()));
    assert(params_view(around@) =~= seq![
        ParamView::String(Seq::empty()),
        ref_param(edge_loop),
        ParamView::Enumeration("T"@),
    ]);
    if outer {
        push_record(draft, "FACE_OUTER_BOUND", around, Ghost(start))
    } else {
        push_record(draft, "FACE_BOUND", around, Ghost(start))
    }
}

proof fn lemma_bounds_stop(
    start: Seq<EntityView>,
    entities: Seq<EntityView>,
    loops: Seq<Seq<Traversal>>,
    measure: LoopMeasure,
    n: nat,
    m: nat,
)
    requires
        n <= m,
        with_bounds(start, entities, loops, measure, n) is Err,
    ensures
        with_bounds(start, entities, loops, measure, m) == with_bounds(
            start,
            entities,
            loops,
            measure,
            n,
        ),
    decreases m,
{
    if n < m {
        lemma_bounds_stop(start, entities, loops, measure, n, (m - 1) as nat);
    }
}

/// Appends bounds around loops, and gives their ids.
fn push_bounds(
    draft: &mut Draft,
    loops: &Vec<Vec<Traversal>>,
    measure: &LoopMeasure,
    Ghost(start): Ghost<Seq<EntityView>>,
) -> (out: Result<Vec<u64>, BodyError>)
    requires
        old(draft).wf(start),
        loops@.len() == measure.windings@.len(),
    ensures
        final(draft).wf(start),
        match (
            out,
            with_bounds(start, old(draft)@, loops_view(loops@), *measure, loops@.len()),
        ) {
            (Ok(bounds), Ok((more, ids))) => final(draft)@ == more && bounds@ == ids,
            (Err(a), Err(b)) => a == b,
            _ => false,
        },
{
    let ghost before = draft@;
    let ghost views = loops_view(loops@);
    let mut bounds: Vec<u64> = Vec::new();
    let mut i: usize = 0;
    while i < loops.len()
        invariant
            i <= loops.len(),
            loops@.len() == measure.windings@.len(),
            before == old(draft)@,
            views == loops_view(loops@),
            draft.wf(start),
            with_bounds(start, before, views, *measure, i as nat) == Ok::<_, BodyError>(
                (draft@, bounds@),
            ),
        decreases loops.len() - i,
    {
        assert(views[i as int] == loops@[i as int]@);
        let winding = measure.windings[i];
        let outer = i == measure.outer;
        match winding {
            Winding::Flat => {
                proof {
                    lemma_bounds_stop(
                        start,
                        before,
                        views,
                        *measure,
                        (i + 1) as nat,
                        views.len(),
                    );
                }
                return Err(BodyError::ZeroArea);
            },
            _ => {},
        }
        let along = match winding {
            Winding::Along => true,
            _ => false,
        };
        let wanted = outer || measure.holes_along;
        let id: u64 = if along != wanted {
            let turned = flip(&loops[i]);
            push_bound(draft, &turned, outer, Ghost(start))
        } else {
            push_bound(draft, &loops[i], outer, Ghost(start))
        };
        bounds.push(id);
        i = i + 1;
    }
    Ok(bounds)
}

/// Gives an entity another list in its second parameter.
pub(crate) fn set_list(
    draft: &mut Draft,
    id: u64,
    ids: &Vec<u64>,
    least: usize,
    Ghost(start): Ghost<Seq<EntityView>>,
) -> (out: Result<(), BodyError>)
    requires
        old(draft).wf(start),
        least >= 2,
    ensures
        final(draft).wf(start),
        match (out, with_list(old(draft)@, id, ids@, least as int)) {
            (Ok(_), Ok(more)) => final(draft)@ == more,
            (Err(a), Err(b)) => a == b,
            _ => false,
        },
{
    let ghost views = draft@;
    let at: usize = match draft.index.get(&id) {
        Some(at) => *at,
        None => {
            assert(position(views, id) is None);
            return Err(BodyError::BadTopology);
        },
    };
    proof {
        assert(draft.index@.contains_key(id));
        lemma_position(views, id);
        assert(views[at as int] == draft.entities@[at as int]@);
    }
    let entity = match &draft.entities[at] {
        EntityInstance::Simple { id: own, record } => match &record.parameter {
            Parameter::List(params) => {
                proof {
                    lemma_list_view(*params);
                }
                if params.len() < least {
                    return Err(BodyError::BadTopology);
                }
                with_param(*own, record, params, 1, refs_param(ids))
            },
            _ => {
                return Err(BodyError::BadTopology);
            },
        },
        EntityInstance::Complex { .. } => {
            return Err(BodyError::BadTopology);
        },
    };
    put_entity(draft, at, entity, Ghost(start));
    Ok(())
}

/// Gives a face bounds along edges.
pub(crate) fn rebuild_face_bounds(
    draft: &mut Draft,
    face: u64,
    edges: &Vec<u64>,
    measure: &LoopMeasure,
    Ghost(start): Ghost<Seq<EntityView>>,
) -> (out: Result<(), BodyError>)
    requires
        old(draft).wf(start),
    ensures
        final(draft).wf(start),
        match (out, rebuilt(start, old(draft)@, face, edges@, *measure)) {
            (Ok(_), Ok(more)) => final(draft)@ == more,
            (Err(a), Err(b)) => a == b,
            _ => false,
        },
{
    if measure.flat {
        return Err(BodyError::ZeroArea);
    }
    let loops = match trace_cycles(edges, &draft.entities, &draft.index) {
        Ok(loops) => loops,
        Err(error) => {
            return Err(error);
        },
    };
    if loops.len() == 0 {
        return Err(BodyError::NoLoop);
    }
    if loops.len() != measure.windings.len() || measure.outer >= loops.len() {
        return Err(BodyError::NotMeasured);
    }
    match push_bounds(draft, &loops, measure, Ghost(start)) {
        Ok(bounds) => set_list(draft, face, &bounds, 4, Ghost(start)),
        Err(error) => Err(error),
    }
}

} // verus!
