//! B-spline curves that are single Bezier spans.

use std::collections::{HashMap, HashSet};
use vstd::prelude::*;

use crate::ast::{
    entities_view, lemma_list_view, params_view, EntityInstance, EntityView, ParamView, Parameter,
    Record, RecordView,
};
use crate::graph::{
    build_index, entity_ref_list, holds, inbound_map, indexes, lists_holders, ref_list,
};
use crate::number::{equal_numbers, is_finite, is_finite_number, same_number};
use crate::text::same_text;

verus! {

broadcast use vstd::std_specs::hash::group_hash_axioms;

/// What the pass has changed.
#[derive(Debug, Clone, Copy)]
pub struct BezierRecoveryStats {
    pub curves_recovered: usize,
}

/// Whether a record is a B-spline curve of one clamped span: with one pole more than its
/// degree, both end knots as often as there are poles, and two different finite knots.
pub open spec fn single_span(record: RecordView) -> bool {
    &&& record.parameter matches ParamView::List(params)
    &&& params.len() == 9
    &&& params[1] matches ParamView::Integer(degree)
    &&& degree >= 1
    &&& ref_list(params[2]) matches Some(poles)
    &&& poles.len() == degree + 1
    &&& params[6] matches ParamView::List(mult)
    &&& mult.len() == 2
    &&& (mult[0] matches ParamView::Integer(m) && m == degree + 1)
    &&& (mult[1] matches ParamView::Integer(m) && m == degree + 1)
    &&& params[7] matches ParamView::List(knots)
    &&& knots.len() == 2
    &&& is_finite_number(knots[0])
    &&& is_finite_number(knots[1])
    &&& !same_number(knots[0], knots[1])
}

/// The type of the entity with an id; a complex entity has none.
pub open spec fn type_of(entities: Seq<EntityView>, id: u64) -> Option<Seq<char>> {
    match crate::graph::record_at(entities, id) {
        Some(record) => Some(record.name),
        None => None,
    }
}

/// Whether an id is held at all, and only by entities of one type.
pub open spec fn held_only_by(entities: Seq<EntityView>, id: u64, name: Seq<char>) -> bool {
    &&& exists|parent: u64| holds(entities, parent, id)
    &&& forall|parent: u64| #[trigger]
        holds(entities, parent, id) ==> type_of(entities, parent) == Some(name)
}

/// Whether a curve may get another parameter range: it is held, and only by edges, which are
/// trimmed by their vertices, and by extruded surfaces that only faces hold.
pub open spec fn range_is_free(entities: Seq<EntityView>, curve: u64) -> bool {
    &&& exists|parent: u64| holds(entities, parent, curve)
    &&& forall|parent: u64| #[trigger]
        holds(entities, parent, curve) ==> {
            ||| type_of(entities, parent) == Some("EDGE_CURVE"@)
            ||| type_of(entities, parent) == Some("SURFACE_OF_LINEAR_EXTRUSION"@) && held_only_by(
                entities,
                parent,
                "ADVANCED_FACE"@,
            )
        }
}

/// Whether an entity is a curve that the pass recovers.
pub open spec fn recoverable(entities: Seq<EntityView>, entity: EntityView) -> bool {
    &&& entity matches EntityView::Simple { id, record }
    &&& record.name == "B_SPLINE_CURVE_WITH_KNOTS"@
    &&& single_span(record)
    &&& range_is_free(entities, id)
}

/// Whether the entities with an id are to be recovered.
pub open spec fn wanted(entities: Seq<EntityView>, id: u64) -> bool {
    exists|i: int|
        0 <= i < entities.len() && (#[trigger] entities[i]).id() == id && recoverable(
            entities,
            entities[i],
        )
}

/// The same curve as a Bezier curve: it keeps the name, degree, poles, form and the two
/// flags.
pub open spec fn as_bezier(entity: EntityView) -> EntityView {
    match entity {
        EntityView::Simple { id, record } => match record.parameter {
            ParamView::List(params) if params.len() >= 6 => EntityView::Simple {
                id,
                record: RecordView {
                    name: "BEZIER_CURVE"@,
                    parameter: ParamView::List(params.take(6)),
                },
            },
            _ => entity,
        },
        EntityView::Complex { .. } => entity,
    }
}

/// The entities with the recovered curves.
pub open spec fn recovered(entities: Seq<EntityView>) -> Seq<EntityView> {
    Seq::new(
        entities.len(),
        |i: int|
            if wanted(entities, entities[i].id()) {
                as_bezier(entities[i])
            } else {
                entities[i]
            },
    )
}

/// Whether an entity has the parameters that a Bezier curve keeps.
pub open spec fn has_curve_params(entity: EntityView) -> bool {
    &&& entity matches EntityView::Simple { record, .. }
    &&& record.parameter matches ParamView::List(params)
    &&& params.len() >= 6
}

/// How many of the first `n` entities become Bezier curves.
pub open spec fn recovered_count(entities: Seq<EntityView>, n: nat) -> nat
    decreases n,
{
    if n == 0 {
        0
    } else {
        recovered_count(entities, (n - 1) as nat) + (if wanted(entities, entities[n - 1].id())
            && has_curve_params(entities[n - 1]) {
            1nat
        } else {
            0
        })
    }
}

fn integer_is(param: &Parameter, value: i128) -> (out: bool)
    ensures
        out == (param@ matches ParamView::Integer(v) && v == value),
{
    match param {
        Parameter::Integer(v) => *v as i128 == value,
        _ => false,
    }
}

/// Whether a record is a B-spline curve of one clamped span.
pub fn is_single_span_bezier(record: &Record) -> (out: bool)
    ensures
        out == single_span(record@),
{
    match &record.parameter {
        Parameter::List(params) => {
            proof {
                lemma_list_view(*params);
            }
            if params.len() != 9 {
                return false;
            }
            let degree: i64 = match &params[1] {
                Parameter::Integer(v) => *v,
                _ => {
                    return false;
                },
            };
            if degree < 1 {
                return false;
            }
            match entity_ref_list(&params[2]) {
                None => {
                    return false;
                },
                Some(poles) => {
                    if poles.len() as i128 != degree as i128 + 1 {
                        return false;
                    }
                },
            }
            match (&params[6], &params[7]) {
                (Parameter::List(mult), Parameter::List(knots)) => {
                    proof {
                        lemma_list_view(*mult);
                        lemma_list_view(*knots);
                    }
                    mult.len() == 2 && integer_is(&mult[0], degree as i128 + 1) && integer_is(
                        &mult[1],
                        degree as i128 + 1,
                    ) && knots.len() == 2 && is_finite(&knots[0]) && is_finite(&knots[1])
                        && !equal_numbers(&knots[0], &knots[1])
                },
                _ => false,
            }
        },
        _ => false,
    }
}

fn has_type(
    entities: &Vec<EntityInstance>,
    index: &HashMap<u64, usize>,
    id: u64,
    name: &str,
) -> (out: bool)
    requires
        indexes(index@, entities_view(entities@)),
    ensures
        out == (type_of(entities_view(entities@), id) == Some(name@)),
{
    match crate::graph::find_record(entities, index, id) {
        Some(record) => same_text(record.name.as_str(), name),
        None => false,
    }
}

/// Whether a surface is held at all, and only by faces.
pub fn surface_usage_is_topological_only(
    surface: u64,
    entities: &Vec<EntityInstance>,
    index: &HashMap<u64, usize>,
    inbound: &HashMap<u64, Vec<u64>>,
) -> (out: bool)
    requires
        indexes(index@, entities_view(entities@)),
        lists_holders(inbound@, entities_view(entities@)),
    ensures
        out == held_only_by(entities_view(entities@), surface, "ADVANCED_FACE"@),
{
    let ghost views = entities_view(entities@);
    match inbound.get(&surface) {
        None => false,
        Some(parents) => {
            assert(holds(views, inbound@[surface]@[0], surface));
            let mut i: usize = 0;
            while i < parents.len()
                invariant
                    i <= parents.len(),
                    views == entities_view(entities@),
                    indexes(index@, views),
                    lists_holders(inbound@, views),
                    inbound@.contains_key(surface),
                    inbound@[surface] == *parents,
                    forall|j: int|
                        0 <= j < i ==> type_of(views, #[trigger] parents@[j]) == Some(
                            "ADVANCED_FACE"@,
                        ),
                decreases parents.len() - i,
            {
                if !has_type(entities, index, parents[i], "ADVANCED_FACE") {
                    assert(holds(views, inbound@[surface]@[i as int], surface));
                    return false;
                }
                i = i + 1;
            }
            assert forall|parent: u64| #[trigger] holds(views, parent, surface) implies type_of(
                views,
                parent,
            ) == Some("ADVANCED_FACE"@) by {
                let j = choose|j: int| 0 <= j < parents@.len() && parents@[j] == parent;
                assert(parents@[j] == parent);
            }
            true
        },
    }
}

/// Whether a curve may get another parameter range.
pub fn parameter_usage_is_safe(
    curve: u64,
    entities: &Vec<EntityInstance>,
    index: &HashMap<u64, usize>,
    inbound: &HashMap<u64, Vec<u64>>,
) -> (out: bool)
    requires
        indexes(index@, entities_view(entities@)),
        lists_holders(inbound@, entities_view(entities@)),
    ensures
        out == range_is_free(entities_view(entities@), curve),
{
    let ghost views = entities_view(entities@);
    let ghost fine = |parent: u64|
        {
            ||| type_of(views, parent) == Some("EDGE_CURVE"@)
            ||| type_of(views, parent) == Some("SURFACE_OF_LINEAR_EXTRUSION"@) && held_only_by(
                views,
                parent,
                "ADVANCED_FACE"@,
            )
        };
    match inbound.get(&curve) {
        None => false,
        Some(parents) => {
            assert(holds(views, inbound@[curve]@[0], curve));
            let mut i: usize = 0;
            while i < parents.len()
                invariant
                    i <= parents.len(),
                    views == entities_view(entities@),
                    indexes(index@, views),
                    lists_holders(inbound@, views),
                    inbound@.contains_key(curve),
                    inbound@[curve] == *parents,
                    fine == (|parent: u64|
                        {
                            ||| type_of(views, parent) == Some("EDGE_CURVE"@)
                            ||| type_of(views, parent) == Some("SURFACE_OF_LINEAR_EXTRUSION"@)
                                && held_only_by(views, parent, "ADVANCED_FACE"@)
                        }),
                    forall|j: int| 0 <= j < i ==> fine(#[trigger] parents@[j]),
                decreases parents.len() - i,
            {
                let parent: u64 = parents[i];
                let safe = has_type(entities, index, parent, "EDGE_CURVE") || (has_type(
                    entities,
                    index,
                    parent,
                    "SURFACE_OF_LINEAR_EXTRUSION",
                ) && surface_usage_is_topological_only(parent, entities, index, inbound));
                if !safe {
                    assert(holds(views, inbound@[curve]@[i as int], curve));
                    assert(!fine(parent));
                    return false;
                }
                assert(fine(parent));
                i = i + 1;
            }
            assert forall|parent: u64| #[trigger] holds(views, parent, curve) implies fine(parent) by {
                let j = choose|j: int| 0 <= j < parents@.len() && parents@[j] == parent;
                assert(parents@[j] == parent);
            }
            true
        },
    }
}

/// A copy of an entity as a Bezier curve.
fn make_bezier(entity: &EntityInstance) -> (out: EntityInstance)
    ensures
        out@ == as_bezier(entity@),
{
    match entity {
        EntityInstance::Complex { .. } => entity.clone(),
        EntityInstance::Simple { id, record } => match &record.parameter {
            Parameter::List(params) => {
                proof {
                    lemma_list_view(*params);
                }
                if params.len() < 6 {
                    return entity.clone();
                }
                let mut base: Vec<Parameter> = Vec::new();
                let mut i: usize = 0;
                while i < 6
                    invariant
                        i <= 6,
                        6 <= params.len(),
                        base.len() == i,
                        forall|j: int| 0 <= j < i ==> (#[trigger] base@[j])@ == params@[j]@,
                    decreases 6 - i,
                {
                    base.push(params[i].clone());
                    i = i + 1;
                }
                proof {
                    lemma_list_view(base);
                    assert(params_view(base@) =~= params_view(params@).take(6));
                }
                EntityInstance::Simple {
                    id: *id,
                    record: Record {
                        name: "BEZIER_CURVE".to_owned(),
                        parameter: Parameter::List(base),
                    },
                }
            },
            _ => entity.clone(),
        },
    }
}

/// Turns the B-spline curves that are single spans into Bezier curves, where nothing depends
/// on their parameter range.
pub fn recover_exact_bezier_curves(entities: &mut Vec<EntityInstance>) -> (stats:
    BezierRecoveryStats)
    ensures
        entities_view(final(entities)@) == recovered(entities_view(old(entities)@)),
        stats.curves_recovered == recovered_count(
            entities_view(old(entities)@),
            old(entities)@.len(),
        ),
{
    let ghost views = entities_view(entities@);
    let index = build_index(entities);
    let inbound = inbound_map(entities);
    let mut chosen: HashSet<u64> = HashSet::new();
    let mut i: usize = 0;
    while i < entities.len()
        invariant
            i <= entities.len(),
            views == entities_view(entities@),
            *entities == *old(entities),
            indexes(index@, views),
            lists_holders(inbound@, views),
            forall|id: u64| #[trigger] chosen@.contains(id) ==> wanted(views, id),
            forall|j: int|
                0 <= j < i && recoverable(views, #[trigger] views[j]) ==> chosen@.contains(
                    views[j].id(),
                ),
        decreases entities.len() - i,
    {
        assert(views[i as int] == entities@[i as int]@);
        if let EntityInstance::Simple { id, record } = &entities[i] {
            if same_text(record.name.as_str(), "B_SPLINE_CURVE_WITH_KNOTS")
                && is_single_span_bezier(record) && parameter_usage_is_safe(
                *id,
                entities,
                &index,
                &inbound,
            ) {
                assert(recoverable(views, views[i as int]));
                chosen.insert(*id);
            }
        }
        i = i + 1;
    }
    assert forall|id: u64| #[trigger] chosen@.contains(id) == wanted(views, id) by {
        if wanted(views, id) {
            let j = choose|j: int|
                0 <= j < views.len() && (#[trigger] views[j]).id() == id && recoverable(
                    views,
                    views[j],
                );
            assert(recoverable(views, views[j]));
        }
    }
    let mut count: usize = 0;
    let mut out: Vec<EntityInstance> = Vec::new();
    let mut k: usize = 0;
    while k < entities.len()
        invariant
            k <= entities.len(),
            out.len() == k,
            views == entities_view(entities@),
            *entities == *old(entities),
            forall|id: u64| #[trigger] chosen@.contains(id) == wanted(views, id),
            count <= k,
            count == recovered_count(views, k as nat),
            forall|j: int| 0 <= j < k ==> (#[trigger] out@[j])@ == recovered(views)[j],
        decreases entities.len() - k,
    {
        let entity = &entities[k];
        assert(views[k as int] == entity@);
        let id: u64 = crate::ast::entity_id(entity);
        if chosen.contains(&id) {
            out.push(make_bezier(entity));
            if keeps_params(entity) {
                count = count + 1;
            }
        } else {
            out.push(entity.clone());
        }
        k = k + 1;
    }
    *entities = out;
    assert(entities_view(entities@) =~= recovered(views));
    BezierRecoveryStats { curves_recovered: count }
}

fn keeps_params(entity: &EntityInstance) -> (out: bool)
    ensures
        out == has_curve_params(entity@),
{
    match entity {
        EntityInstance::Complex { .. } => false,
        EntityInstance::Simple { record, .. } => match &record.parameter {
            Parameter::List(params) => {
                proof {
                    lemma_list_view(*params);
                }
                params.len() >= 6
            },
            _ => false,
        },
    }
}

} // verus!
