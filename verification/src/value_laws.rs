//! What the passes over single curves, names and values keep.

use vstd::prelude::*;

use crate::ast::{EntityView, ParamView, RecordView};
use crate::bezier_recovery::{recoverable, recovered, type_of, wanted};
use crate::body_copies::{copy_of, Spot};
use crate::curve_replicas::{curve_form, with_replica, CurveShift, ReplicaView};
use crate::graph::{holds, max_id, nth, nth_ref, nth_ref_list, record_at, ref_list, simple_record};
use crate::instance_laws::has_triple;
use crate::intern::{first_with_key, key_text, pending, resolve, resolver};
use crate::lookup::{lemma_new_found, numbered_from};
use crate::minify::{minified, minified_record};
use crate::refs::{entity_refs, lookup, map_entity};
use crate::settled::{distinct, lemma_first, lemma_identity_entity, lemma_mapped_entity};
use crate::unambiguous::body_text;

verus! {

/// Whether a list says one number as often as it has places.
pub open spec fn says_only(p: Option<ParamView>, times: int, value: int) -> bool {
    &&& p matches Some(ParamView::List(items))
    &&& items.len() == times
    &&& forall|i: int|
        0 <= i < items.len() ==> (#[trigger] items[i] matches ParamView::Integer(v) && v == value)
}

/// A curve that becomes a Bezier curve keeps its id, and its name, degree, poles, form and
/// flags in their places, and has nothing behind them. It had one span: as many poles as each
/// of its two end knots is repeated, which is one more than its degree. Only edges and extruded
/// surfaces refer to it. Every other entity stays as it is.
pub proof fn law_bezier_is_the_same_curve(entities: Seq<EntityView>, i: int)
    requires
        distinct(entities),
        0 <= i < entities.len(),
    ensures
        recovered(entities).len() == entities.len(),
        recovered(entities)[i].id() == entities[i].id(),
        recovered(entities)[i] == entities[i] || {
            &&& simple_record(entities[i]) matches Some(before)
            &&& simple_record(recovered(entities)[i]) matches Some(after)
            &&& before.name == "B_SPLINE_CURVE_WITH_KNOTS"@
            &&& after.name == "BEZIER_CURVE"@
            &&& forall|n: int| n < 6 ==> #[trigger] nth(after, n) == nth(before, n)
            &&& nth(after, 6) is None
            &&& nth_ref_list(before, 2) matches Some(poles)
            &&& nth(before, 1) == Some(ParamView::Integer((poles.len() - 1) as i64))
            &&& poles.len() >= 2
            &&& says_only(nth(before, 6), 2, poles.len() as int)
            &&& forall|parent: u64| #[trigger]
                holds(entities, parent, entities[i].id()) ==> type_of(entities, parent) == Some(
                    "EDGE_CURVE"@,
                ) || type_of(entities, parent) == Some("SURFACE_OF_LINEAR_EXTRUSION"@)
        },
{
    let id = entities[i].id();
    if wanted(entities, id) {
        let j = choose|j: int|
            0 <= j < entities.len() && (#[trigger] entities[j]).id() == id && recoverable(
                entities,
                entities[j],
            );
        assert(i == j);
        let before = simple_record(entities[i])->Some_0;
        let after = simple_record(recovered(entities)[i])->Some_0;
        let params = before.parameter->List_0;
        let mult = params[6]->List_0;
        assert forall|n: int| n < 6 implies #[trigger] nth(after, n) == nth(before, n) by {
            if 0 <= n {
                assert(params.take(6)[n] == params[n]);
            }
        }
        let poles = ref_list(params[2])->Some_0;
        assert(says_only(nth(before, 6), 2, poles.len() as int));
    }
}

/// Whether two records agree but for a name `NONE`, which may have become empty.
pub open spec fn agree_but_placeholder(before: RecordView, after: RecordView) -> bool {
    &&& after.name == before.name
    &&& after == before || {
        &&& nth(before, 0) == Some(ParamView::String("NONE"@))
        &&& nth(after, 0) == Some(ParamView::String(Seq::empty()))
        &&& forall|n: int| n != 0 ==> #[trigger] nth(after, n) == nth(before, n)
    }
}

/// Taking out placeholders changes no id and no type, and no parameter but a first one that is
/// the text `NONE`, which becomes the empty text. Points, directions, curves, edges and faces
/// have no such name afterwards.
pub proof fn law_minified_keeps_values(entities: Seq<EntityView>, i: int, k: int)
    requires
        0 <= i < entities.len(),
        0 <= k < entities[i].records().len(),
    ensures
        minified(entities).len() == entities.len(),
        minified(entities)[i].id() == entities[i].id(),
        minified(entities)[i] is Simple == entities[i] is Simple,
        minified(entities)[i].records().len() == entities[i].records().len(),
        agree_but_placeholder(
            entities[i].records()[k],
            minified(entities)[i].records()[k],
        ),
        ({
            let after = minified(entities)[i].records()[k];
            after.name == "CARTESIAN_POINT"@ || after.name == "DIRECTION"@ || after.name
                == "VERTEX_POINT"@ || after.name == "EDGE_CURVE"@ || after.name
                == "ADVANCED_FACE"@ || after.name == "B_SPLINE_CURVE_WITH_KNOTS"@ ==> nth(
                after,
                0,
            ) != Some(ParamView::String("NONE"@))
        }),
{
    let before = entities[i].records()[k];
    let after = minified(entities)[i].records()[k];
    assert(after == minified_record(before));
    reveal_strlit("NONE");
    assert("NONE"@.len() == 4);
    assert(Seq::<char>::empty().len() == 0);
    match before.parameter {
        ParamView::List(items) => {
            if after != before {
                assert forall|n: int| n != 0 implies #[trigger] nth(after, n) == nth(before, n) by {}
            }
        },
        _ => {},
    }
}

/// Whether the new entities behind others hold a translation: an operator without axes and
/// scale, at a point with the three numbers in their order.
pub open spec fn translates(
    added: Seq<EntityView>,
    operator: u64,
    x: Seq<char>,
    y: Seq<char>,
    z: Seq<char>,
) -> bool {
    &&& record_at(added, operator) matches Some(record)
    &&& record.name == "CARTESIAN_TRANSFORMATION_OPERATOR_3D"@
    &&& nth(record, 3) == Some(ParamView::NotProvided)
    &&& nth(record, 4) == Some(ParamView::NotProvided)
    &&& nth(record, 6) == Some(ParamView::NotProvided)
    &&& nth(record, 7) == Some(ParamView::NotProvided)
    &&& nth(record, 8) is None
    &&& nth_ref(record, 5) matches Some(point)
    &&& has_triple(added, point, "CARTESIAN_POINT"@, x, y, z)
}

/// A curve that lies where another one does is replaced by it. Any other becomes a replica of
/// it, under its own id and name, moved by the translation that was measured; a translation
/// that was met before is used again. What had been made before stays.
#[verifier::spinoff_prover]
pub proof fn law_replica_is_moved_to_its_curve(
    entities: Seq<EntityView>,
    so_far: ReplicaView,
    canonical: u64,
    target: EntityView,
    shift: CurveShift,
)
    requires
        curve_form(entities, target) is Some,
        max_id(entities) + so_far.added.len() + 2 <= u64::MAX,
        numbered_from(so_far.added, max_id(entities)),
    ensures
        ({
            let made = with_replica(entities, so_far, canonical, target, shift);
            let id = target.id();
            let known = so_far.operators.contains_key(shift.translation);
            &&& numbered_from(made.added, max_id(entities))
            &&& forall|other: u64|
                #[trigger] so_far.replicas.contains_key(other) && other != id
                    ==> made.replicas.contains_key(other) && made.replicas[other]
                    == so_far.replicas[other]
            &&& forall|other: u64|
                #[trigger] so_far.alias.contains_key(other) && other != id
                    ==> made.alias.contains_key(other) && made.alias[other] == so_far.alias[other]
            &&& shift.still ==> {
                &&& made.alias.contains_key(id) && made.alias[id] == canonical
                &&& made.replicas == so_far.replicas
                &&& made.added == so_far.added
            }
            &&& !shift.still ==> {
                &&& made.alias == so_far.alias
                &&& made.replicas.contains_key(id)
                &&& made.replicas[id].id() == id
                &&& simple_record(made.replicas[id]) matches Some(record)
                &&& record.name == "CURVE_REPLICA"@
                &&& nth(record, 0) == nth(simple_record(target)->Some_0, 0)
                &&& nth_ref(record, 1) == Some(canonical)
                &&& nth(record, 3) is None
                &&& nth_ref(record, 2) matches Some(operator)
                &&& made.operators.contains_key(shift.translation)
                &&& made.operators[shift.translation] == operator
                &&& known ==> operator == so_far.operators[shift.translation] && made.added
                    == so_far.added
                &&& !known ==> translates(made.added, operator, shift.x@, shift.y@, shift.z@)
            }
        }),
{
    let made = with_replica(entities, so_far, canonical, target, shift);
    let last = max_id(entities);
    if !shift.still && !so_far.operators.contains_key(shift.translation) {
        let n = so_far.added.len() as int;
        assert forall|j: int| 0 <= j < made.added.len() implies (#[trigger] made.added[j]).id()
            == last + 1 + j by {
            if j < n {
                assert(made.added[j] == so_far.added[j]);
            }
        }
        lemma_new_found(made.added, last, n);
        lemma_new_found(made.added, last, n + 1);
    }
}

/// A copy stands under the new id and refers, in the same places, to what the map gives for
/// each reference. A point gets the coordinates of its spot, in their order, and keeps its
/// name; everything else is kept.
pub proof fn law_copy_refers_to_copies(
    entity: EntityView,
    id: u64,
    map: Map<u64, u64>,
    spots: Map<u64, Spot>,
)
    requires
        copy_of(entity, id, map, spots) is Ok,
    ensures
        ({
            let copy = copy_of(entity, id, map, spots)->Ok_0;
            let is_point = simple_record(entity) matches Some(record) && record.name
                == "CARTESIAN_POINT"@;
            &&& copy.id() == id
            &&& copy is Simple == entity is Simple
            &&& copy.records().len() == entity.records().len()
            &&& forall|k: int|
                0 <= k < copy.records().len() ==> (#[trigger] copy.records()[k]).name
                    == entity.records()[k].name
            &&& !is_point ==> entity_refs(copy) == entity_refs(entity).map_values(lookup(map))
            &&& !is_point && (forall|k: int|
                0 <= k < entity_refs(entity).len() ==> !map.contains_key(
                    #[trigger] entity_refs(entity)[k],
                )) ==> copy.with_id(entity.id()) == entity
            &&& is_point ==> {
                &&& spots.contains_key(entity.id())
                &&& simple_record(copy) matches Some(record)
                &&& nth(record, 1) == Some(
                    ParamView::List(
                        seq![
                            ParamView::Real(spots[entity.id()].x@),
                            ParamView::Real(spots[entity.id()].y@),
                            ParamView::Real(spots[entity.id()].z@),
                        ],
                    ),
                )
                &&& nth(record, 0) is Some == nth(simple_record(entity)->Some_0, 0) is Some
            }
        }),
{
    let f = lookup(map);
    lemma_mapped_entity(entity, f);
    let mapped = map_entity(entity, f);
    let copy = copy_of(entity, id, map, spots)->Ok_0;
    assert(mapped.with_id(id).records() == mapped.records());
    assert(entity_refs(mapped.with_id(id)) == entity_refs(mapped));
    if forall|k: int|
        0 <= k < entity_refs(entity).len() ==> !map.contains_key(
            #[trigger] entity_refs(entity)[k],
        ) {
        lemma_identity_entity(entity, f);
    }
}

/// Whether a value is given up for another one that is written in the same way, when every
/// reference is replaced by what stands for it.
pub open spec fn is_written_alike(
    entities: Seq<EntityView>,
    alias: Map<u64, u64>,
    pair: (u64, u64),
    i: int,
    j: int,
) -> bool {
    &&& 0 <= i < j < entities.len()
    &&& pair.0 == entities[j].id()
    &&& pair.1 == resolve(alias, entities[i].id())
    &&& pair.0 != pair.1
    &&& body_text(map_entity(entities[i], resolver(alias))) == body_text(
        map_entity(entities[j], resolver(alias)),
    )
}

/// A value is given up only for an earlier one that is written in the same way: types, names,
/// numbers and all.
pub proof fn law_values_given_up_are_written_alike(
    entities: Seq<EntityView>,
    alias: Map<u64, u64>,
    n: nat,
    k: int,
)
    requires
        n <= entities.len(),
        0 <= k < pending(entities, alias, n).len(),
    ensures
        exists|i: int, j: int| #[trigger]
            is_written_alike(entities, alias, pending(entities, alias, n)[k], i, j),
    decreases n,
{
    let rest = pending(entities, alias, (n - 1) as nat);
    if k < rest.len() {
        law_values_given_up_are_written_alike(entities, alias, (n - 1) as nat, k);
        assert(pending(entities, alias, n)[k] == rest[k]);
    } else {
        let entity = entities[n - 1];
        let key = key_text(entity, alias);
        lemma_first(entities, alias, key, (n - 1) as nat);
        let i = first_with_key(entities, alias, key, (n - 1) as nat)->Some_0;
        assert(is_written_alike(entities, alias, pending(entities, alias, n)[k], i, n - 1));
    }
}

} // verus!
