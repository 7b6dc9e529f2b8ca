//! Curves that differ by a translation become replicas of one.

use std::collections::HashMap;
use vstd::prelude::*;

use crate::ast::{
    clone_entities, entities_view, entity_id, lemma_list_view, params_view, same_param,
    EntityInstance, EntityView, ParamView, Parameter, Record,
};
use crate::body_graph::id_at;
use crate::brep::{find_coordinates, has_coordinates};
use crate::collapse::{falls, find_fallen};
use crate::face_coalesce::{append_ids, ref_param};
use crate::geometric_intern::{redirect_all, redirected};
use crate::graph::{
    build_index, entity_ref, entity_ref_list, indexes, largest_id, max_id, push_simple, ref_list,
    remove_entities, replace_entity, simple_entity, simple_record, without,
};
use crate::instances::join_entities;
use crate::placements::{push_triple, triple};
use crate::text::same_text;

verus! {

broadcast use vstd::std_specs::hash::group_hash_axioms;

/// What the pass has changed.
#[derive(Debug, Clone, Copy, PartialEq, Eq, Structural)]
pub struct CurveReplicaStats {
    pub families: usize,
    pub replicas: usize,
    pub direct_aliases: usize,
    pub transforms: usize,
    pub entities_removed: usize,
}

/// How a curve lies to the first of its family. The translation is kept as shortest decimal
/// texts; translations with one number are the same.
#[derive(Debug)]
pub struct CurveShift {
    /// The two are translations of each other.
    pub fits: bool,
    /// The translation is none.
    pub still: bool,
    pub translation: u64,
    pub x: String,
    pub y: String,
    pub z: String,
}

/// What was measured of curves: numbers for the shapes of their poles, and translations.
pub struct CurveEvidence {
    pub shape: HashMap<u64, u64>,
    pub shifts: HashMap<u64, CurveShift>,
}

/// The parameters of a curve that can be shared, and its poles.
pub open spec fn curve_form(entities: Seq<EntityView>, entity: EntityView) -> Option<
    (Seq<ParamView>, Seq<u64>),
> {
    match simple_record(entity) {
        Some(record) if record.name == "B_SPLINE_CURVE_WITH_KNOTS"@ => match record.parameter {
            ParamView::List(params) => if params.len() != 9 {
                None
            } else {
                match ref_list(params[2]) {
                    Some(points) if points.len() >= 2 && (forall|i: int|
                        0 <= i < points.len() ==> has_coordinates(
                            entities,
                            #[trigger] points[i],
                        )) => Some((params, points)),
                    _ => None,
                }
            },
            _ => None,
        },
        _ => None,
    }
}

/// Whether the entity in a place is a curve that can be shared.
pub open spec fn is_curve(entities: Seq<EntityView>, shape: Map<u64, u64>, i: int) -> bool {
    curve_form(entities, entities[i]) is Some && shape.contains_key(entities[i].id())
}

/// Parameters that agree in all but the name and the poles.
pub open spec fn agree(a: Seq<ParamView>, b: Seq<ParamView>) -> bool {
    a.len() == 9 && b.len() == 9 && a[1] == b[1] && a[3] == b[3] && a[4] == b[4] && a[5] == b[5]
        && a[6] == b[6] && a[7] == b[7] && a[8] == b[8]
}

/// Whether two curves have one shape and agree exactly in all but their poles.
pub open spec fn same_family(
    entities: Seq<EntityView>,
    shape: Map<u64, u64>,
    i: int,
    j: int,
) -> bool {
    is_curve(entities, shape, i) && is_curve(entities, shape, j) && shape[entities[i].id()]
        == shape[entities[j].id()] && agree(
        curve_form(entities, entities[i])->Some_0.0,
        curve_form(entities, entities[j])->Some_0.0,
    )
}

/// Places in the order of ids, with one more.
pub open spec fn put_place(entities: Seq<EntityView>, order: Seq<usize>, i: usize) -> Seq<usize>
    decreases order.len(),
{
    if order.len() == 0 || entities[order.last() as int].id() <= entities[i as int].id() {
        order.push(i)
    } else {
        put_place(entities, order.drop_last(), i).push(order.last())
    }
}

/// The places of the curves among the first `n` entities.
pub open spec fn curve_places(entities: Seq<EntityView>, shape: Map<u64, u64>, n: nat) -> Seq<
    usize,
>
    decreases n,
{
    if n == 0 {
        Seq::empty()
    } else {
        let rest = curve_places(entities, shape, (n - 1) as nat);
        if is_curve(entities, shape, n - 1) {
            rest.push((n - 1) as usize)
        } else {
            rest
        }
    }
}

/// Those of some curves that are in the family of one, in the order of ids.
pub open spec fn family(
    entities: Seq<EntityView>,
    shape: Map<u64, u64>,
    first: int,
    places: Seq<usize>,
) -> Seq<usize>
    decreases places.len(),
{
    if places.len() == 0 {
        Seq::empty()
    } else {
        let rest = family(entities, shape, first, places.drop_last());
        if same_family(entities, shape, first, places.last() as int) {
            put_place(entities, rest, places.last())
        } else {
            rest
        }
    }
}

/// Whether no curve before another is in its family.
pub open spec fn leads_family(
    entities: Seq<EntityView>,
    shape: Map<u64, u64>,
    places: Seq<usize>,
    k: int,
) -> bool {
    forall|j: int|
        0 <= j < k ==> !same_family(entities, shape, places[k] as int, #[trigger] places[j] as int)
}

/// What has come of some curves.
#[verifier::ext_equal]
pub struct ReplicaView {
    pub added: Seq<EntityView>,
    /// The operator for each translation.
    pub operators: Map<u64, u64>,
    pub replicas: Map<u64, EntityView>,
    pub alias: Map<u64, u64>,
    pub aliased: Seq<u64>,
    pub points: Seq<u64>,
    pub replaced: Seq<u64>,
    pub families: nat,
}

/// The entities of a translation: its point and its operator.
pub open spec fn with_operator(
    start: Seq<EntityView>,
    added: Seq<EntityView>,
    shift: CurveShift,
    name: ParamView,
) -> Seq<EntityView> {
    let point = id_at(start, (start.len() + added.len()) as int);
    let id = id_at(start, (start.len() + added.len() + 1) as int);
    added.push(triple(point, "CARTESIAN_POINT"@, shift.x@, shift.y@, shift.z@)).push(
        simple_entity(
            id,
            "CARTESIAN_TRANSFORMATION_OPERATOR_3D"@,
            seq![
                name,
                name,
                name,
                ParamView::NotProvided,
                ParamView::NotProvided,
                ref_param(point),
                ParamView::NotProvided,
                ParamView::NotProvided,
            ],
        ),
    )
}

/// What comes of a curve that is a translation of another.
pub open spec fn with_replica(
    entities: Seq<EntityView>,
    so_far: ReplicaView,
    canonical: u64,
    target: EntityView,
    shift: CurveShift,
) -> ReplicaView {
    let (params, points) = curve_form(entities, target)->Some_0;
    if shift.still {
        ReplicaView {
            alias: so_far.alias.insert(target.id(), canonical),
            aliased: so_far.aliased.push(target.id()),
            points: so_far.points + points,
            ..so_far
        }
    } else {
        let (added, operator) = if so_far.operators.contains_key(shift.translation) {
            (so_far.added, so_far.operators[shift.translation])
        } else {
            (
                with_operator(entities, so_far.added, shift, params[0]),
                id_at(entities, (entities.len() + so_far.added.len() + 1) as int),
            )
        };
        ReplicaView {
            added,
            operators: so_far.operators.insert(shift.translation, operator),
            replicas: so_far.replicas.insert(
                target.id(),
                simple_entity(
                    target.id(),
                    "CURVE_REPLICA"@,
                    seq![params[0], ref_param(canonical), ref_param(operator)],
                ),
            ),
            points: so_far.points + points,
            replaced: so_far.replaced.push(target.id()),
            ..so_far
        }
    }
}

/// Whether a curve is a translation of the first of its family.
pub open spec fn fits(shifts: Map<u64, CurveShift>, id: u64) -> bool {
    shifts.contains_key(id) && shifts[id].fits
}

/// What comes of a family, up to its place `n`. The one with the smallest id is the first.
pub open spec fn with_family(
    entities: Seq<EntityView>,
    shifts: Map<u64, CurveShift>,
    so_far: ReplicaView,
    members: Seq<usize>,
    n: nat,
) -> ReplicaView
    decreases n,
{
    if n <= 1 {
        so_far
    } else {
        let before = with_family(entities, shifts, so_far, members, (n - 1) as nat);
        let target = entities[members[n - 1] as int];
        if fits(shifts, target.id()) {
            with_replica(
                entities,
                before,
                entities[members[0] as int].id(),
                target,
                shifts[target.id()],
            )
        } else {
            before
        }
    }
}

/// Whether a family has a translation of its first curve.
pub open spec fn has_translation(
    entities: Seq<EntityView>,
    shifts: Map<u64, CurveShift>,
    members: Seq<usize>,
) -> bool {
    exists|k: int|
        1 <= k < members.len() && fits(shifts, entities[#[trigger] members[k] as int].id())
}

/// What comes of the families that the first `n` curves lead.
pub open spec fn with_families(
    entities: Seq<EntityView>,
    shape: Map<u64, u64>,
    shifts: Map<u64, CurveShift>,
    places: Seq<usize>,
    n: nat,
) -> ReplicaView
    decreases n,
{
    if n == 0 {
        ReplicaView {
            added: Seq::empty(),
            operators: Map::empty(),
            replicas: Map::empty(),
            alias: Map::empty(),
            aliased: Seq::empty(),
            points: Seq::empty(),
            replaced: Seq::empty(),
            families: 0,
        }
    } else {
        let before = with_families(entities, shape, shifts, places, (n - 1) as nat);
        if leads_family(entities, shape, places, n - 1) {
            let members = family(entities, shape, places[n - 1] as int, places);
            let after = with_family(entities, shifts, before, members, members.len());
            if has_translation(entities, shifts, members) {
                ReplicaView { families: after.families + 1, ..after }
            } else {
                after
            }
        } else {
            before
        }
    }
}

/// The entities with replicas in place of curves. Of several entities with one id the first is
/// replaced.
pub open spec fn with_replicas(entities: Seq<EntityView>, replicas: Map<u64, EntityView>) -> Seq<
    EntityView,
> {
    Seq::new(
        entities.len(),
        |i: int|
            if replicas.contains_key(entities[i].id()) && (forall|j: int|
                0 <= j < i ==> (#[trigger] entities[j]).id() != entities[i].id()) {
                replicas[entities[i].id()]
            } else {
                entities[i]
            },
    )
}

/// What the pass makes of entities. Where no ids are left it leaves them as they are.
pub open spec fn curves_shared(
    entities: Seq<EntityView>,
    evidence: CurveEvidence,
    result: Seq<EntityView>,
    stats: CurveReplicaStats,
) -> bool {
    let places = curve_places(entities, evidence.shape@, entities.len());
    let made = with_families(
        entities,
        evidence.shape@,
        evidence.shifts@,
        places,
        places.len(),
    );
    let after = redirected(with_replicas(entities, made.replicas) + made.added, made.alias);
    let gone = Set::new(
        |id: u64| falls(after, made.points + made.aliased, made.aliased, id),
    );
    if max_id(entities) + made.added.len() > u64::MAX {
        &&& result == entities
        &&& stats == CurveReplicaStats {
            families: 0,
            replicas: 0,
            direct_aliases: 0,
            transforms: 0,
            entities_removed: 0,
        }
    } else {
        &&& result == without(after, gone)
        &&& stats == CurveReplicaStats {
            families: made.families as usize,
            replicas: made.replaced.len() as usize,
            direct_aliases: made.aliased.len() as usize,
            transforms: (made.added.len() / 2) as usize,
            entities_removed: gone.len() as usize,
        }
    }
}

/// The parameters of a curve that can be shared, and its poles.
fn find_form<'a>(
    at: usize,
    entities: &'a Vec<EntityInstance>,
    index: &HashMap<u64, usize>,
) -> (out: Option<(&'a Vec<Parameter>, Vec<u64>)>)
    requires
        at < entities@.len(),
        indexes(index@, entities_view(entities@)),
    ensures
        ({
            let form = curve_form(
                entities_view(entities@),
                entities_view(entities@)[at as int],
            );
            &&& out is Some == form is Some
            &&& out matches Some((params, points)) ==> form == Some(
                (params_view(params@), points@),
            )
        }),
{
    let ghost views = entities_view(entities@);
    assert(views[at as int] == entities@[at as int]@);
    let record = match &entities[at] {
        EntityInstance::Simple { record, .. } => record,
        EntityInstance::Complex { .. } => {
            return None;
        },
    };
    if !same_text(record.name.as_str(), "B_SPLINE_CURVE_WITH_KNOTS") {
        return None;
    }
    let params = match &record.parameter {
        Parameter::List(params) => params,
        _ => {
            return None;
        },
    };
    proof {
        lemma_list_view(*params);
    }
    if params.len() != 9 {
        return None;
    }
    assert(params_view(params@)[2] == params@[2]@);
    let points = match entity_ref_list(&params[2]) {
        Some(points) => points,
        None => {
            return None;
        },
    };
    if points.len() < 2 {
        return None;
    }
    let mut i: usize = 0;
    while i < points.len()
        invariant
            i <= points.len(),
            views == entities_view(entities@),
            indexes(index@, views),
            forall|k: int| 0 <= k < i ==> has_coordinates(views, #[trigger] points@[k]),
            points@.len() >= 2,
            at < entities@.len(),
            simple_record(views[at as int]) matches Some(r) && r.name
                == "B_SPLINE_CURVE_WITH_KNOTS"@ && r.parameter == ParamView::List(
                params_view(params@),
            ) && params@.len() == 9 && ref_list(params_view(params@)[2]) == Some(points@),
        decreases points.len() - i,
    {
        if !find_coordinates(points[i], entities, index) {
            assert(!has_coordinates(views, points@[i as int]));
            return None;
        }
        i = i + 1;
    }
    Some((params, points))
}

/// The places of the curves that can be shared, and their poles.
fn find_places(
    entities: &Vec<EntityInstance>,
    index: &HashMap<u64, usize>,
    shape: &HashMap<u64, u64>,
) -> (out: Vec<usize>)
    requires
        indexes(index@, entities_view(entities@)),
    ensures
        out@ == curve_places(entities_view(entities@), shape@, entities@.len()),
        forall|k: int|
            0 <= k < out@.len() ==> (#[trigger] out@[k]) < entities@.len() && is_curve(
                entities_view(entities@),
                shape@,
                out@[k] as int,
            ),
{
    let ghost views = entities_view(entities@);
    let mut out: Vec<usize> = Vec::new();
    let mut i: usize = 0;
    while i < entities.len()
        invariant
            i <= entities.len(),
            views == entities_view(entities@),
            indexes(index@, views),
            out@ == curve_places(views, shape@, i as nat),
            forall|k: int|
                0 <= k < out@.len() ==> (#[trigger] out@[k]) < entities@.len() && is_curve(
                    views,
                    shape@,
                    out@[k] as int,
                ),
        decreases entities.len() - i,
    {
        assert(views[i as int] == entities@[i as int]@);
        let id: u64 = entity_id(&entities[i]);
        if shape.contains_key(&id) && find_form(i, entities, index).is_some() {
            out.push(i);
        }
        i = i + 1;
    }
    out
}

/// Whether two curves have one shape and agree exactly in all but their poles.
fn find_same_family(
    i: usize,
    j: usize,
    entities: &Vec<EntityInstance>,
    index: &HashMap<u64, usize>,
    shape: &HashMap<u64, u64>,
) -> (out: bool)
    requires
        indexes(index@, entities_view(entities@)),
        i < entities@.len(),
        j < entities@.len(),
        is_curve(entities_view(entities@), shape@, i as int),
        is_curve(entities_view(entities@), shape@, j as int),
    ensures
        out == same_family(entities_view(entities@), shape@, i as int, j as int),
{
    let ghost views = entities_view(entities@);
    assert(views[i as int] == entities@[i as int]@ && views[j as int] == entities@[j as int]@);
    let a: u64 = entity_id(&entities[i]);
    let b: u64 = entity_id(&entities[j]);
    if *shape.get(&a).unwrap() != *shape.get(&b).unwrap() {
        return false;
    }
    match (find_form(i, entities, index), find_form(j, entities, index)) {
        (Some((first, _)), Some((second, _))) => {
            assert(forall|k: int|
                0 <= k < 9 ==> #[trigger] params_view(first@)[k] == first@[k]@);
            assert(forall|k: int|
                0 <= k < 9 ==> #[trigger] params_view(second@)[k] == second@[k]@);
            same_param(&first[1], &second[1]) && same_param(&first[3], &second[3]) && same_param(
                &first[4],
                &second[4],
            ) && same_param(&first[5], &second[5]) && same_param(&first[6], &second[6])
                && same_param(&first[7], &second[7]) && same_param(&first[8], &second[8])
        },
        _ => false,
    }
}

proof fn lemma_put_place(entities: Seq<EntityView>, order: Seq<usize>, i: usize, at: int)
    requires
        0 <= at <= order.len(),
        forall|k: int|
            at <= k < order.len() ==> entities[#[trigger] order[k] as int].id()
                > entities[i as int].id(),
        at > 0 ==> entities[order[at - 1] as int].id() <= entities[i as int].id(),
    ensures
        put_place(entities, order, i) == order.insert(at, i),
    decreases order.len(),
{
    if at == order.len() {
        assert(order.insert(at, i) =~= order.push(i));
    } else {
        assert(entities[order[order.len() - 1] as int].id() > entities[i as int].id());
        let rest = order.drop_last();
        assert forall|k: int| at <= k < rest.len() implies entities[#[trigger] rest[k] as int].id()
            > entities[i as int].id() by {
            assert(rest[k] == order[k]);
        }
        lemma_put_place(entities, rest, i, at);
        assert(rest.insert(at, i).push(order.last()) =~= order.insert(at, i));
    }
}

/// Whether places are those of curves.
pub open spec fn are_curves(
    entities: Seq<EntityView>,
    shape: Map<u64, u64>,
    places: Seq<usize>,
) -> bool {
    forall|k: int|
        0 <= k < places.len() ==> (#[trigger] places[k]) < entities.len() && is_curve(
            entities,
            shape,
            places[k] as int,
        )
}

/// Those of some curves that are in the family of one, in the order of ids.
fn find_family(
    first: usize,
    places: &Vec<usize>,
    entities: &Vec<EntityInstance>,
    index: &HashMap<u64, usize>,
    shape: &HashMap<u64, u64>,
) -> (out: Vec<usize>)
    requires
        indexes(index@, entities_view(entities@)),
        first < entities@.len(),
        is_curve(entities_view(entities@), shape@, first as int),
        are_curves(entities_view(entities@), shape@, places@),
    ensures
        out@ == family(entities_view(entities@), shape@, first as int, places@),
        are_curves(entities_view(entities@), shape@, out@),
{
    let ghost views = entities_view(entities@);
    let mut out: Vec<usize> = Vec::new();
    let mut i: usize = 0;
    assert(places@.take(0) =~= Seq::<usize>::empty());
    while i < places.len()
        invariant
            i <= places.len(),
            views == entities_view(entities@),
            indexes(index@, views),
            first < entities@.len(),
            is_curve(views, shape@, first as int),
            are_curves(views, shape@, places@),
            out@ == family(views, shape@, first as int, places@.take(i as int)),
            are_curves(views, shape@, out@),
        decreases places.len() - i,
    {
        let place: usize = places[i];
        assert(places@.take(i + 1).drop_last() =~= places@.take(i as int));
        assert(places@.take(i + 1).last() == place);
        assert(is_curve(views, shape@, places@[i as int] as int));
        if find_same_family(first, place, entities, index, shape) {
            let ghost before = out@;
            let id: u64 = entity_id(&entities[place]);
            assert(views[place as int] == entities@[place as int]@);
            let mut at: usize = out.len();
            while at > 0
                invariant_except_break
                    at <= out.len(),
                    out@ == before,
                    views == entities_view(entities@),
                    are_curves(views, shape@, before),
                    id == views[place as int].id(),
                    forall|k: int|
                        at <= k < before.len() ==> views[#[trigger] before[k] as int].id()
                            > views[place as int].id(),
                ensures
                    at <= out.len(),
                    out@ == before,
                    forall|k: int|
                        at <= k < before.len() ==> views[#[trigger] before[k] as int].id()
                            > views[place as int].id(),
                    at > 0 ==> views[before[at - 1] as int].id() <= views[place as int].id(),
                decreases at,
            {
                let other: usize = out[at - 1];
                assert(is_curve(views, shape@, before[at - 1] as int));
                assert(views[other as int] == entities@[other as int]@);
                if entity_id(&entities[other]) <= id {
                    break;
                }
                at = at - 1;
            }
            proof {
                lemma_put_place(views, before, place, at as int);
            }
            out.insert(at, place);
            assert forall|k: int| 0 <= k < out@.len() implies (#[trigger] out@[k]) < views.len()
                && is_curve(views, shape@, out@[k] as int) by {
                if k < at {
                    assert(out@[k] == before[k]);
                } else if k > at {
                    assert(out@[k] == before[k - 1]);
                }
            }
        }
        i = i + 1;
    }
    assert(places@.take(places@.len() as int) =~= places@);
    out
}

fn find_leads(
    k: usize,
    places: &Vec<usize>,
    entities: &Vec<EntityInstance>,
    index: &HashMap<u64, usize>,
    shape: &HashMap<u64, u64>,
) -> (out: bool)
    requires
        indexes(index@, entities_view(entities@)),
        k < places@.len(),
        are_curves(entities_view(entities@), shape@, places@),
    ensures
        out == leads_family(entities_view(entities@), shape@, places@, k as int),
{
    let ghost views = entities_view(entities@);
    let mut j: usize = 0;
    while j < k
        invariant
            j <= k < places@.len(),
            views == entities_view(entities@),
            indexes(index@, views),
            are_curves(views, shape@, places@),
            forall|m: int|
                0 <= m < j ==> !same_family(
                    views,
                    shape@,
                    places@[k as int] as int,
                    #[trigger] places@[m] as int,
                ),
        decreases k - j,
    {
        assert(is_curve(views, shape@, places@[k as int] as int));
        assert(is_curve(views, shape@, places@[j as int] as int));
        if find_same_family(places[k], places[j], entities, index, shape) {
            assert(same_family(
                views,
                shape@,
                places@[k as int] as int,
                places@[j as int] as int,
            ));
            return false;
        }
        j = j + 1;
    }
    true
}

/// What has come of some curves.
struct Made {
    added: Vec<EntityInstance>,
    operators: HashMap<u64, u64>,
    replicas: HashMap<u64, EntityInstance>,
    alias: HashMap<u64, u64>,
    aliased: Vec<u64>,
    points: Vec<u64>,
    replaced: Vec<u64>,
    families: usize,
}

spec fn shows_replicas(replicas: Map<u64, EntityInstance>, views: Map<u64, EntityView>) -> bool {
    forall|id: u64| #[trigger]
        replicas.contains_key(id) == views.contains_key(id) && (replicas.contains_key(id)
            ==> replicas[id]@ == views[id])
}

impl Made {
    spec fn shows(&self, view: ReplicaView) -> bool {
        &&& entities_view(self.added@) == view.added
        &&& self.operators@ == view.operators
        &&& shows_replicas(self.replicas@, view.replicas)
        &&& self.alias@ == view.alias
        &&& self.aliased@ == view.aliased
        &&& self.points@ == view.points
        &&& self.replaced@ == view.replaced
        &&& self.families == view.families
    }
}

/// The id of the entity that comes some places behind the entities.
fn id_behind(last: u64, more: usize, Ghost(start): Ghost<Seq<EntityView>>) -> (id: u64)
    requires
        last == max_id(start),
    ensures
        id == id_at(start, start.len() + more),
{
    let id: u128 = last as u128 + more as u128 + 1;
    if id <= u64::MAX as u128 {
        id as u64
    } else {
        0
    }
}

/// Adds the point and the operator of a translation, and gives the operator.
fn push_operator(
    added: &mut Vec<EntityInstance>,
    last: u64,
    shift: &CurveShift,
    name: &Parameter,
    Ghost(start): Ghost<Seq<EntityView>>,
) -> (operator: u64)
    requires
        last == max_id(start),
    ensures
        entities_view(final(added)@) == with_operator(
            start,
            entities_view(old(added)@),
            *shift,
            name@,
        ),
        operator == id_at(start, (start.len() + old(added)@.len() + 1) as int),
{
    let point: u64 = id_behind(last, added.len(), Ghost(start));
    push_triple(
        added,
        point,
        "CARTESIAN_POINT",
        shift.x.clone(),
        shift.y.clone(),
        shift.z.clone(),
    );
    assert(entities_view(added@).len() == added@.len());
    let operator: u64 = id_behind(last, added.len(), Ghost(start));
    let mut params: Vec<Parameter> = Vec::new();
    params.push(name.clone());
    params.push(name.clone());
    params.push(name.clone());
    params.push(Parameter::NotProvided);
    params.push(Parameter::NotProvided);
    params.push(entity_ref(point));
    params.push(Parameter::NotProvided);
    params.push(Parameter::NotProvided);
    assert(params_view(params@) =~= seq![
        name@,
        name@,
        name@,
        ParamView::NotProvided,
        ParamView::NotProvided,
        ref_param(point),
        ParamView::NotProvided,
        ParamView::NotProvided,
    ]);
    push_simple(added, operator, "CARTESIAN_TRANSFORMATION_OPERATOR_3D", params);
    operator
}

/// Makes a curve a replica of another, or lets the other stand for it.
fn make_replica(
    made: &mut Made,
    canonical: u64,
    at: usize,
    shift: &CurveShift,
    last: u64,
    entities: &Vec<EntityInstance>,
    index: &HashMap<u64, usize>,
    Ghost(so_far): Ghost<ReplicaView>,
)
    requires
        at < entities@.len(),
        indexes(index@, entities_view(entities@)),
        curve_form(entities_view(entities@), entities_view(entities@)[at as int]) is Some,
        last == max_id(entities_view(entities@)),
        old(made).shows(so_far),
    ensures
        final(made).shows(
            with_replica(
                entities_view(entities@),
                so_far,
                canonical,
                entities_view(entities@)[at as int],
                *shift,
            ),
        ),
        final(made).families == old(made).families,
{
    let ghost views = entities_view(entities@);
    assert(views[at as int] == entities@[at as int]@);
    assert(views.len() == entities@.len());
    let id: u64 = entity_id(&entities[at]);
    if let Some((params, points)) = find_form(at, entities, index) {
        assert(params_view(params@)[0] == params@[0]@);
        append_ids(&mut made.points, &points);
        if shift.still {
            made.alias.insert(id, canonical);
            made.aliased.push(id);
            return;
        }
        let known: Option<u64> = match made.operators.get(&shift.translation) {
            Some(operator) => Some(*operator),
            None => None,
        };
        let operator: u64 = match known {
            Some(operator) => operator,
            None => push_operator(&mut made.added, last, shift, &params[0], Ghost(views)),
        };
        made.operators.insert(shift.translation, operator);
        assert(known is Some ==> made.operators@ =~= so_far.operators.insert(
            shift.translation,
            operator,
        ));
        let mut list: Vec<Parameter> = Vec::new();
        list.push(params[0].clone());
        list.push(entity_ref(canonical));
        list.push(entity_ref(operator));
        proof {
            lemma_list_view(list);
            assert(params_view(list@) =~= seq![
                params@[0]@,
                ref_param(canonical),
                ref_param(operator),
            ]);
        }
        let replica = EntityInstance::Simple {
            id,
            record: Record { name: "CURVE_REPLICA".to_string(), parameter: Parameter::List(list) },
        };
        let ghost view = replica@;
        let ghost before = made.replicas@;
        made.replicas.insert(id, replica);
        made.replaced.push(id);
        assert forall|k: u64| #[trigger]
            made.replicas@.contains_key(k) == so_far.replicas.insert(id, view).contains_key(k) && (
            made.replicas@.contains_key(k) ==> made.replicas@[k]@ == so_far.replicas.insert(
                id,
                view,
            )[k]) by {
            assert(before.contains_key(k) == so_far.replicas.contains_key(k));
        }
    }
}

/// Makes replicas of the first curve of a family. Whether there are any is told.
fn make_family(
    made: &mut Made,
    members: &Vec<usize>,
    shifts: &HashMap<u64, CurveShift>,
    last: u64,
    entities: &Vec<EntityInstance>,
    index: &HashMap<u64, usize>,
    shape: &HashMap<u64, u64>,
    Ghost(so_far): Ghost<ReplicaView>,
) -> (any: bool)
    requires
        indexes(index@, entities_view(entities@)),
        are_curves(entities_view(entities@), shape@, members@),
        last == max_id(entities_view(entities@)),
        old(made).shows(so_far),
    ensures
        final(made).shows(
            with_family(
                entities_view(entities@),
                shifts@,
                so_far,
                members@,
                members@.len(),
            ),
        ),
        final(made).families == old(made).families,
        any == has_translation(entities_view(entities@), shifts@, members@),
{
    let ghost views = entities_view(entities@);
    let mut any = false;
    if members.len() == 0 {
        return any;
    }
    let first: usize = members[0];
    assert(is_curve(views, shape@, members@[0] as int));
    assert(views[first as int] == entities@[first as int]@);
    let canonical: u64 = entity_id(&entities[first]);
    let mut k: usize = 1;
    while k < members.len()
        invariant
            1 <= k <= members.len(),
            views == entities_view(entities@),
            indexes(index@, views),
            are_curves(views, shape@, members@),
            last == max_id(views),
            canonical == views[members@[0] as int].id(),
            made.shows(with_family(views, shifts@, so_far, members@, k as nat)),
            made.families == old(made).families,
            any ==> has_translation(views, shifts@, members@),
            !any ==> forall|m: int|
                1 <= m < k ==> !fits(shifts@, views[#[trigger] members@[m] as int].id()),
        decreases members.len() - k,
    {
        let at: usize = members[k];
        assert(is_curve(views, shape@, members@[k as int] as int));
        assert(views[at as int] == entities@[at as int]@);
        let id: u64 = entity_id(&entities[at]);
        if let Some(shift) = shifts.get(&id) {
            if shift.fits {
                assert(fits(shifts@, views[members@[k as int] as int].id()));
                any = true;
                make_replica(
                    made,
                    canonical,
                    at,
                    shift,
                    last,
                    entities,
                    index,
                    Ghost(with_family(views, shifts@, so_far, members@, k as nat)),
                );
            }
        }
        k = k + 1;
    }
    any
}

/// Makes replicas in every family.
fn make_families(
    entities: &Vec<EntityInstance>,
    evidence: &CurveEvidence,
    last: u64,
) -> (made: Made)
    requires
        last == max_id(entities_view(entities@)),
    ensures
        ({
            let places = curve_places(
                entities_view(entities@),
                evidence.shape@,
                entities@.len(),
            );
            made.shows(
                with_families(
                    entities_view(entities@),
                    evidence.shape@,
                    evidence.shifts@,
                    places,
                    places.len(),
                ),
            )
        }),
{
    let ghost views = entities_view(entities@);
    let index = build_index(entities);
    let places = find_places(entities, &index, &evidence.shape);
    let mut made = Made {
        added: Vec::new(),
        operators: HashMap::new(),
        replicas: HashMap::new(),
        alias: HashMap::new(),
        aliased: Vec::new(),
        points: Vec::new(),
        replaced: Vec::new(),
        families: 0,
    };
    assert(entities_view(made.added@) =~= Seq::<EntityView>::empty());
    assert(made.operators@ =~= Map::<u64, u64>::empty());
    assert(made.alias@ =~= Map::<u64, u64>::empty());
    let mut k: usize = 0;
    while k < places.len()
        invariant
            k <= places.len(),
            views == entities_view(entities@),
            indexes(index@, views),
            are_curves(views, evidence.shape@, places@),
            last == max_id(views),
            made.shows(
                with_families(views, evidence.shape@, evidence.shifts@, places@, k as nat),
            ),
            made.families <= k,
        decreases places.len() - k,
    {
        let ghost before = with_families(
            views,
            evidence.shape@,
            evidence.shifts@,
            places@,
            k as nat,
        );
        assert(is_curve(views, evidence.shape@, places@[k as int] as int));
        if find_leads(k, &places, entities, &index, &evidence.shape) {
            let members = find_family(places[k], &places, entities, &index, &evidence.shape);
            let any = make_family(
                &mut made,
                &members,
                &evidence.shifts,
                last,
                entities,
                &index,
                &evidence.shape,
                Ghost(before),
            );
            if any {
                made.families = made.families + 1;
            }
        }
        k = k + 1;
    }
    made
}

/// Puts replicas in place of curves.
fn put_replicas(entities: &mut Vec<EntityInstance>, replicas: HashMap<u64, EntityInstance>, Ghost(
    views,
): Ghost<Map<u64, EntityView>>)
    requires
        shows_replicas(replicas@, views),
        forall|id: u64| #[trigger] views.contains_key(id) ==> views[id].id() == id,
    ensures
        entities_view(final(entities)@) == with_replicas(entities_view(old(entities)@), views),
{
    let ghost start = entities_view(entities@);
    let ghost done = with_replicas(start, views);
    let mut left = replicas;
    let mut i: usize = 0;
    assert(done.take(0) + start.skip(0) =~= start);
    while i < entities.len()
        invariant
            i <= entities.len(),
            entities@.len() == start.len(),
            done == with_replicas(start, views),
            entities_view(entities@) == done.take(i as int) + start.skip(i as int),
            forall|id: u64| #[trigger]
                left@.contains_key(id) == (views.contains_key(id) && forall|j: int|
                    0 <= j < i ==> (#[trigger] start[j]).id() != id),
            forall|id: u64| #[trigger] left@.contains_key(id) ==> left@[id]@ == views[id],
        decreases entities.len() - i,
    {
        let ghost now = entities_view(entities@);
        assert(now[i as int] == entities@[i as int]@);
        assert(now[i as int] == start[i as int]);
        let id: u64 = entity_id(&entities[i]);
        let ghost before = left@;
        assert(left@.contains_key(id) == (views.contains_key(id) && forall|j: int|
            0 <= j < i ==> (#[trigger] start[j]).id() != id));
        if let Some(replica) = left.remove(&id) {
            assert(done[i as int] == replica@);
            replace_entity(entities, i, replica);
        } else {
            assert(done[i as int] == start[i as int]);
        }
        assert(entities_view(entities@) =~= done.take(i + 1) + start.skip(i + 1));
        assert forall|k: u64| #[trigger]
            left@.contains_key(k) == (views.contains_key(k) && forall|j: int|
                0 <= j < i + 1 ==> (#[trigger] start[j]).id() != k) by {
            assert(before.contains_key(k) == (views.contains_key(k) && forall|j: int|
                0 <= j < i ==> (#[trigger] start[j]).id() != k));
            assert(start[i as int].id() == id);
        }
        assert forall|k: u64| #[trigger] left@.contains_key(k) implies left@[k]@ == views[k] by {
            assert(before.contains_key(k));
        }
        i = i + 1;
    }
    assert(done.take(done.len() as int) + start.skip(start.len() as int) =~= done);
}

/// Every replica has the id of its curve.
spec fn keeps_ids(replicas: Map<u64, EntityView>) -> bool {
    forall|id: u64| #[trigger] replicas.contains_key(id) ==> replicas[id].id() == id
}

proof fn lemma_family_keeps_ids(
    entities: Seq<EntityView>,
    shifts: Map<u64, CurveShift>,
    so_far: ReplicaView,
    members: Seq<usize>,
    n: nat,
)
    requires
        keeps_ids(so_far.replicas),
    ensures
        keeps_ids(with_family(entities, shifts, so_far, members, n).replicas),
    decreases n,
{
    if n > 1 {
        lemma_family_keeps_ids(entities, shifts, so_far, members, (n - 1) as nat);
    }
}

proof fn lemma_families_keep_ids(
    entities: Seq<EntityView>,
    shape: Map<u64, u64>,
    shifts: Map<u64, CurveShift>,
    places: Seq<usize>,
    n: nat,
)
    ensures
        keeps_ids(with_families(entities, shape, shifts, places, n).replicas),
    decreases n,
{
    if n > 0 {
        lemma_families_keep_ids(entities, shape, shifts, places, (n - 1) as nat);
        let before = with_families(entities, shape, shifts, places, (n - 1) as nat);
        let members = family(entities, shape, places[n - 1] as int, places);
        lemma_family_keeps_ids(entities, shifts, before, members, members.len());
    }
}

/// Curves that agree in all but a translation of their poles become replicas of the one with
/// the smallest id. Where the translation is none, that one stands for them.
pub fn instance_translated_bspline_curves(
    entities: &mut Vec<EntityInstance>,
    evidence: &CurveEvidence,
) -> (stats: CurveReplicaStats)
    ensures
        curves_shared(
            entities_view(old(entities)@),
            *evidence,
            entities_view(final(entities)@),
            stats,
        ),
{
    let ghost views = entities_view(entities@);
    let last: u64 = largest_id(entities);
    let made = make_families(entities, evidence, last);
    let ghost places = curve_places(views, evidence.shape@, views.len());
    let ghost view = with_families(
        views,
        evidence.shape@,
        evidence.shifts@,
        places,
        places.len(),
    );
    let Made { added, operators: _, replicas, alias, aliased, points, replaced, families } = made;
    assert(entities_view(added@).len() == added@.len());
    if last as u128 + added.len() as u128 > u64::MAX as u128 {
        return CurveReplicaStats {
            families: 0,
            replicas: 0,
            direct_aliases: 0,
            transforms: 0,
            entities_removed: 0,
        };
    }
    proof {
        lemma_families_keep_ids(
            views,
            evidence.shape@,
            evidence.shifts@,
            places,
            places.len(),
        );
    }
    let mut work = clone_entities(entities);
    put_replicas(&mut work, replicas, Ghost(view.replicas));
    join_entities(&mut work, &added);
    let mut after = redirect_all(&work, &alias);
    let ghost redone = entities_view(after@);
    let mut candidates: Vec<u64> = Vec::new();
    append_ids(&mut candidates, &points);
    append_ids(&mut candidates, &aliased);
    assert(candidates@ =~= points@ + aliased@);
    let gone = find_fallen(&after, &candidates, &aliased);
    assert(gone@ =~= Set::new(
        |id: u64| falls(redone, view.points + view.aliased, view.aliased, id),
    ));
    remove_entities(&mut after, &gone);
    *entities = after;
    CurveReplicaStats {
        families,
        replicas: replaced.len(),
        direct_aliases: aliased.len(),
        transforms: added.len() / 2,
        entities_removed: gone.len(),
    }
}

} // verus!
