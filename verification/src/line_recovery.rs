//! B-spline curves that are straight become lines.

use std::collections::{HashMap, HashSet};
use vstd::prelude::*;

use crate::ast::{
    clone_entities, entities_view, entity_id, lemma_list_view, params_view, EntityInstance,
    EntityView, ParamView, Parameter, Record, RecordView,
};
use crate::brep::{find_coordinates, find_stand, has_coordinates, stands_somewhere};
use crate::components::lists_view;
use crate::face_coalesce::{append_ids, ref_param};
use crate::face_plan::listed;
use crate::graph::{
    add_entry, build_index, entity_ref, entity_ref_list, find_typed, indexes, largest_id, max_id,
    nth, nth_entity_ref, nth_param, nth_ref, push_simple, ref_list, remove_entities, replace_entity,
    simple_entity, simple_record, typed_record, without,
};
use crate::instances::{in_order, insert_id, inserted, join_entities};
use crate::number::is_number;
use crate::placements::{fresh, push_triple, triple};
use crate::refs::{all_refs, entity_refs, referenced_ids, visit_entity_refs};
use crate::sets::{list_contains, sorted_of, sorted_set};
use crate::text::same_text;

verus! {

broadcast use vstd::std_specs::hash::group_hash_axioms;

/// What the pass has changed.
#[derive(Debug, Clone, Copy, PartialEq, Eq, Structural)]
pub struct LineRecoveryStats {
    pub curves_recovered: usize,
    pub direction_groups: usize,
    pub orphan_points_removed: usize,
}

/// How a curve lies to the line through its first and last poles, and its edge to these poles:
/// whether all poles are on the line, whether they follow one another, and which vertex of the
/// edge is at which of the two poles.
#[derive(Debug, Clone, Copy, PartialEq, Eq, Structural)]
pub struct LineFit {
    pub collinear: bool,
    pub monotonic: bool,
    pub start_at_first: bool,
    pub end_at_last: bool,
    pub start_at_last: bool,
    pub end_at_first: bool,
}

/// Whether a curve is straight and its edge runs from one end to the other.
pub open spec fn is_straight(fit: LineFit) -> bool {
    fit.collinear && fit.monotonic && ((fit.start_at_first && fit.end_at_last) || (
    fit.start_at_last && fit.end_at_first))
}

/// What was measured of a curve. The direction from its first to its last pole is kept as
/// shortest decimal texts; curves with close directions share a bucket, and buckets are numbered
/// in order.
#[derive(Debug)]
pub struct StraightCurve {
    pub curve: u64,
    pub fit: LineFit,
    pub bucket: u64,
    pub x: String,
    pub y: String,
    pub z: String,
}

#[verifier::ext_equal]
pub struct StraightView {
    pub curve: u64,
    pub fit: LineFit,
    pub bucket: u64,
    pub x: Seq<char>,
    pub y: Seq<char>,
    pub z: Seq<char>,
}

impl View for StraightCurve {
    type V = StraightView;

    open spec fn view(&self) -> StraightView {
        StraightView {
            curve: self.curve,
            fit: self.fit,
            bucket: self.bucket,
            x: self.x@,
            y: self.y@,
            z: self.z@,
        }
    }
}

pub open spec fn straight_view(curves: Seq<StraightCurve>) -> Seq<StraightView> {
    Seq::new(curves.len(), |i: int| curves[i]@)
}

/// What was measured of curves: how straight they are, and which have the direction of another.
pub struct LineEvidence {
    pub straight: Vec<StraightCurve>,
    pub accepted: HashMap<u64, Vec<u64>>,
}

/// What was measured of a straight curve.
pub open spec fn measured(straight: Seq<StraightView>, curve: u64) -> Option<StraightView>
    decreases straight.len(),
{
    if straight.len() == 0 {
        None
    } else if straight.last().curve == curve {
        if is_straight(straight.last().fit) {
            Some(straight.last())
        } else {
            None
        }
    } else {
        measured(straight.drop_last(), curve)
    }
}

/// A value once for each time it is in a list.
pub open spec fn times(refs: Seq<u64>, id: u64, parent: u64) -> Seq<u64>
    decreases refs.len(),
{
    if refs.len() == 0 {
        Seq::empty()
    } else {
        let rest = times(refs.drop_last(), id, parent);
        if refs.last() == id {
            rest.push(parent)
        } else {
            rest
        }
    }
}

/// The entities among the first `n` that refer to an id, once for each reference.
pub open spec fn holders(entities: Seq<EntityView>, id: u64, n: nat) -> Seq<u64>
    decreases n,
{
    if n == 0 {
        Seq::empty()
    } else {
        holders(entities, id, (n - 1) as nat) + times(
            entity_refs(entities[n - 1]),
            id,
            entities[n - 1].id(),
        )
    }
}

/// Whether an entity is an edge on a curve.
pub open spec fn is_edge_on(entities: Seq<EntityView>, edge: u64, curve: u64) -> bool {
    &&& typed_record(entities, edge, "EDGE_CURVE"@) matches Some(record)
    &&& nth(record, 4) is Some
    &&& nth(record, 5) is None
    &&& nth_ref(record, 3) == Some(curve)
    &&& (nth_ref(record, 1) matches Some(a) && stands_somewhere(entities, a))
    &&& (nth_ref(record, 2) matches Some(b) && stands_somewhere(entities, b))
}

/// Whether a curve is the curve of one edge and nothing else.
pub open spec fn has_one_edge(entities: Seq<EntityView>, curve: u64) -> bool {
    let all = holders(entities, curve, entities.len());
    all.len() == 1 && is_edge_on(entities, all[0], curve)
}

pub open spec fn is_false(p: ParamView) -> bool {
    p == ParamView::Enumeration("F"@)
}

pub open spec fn all_integers(items: Seq<ParamView>) -> bool {
    forall|i: int| 0 <= i < items.len() ==> (#[trigger] items[i]) is Integer
}

pub open spec fn all_numbers(items: Seq<ParamView>) -> bool {
    forall|i: int| 0 <= i < items.len() ==> is_number(#[trigger] items[i])
}

/// The sum of integers.
pub open spec fn total(items: Seq<ParamView>) -> int
    decreases items.len(),
{
    if items.len() == 0 {
        0
    } else {
        total(items.drop_last()) + items.last()->Integer_0
    }
}

/// Whether multiplicities are those of a clamped spline.
pub open spec fn is_clamped(mult: Seq<ParamView>, degree: int, poles: int) -> bool {
    &&& all_integers(mult)
    &&& mult.len() >= 2
    &&& mult[0]->Integer_0 == degree + 1
    &&& mult[mult.len() - 1]->Integer_0 == degree + 1
    &&& forall|i: int|
        0 < i < mult.len() - 1 ==> 0 < (#[trigger] mult[i])->Integer_0 <= degree
    &&& total(mult) == poles + degree + 1
}

pub open spec fn all_points(entities: Seq<EntityView>, poles: Seq<u64>) -> bool {
    forall|i: int| 0 <= i < poles.len() ==> has_coordinates(entities, #[trigger] poles[i])
}

/// The name and the poles of a clamped spline that is neither closed nor crosses itself.
pub open spec fn clamped_form(entities: Seq<EntityView>, record: RecordView) -> Option<
    (Seq<char>, Seq<u64>),
> {
    match record.parameter {
        ParamView::List(params) => if params.len() != 9 {
            None
        } else {
            match (params[0], params[1], ref_list(params[2]), params[6], params[7]) {
                (
                    ParamView::String(name),
                    ParamView::Integer(degree),
                    Some(poles),
                    ParamView::List(mult),
                    ParamView::List(knots),
                ) => if degree >= 1 && poles.len() >= degree + 1 && is_false(params[4])
                    && is_false(params[5]) && all_numbers(knots) && knots.len() == mult.len()
                    && is_clamped(mult, degree as int, poles.len() as int) && all_points(
                    entities,
                    poles,
                ) {
                    Some((name, poles))
                } else {
                    None
                },
                _ => None,
            }
        },
        _ => None,
    }
}

/// The name and the poles of an entity that becomes a line.
pub open spec fn line_form(
    entities: Seq<EntityView>,
    straight: Seq<StraightView>,
    entity: EntityView,
) -> Option<(Seq<char>, Seq<u64>)> {
    match simple_record(entity) {
        Some(record) if record.name == "B_SPLINE_CURVE_WITH_KNOTS"@ && has_one_edge(
            entities,
            entity.id(),
        ) && measured(straight, entity.id()) is Some => clamped_form(entities, record),
        _ => None,
    }
}

/// The curves among the first `n` entities that become lines.
pub open spec fn curves(
    entities: Seq<EntityView>,
    straight: Seq<StraightView>,
    n: nat,
) -> Seq<u64>
    decreases n,
{
    if n == 0 {
        Seq::empty()
    } else {
        let rest = curves(entities, straight, (n - 1) as nat);
        if line_form(entities, straight, entities[n - 1]) is Some {
            rest.push(entities[n - 1].id())
        } else {
            rest
        }
    }
}

/// The name and the poles of the curve with an id among the first `n` entities.
pub open spec fn form_of(
    entities: Seq<EntityView>,
    straight: Seq<StraightView>,
    id: u64,
    n: nat,
) -> Option<(Seq<char>, Seq<u64>)>
    decreases n,
{
    if n == 0 {
        None
    } else if entities[n - 1].id() == id && line_form(entities, straight, entities[n - 1]) is Some {
        line_form(entities, straight, entities[n - 1])
    } else {
        form_of(entities, straight, id, (n - 1) as nat)
    }
}

pub open spec fn bucket_of(straight: Seq<StraightView>, curve: u64) -> u64 {
    measured(straight, curve)->Some_0.bucket
}

pub open spec fn bucket_list(straight: Seq<StraightView>, ids: Seq<u64>) -> Seq<u64> {
    Seq::new(ids.len(), |i: int| bucket_of(straight, ids[i]))
}

/// The curves of a bucket.
pub open spec fn in_bucket(straight: Seq<StraightView>, ids: Seq<u64>, bucket: u64) -> Seq<u64>
    decreases ids.len(),
{
    if ids.len() == 0 {
        Seq::empty()
    } else {
        let rest = in_bucket(straight, ids.drop_last(), bucket);
        if bucket_of(straight, ids.last()) == bucket {
            rest.push(ids.last())
        } else {
            rest
        }
    }
}

/// Whether a curve has the direction of another.
pub open spec fn accepts(accepted: Map<u64, Vec<u64>>, first: u64, curve: u64) -> bool {
    listed(accepted, first).contains(curve)
}

/// The first group that a curve belongs to.
pub open spec fn group_for(accepted: Map<u64, Vec<u64>>, groups: Seq<Seq<u64>>, curve: u64) -> Option<
    int,
>
    decreases groups.len(),
{
    if groups.len() == 0 {
        None
    } else {
        match group_for(accepted, groups.drop_last(), curve) {
            Some(i) => Some(i),
            None => if accepts(accepted, groups.last()[0], curve) {
                Some(groups.len() - 1)
            } else {
                None
            },
        }
    }
}

/// Groups of curves with one direction. Each curve joins the first group that it belongs to.
pub open spec fn grouped(accepted: Map<u64, Vec<u64>>, ids: Seq<u64>) -> Seq<Seq<u64>>
    decreases ids.len(),
{
    if ids.len() == 0 {
        Seq::empty()
    } else {
        let groups = grouped(accepted, ids.drop_last());
        match group_for(accepted, groups, ids.last()) {
            Some(i) => groups.update(i, groups[i].push(ids.last())),
            None => groups.push(seq![ids.last()]),
        }
    }
}

/// The groups of all buckets.
pub open spec fn all_groups(
    accepted: Map<u64, Vec<u64>>,
    straight: Seq<StraightView>,
    ids: Seq<u64>,
    buckets: Seq<u64>,
) -> Seq<Seq<u64>>
    decreases buckets.len(),
{
    if buckets.len() == 0 {
        Seq::empty()
    } else {
        all_groups(accepted, straight, ids, buckets.drop_last()) + grouped(
            accepted,
            in_bucket(straight, ids, buckets.last()),
        )
    }
}

/// The direction and the vector of a group.
pub open spec fn with_vector(added: Seq<EntityView>, last: u64, unit: StraightView) -> Seq<
    EntityView,
> {
    let id = fresh(added, last);
    added.push(triple(id, "DIRECTION"@, unit.x, unit.y, unit.z)).push(
        simple_entity(
            (id + 1) as u64,
            "VECTOR"@,
            seq![ParamView::String(Seq::empty()), ref_param(id), ParamView::Real("1"@)],
        ),
    )
}

pub open spec fn with_vectors(
    straight: Seq<StraightView>,
    groups: Seq<Seq<u64>>,
    last: u64,
    n: nat,
) -> Seq<EntityView>
    decreases n,
{
    if n == 0 {
        Seq::empty()
    } else {
        with_vector(
            with_vectors(straight, groups, last, (n - 1) as nat),
            last,
            measured(straight, groups[n - 1][0])->Some_0,
        )
    }
}

/// A map in which some ids lead to one.
pub open spec fn pointing(map: Map<u64, u64>, ids: Seq<u64>, to: u64) -> Map<u64, u64>
    decreases ids.len(),
{
    if ids.len() == 0 {
        map
    } else {
        pointing(map, ids.drop_last(), to).insert(ids.last(), to)
    }
}

/// The vectors of the curves of the first `n` groups.
pub open spec fn vectors(groups: Seq<Seq<u64>>, last: u64, n: nat) -> Map<u64, u64>
    decreases n,
{
    if n == 0 {
        Map::empty()
    } else {
        pointing(
            vectors(groups, last, (n - 1) as nat),
            groups[n - 1],
            (last + 2 * n) as u64,
        )
    }
}

/// An entity as a line where it becomes one.
pub open spec fn as_line(
    entity: EntityView,
    form: Option<(Seq<char>, Seq<u64>)>,
    vectors: Map<u64, u64>,
) -> EntityView {
    match (entity, form) {
        (EntityView::Simple { id, .. }, Some((name, poles))) => if vectors.contains_key(id) {
            simple_entity(
                id,
                "LINE"@,
                seq![ParamView::String(name), ref_param(poles[0]), ref_param(vectors[id])],
            )
        } else {
            entity
        },
        _ => entity,
    }
}

/// Whether an entity becomes a line.
pub open spec fn becomes_line(
    entity: EntityView,
    form: Option<(Seq<char>, Seq<u64>)>,
    vectors: Map<u64, u64>,
) -> bool {
    entity is Simple && form is Some && vectors.contains_key(entity.id())
}

pub open spec fn with_lines(
    entities: Seq<EntityView>,
    straight: Seq<StraightView>,
    vectors: Map<u64, u64>,
) -> Seq<EntityView> {
    Seq::new(
        entities.len(),
        |i: int|
            as_line(
                entities[i],
                form_of(entities, straight, entities[i].id(), entities.len()),
                vectors,
            ),
    )
}

/// The poles of the curves among the first `n` entities that become lines.
pub open spec fn old_poles(
    entities: Seq<EntityView>,
    straight: Seq<StraightView>,
    vectors: Map<u64, u64>,
    n: nat,
) -> Seq<u64>
    decreases n,
{
    if n == 0 {
        Seq::empty()
    } else {
        let rest = old_poles(entities, straight, vectors, (n - 1) as nat);
        let form = form_of(entities, straight, entities[n - 1].id(), entities.len());
        if becomes_line(entities[n - 1], form, vectors) {
            rest + form->Some_0.1
        } else {
            rest
        }
    }
}

pub open spec fn line_count(
    entities: Seq<EntityView>,
    straight: Seq<StraightView>,
    vectors: Map<u64, u64>,
    n: nat,
) -> nat
    decreases n,
{
    if n == 0 {
        0
    } else {
        let form = form_of(entities, straight, entities[n - 1].id(), entities.len());
        line_count(entities, straight, vectors, (n - 1) as nat) + if becomes_line(
            entities[n - 1],
            form,
            vectors,
        ) {
            1nat
        } else {
            0
        }
    }
}

/// The points among poles that nothing refers to any more.
pub open spec fn orphans(
    base: Seq<EntityView>,
    entities: Seq<EntityView>,
    poles: Seq<u64>,
) -> Set<u64> {
    Set::new(
        |id: u64|
            poles.contains(id) && !all_refs(entities).contains(id) && typed_record(
                base,
                id,
                "CARTESIAN_POINT"@,
            ) is Some,
    )
}

/// What the pass makes of entities. Where no ids are left for the new directions, it leaves
/// them as they are.
pub open spec fn lines_recovered(
    entities: Seq<EntityView>,
    evidence: LineEvidence,
    result: Seq<EntityView>,
    stats: LineRecoveryStats,
) -> bool {
    let straight = straight_view(evidence.straight@);
    let ids = in_order(curves(entities, straight, entities.len()));
    let groups = all_groups(
        evidence.accepted@,
        straight,
        ids,
        sorted_of(bucket_list(straight, ids)),
    );
    let last = max_id(entities);
    if last + 2 * groups.len() > u64::MAX {
        &&& result == entities
        &&& stats == LineRecoveryStats {
            curves_recovered: 0,
            direction_groups: 0,
            orphan_points_removed: 0,
        }
    } else {
        let map = vectors(groups, last, groups.len());
        let base = with_lines(entities, straight, map);
        let all = base + with_vectors(straight, groups, last, groups.len());
        let gone = orphans(base, all, old_poles(entities, straight, map, entities.len()));
        &&& result == without(all, gone)
        &&& stats == LineRecoveryStats {
            curves_recovered: line_count(entities, straight, map, entities.len()) as usize,
            direction_groups: groups.len() as usize,
            orphan_points_removed: gone.len() as usize,
        }
    }
}

/// Every parent that refers to each entity, once for each reference.
pub open spec fn lists_references(table: Map<u64, Vec<u64>>, entities: Seq<EntityView>, n: nat) -> bool {
    forall|id: u64| #[trigger] listed(table, id) == holders(entities, id, n)
}

fn reference_lists(entities: &Vec<EntityInstance>) -> (out: HashMap<u64, Vec<u64>>)
    ensures
        lists_references(out@, entities_view(entities@), entities@.len()),
{
    let ghost views = entities_view(entities@);
    let mut out: HashMap<u64, Vec<u64>> = HashMap::new();
    let mut i: usize = 0;
    while i < entities.len()
        invariant
            i <= entities.len(),
            views == entities_view(entities@),
            lists_references(out@, views, i as nat),
        decreases entities.len() - i,
    {
        let parent: u64 = entity_id(&entities[i]);
        let mut refs: Vec<u64> = Vec::new();
        visit_entity_refs(&entities[i], &mut refs);
        assert(views[i as int] == entities@[i as int]@);
        assert(refs@ =~= entity_refs(views[i as int]));
        let mut k: usize = 0;
        assert(refs@.take(0) =~= Seq::<u64>::empty());
        assert forall|id: u64| #[trigger]
            listed(out@, id) == holders(views, id, i as nat) + times(refs@.take(0), id, parent) by {
            assert(listed(out@, id) =~= listed(out@, id) + times(refs@.take(0), id, parent));
        }
        while k < refs.len()
            invariant
                k <= refs.len(),
                forall|id: u64| #[trigger]
                    listed(out@, id) == holders(views, id, i as nat) + times(
                        refs@.take(k as int),
                        id,
                        parent,
                    ),
            decreases refs.len() - k,
        {
            let child: u64 = refs[k];
            let ghost before = out@;
            add_entry(&mut out, child, parent);
            assert forall|id: u64| #[trigger]
                listed(out@, id) == holders(views, id, i as nat) + times(
                    refs@.take(k + 1),
                    id,
                    parent,
                ) by {
                assert(refs@.take(k + 1).drop_last() =~= refs@.take(k as int));
                assert(refs@.take(k + 1).last() == child);
                let rest = times(refs@.take(k as int), id, parent);
                let so_far = holders(views, id, i as nat);
                assert(listed(before, id) == so_far + rest);
                assert(out@.dom().contains(id) == (before.dom().contains(id) || id == child));
                if id == child {
                    assert(listed(out@, id) =~= listed(before, id).push(parent));
                    assert((so_far + rest).push(parent) =~= so_far + rest.push(parent));
                } else if before.contains_key(id) {
                    assert(out@[id] == before[id]);
                }
            }
            k = k + 1;
        }
        assert(refs@.take(refs@.len() as int) =~= refs@);
        i = i + 1;
    }
    out
}

fn find_straight(fit: LineFit) -> (out: bool)
    ensures
        out == is_straight(fit),
{
    fit.collinear && fit.monotonic && ((fit.start_at_first && fit.end_at_last) || (
    fit.start_at_last && fit.end_at_first))
}

/// The last place in a list that holds what was measured of a curve, if it is straight.
fn find_measured(straight: &Vec<StraightCurve>, curve: u64) -> (out: Option<usize>)
    ensures
        out is Some == measured(straight_view(straight@), curve) is Some,
        out matches Some(i) ==> i < straight@.len() && measured(straight_view(straight@), curve)
            == Some(straight@[i as int]@),
{
    let ghost views = straight_view(straight@);
    let mut i: usize = straight.len();
    assert(views.take(i as int) =~= views);
    while i > 0
        invariant
            i <= straight.len(),
            views == straight_view(straight@),
            measured(views, curve) == measured(views.take(i as int), curve),
        decreases i,
    {
        i = i - 1;
        assert(views.take(i + 1).drop_last() =~= views.take(i as int));
        assert(views.take(i + 1).last() == straight@[i as int]@);
        if straight[i].curve == curve {
            return if find_straight(straight[i].fit) {
                Some(i)
            } else {
                None
            };
        }
    }
    None
}

/// Whether an edge on a curve stands between two vertices.
fn find_edge_on(
    edge: u64,
    curve: u64,
    entities: &Vec<EntityInstance>,
    index: &HashMap<u64, usize>,
) -> (out: bool)
    requires
        indexes(index@, entities_view(entities@)),
    ensures
        out == is_edge_on(entities_view(entities@), edge, curve),
{
    let record = match find_typed(entities, index, edge, "EDGE_CURVE") {
        Some(record) => record,
        None => {
            return false;
        },
    };
    if nth_param(record, 4).is_none() || nth_param(record, 5).is_some() {
        return false;
    }
    match nth_entity_ref(record, 3) {
        Some(at) => {
            if at != curve {
                return false;
            }
        },
        None => {
            return false;
        },
    }
    let start = match nth_entity_ref(record, 1) {
        Some(vertex) => find_stand(vertex, entities, index),
        None => false,
    };
    let end = match nth_entity_ref(record, 2) {
        Some(vertex) => find_stand(vertex, entities, index),
        None => false,
    };
    start && end
}

fn is_false_param(param: &Parameter) -> (out: bool)
    ensures
        out == is_false(param@),
{
    match param {
        Parameter::Enumeration(name) => same_text(name.as_str(), "F"),
        _ => false,
    }
}

fn find_all_numbers(items: &Vec<Parameter>) -> (out: bool)
    ensures
        out == all_numbers(params_view(items@)),
{
    let ghost views = params_view(items@);
    let mut i: usize = 0;
    while i < items.len()
        invariant
            i <= items.len(),
            views == params_view(items@),
            forall|k: int| 0 <= k < i ==> is_number(#[trigger] views[k]),
        decreases items.len() - i,
    {
        assert(views[i as int] == items@[i as int]@);
        let fits = match &items[i] {
            Parameter::Integer(_) => true,
            Parameter::Real(_) => true,
            _ => false,
        };
        if !fits {
            return false;
        }
        i = i + 1;
    }
    true
}

/// The integer that a parameter is.
fn integer_of(param: &Parameter) -> (out: Option<i64>)
    ensures
        out is Some == param@ is Integer,
        out matches Some(n) ==> param@ == ParamView::Integer(n),
{
    match param {
        Parameter::Integer(n) => Some(*n),
        _ => None,
    }
}

fn find_clamped(mult: &Vec<Parameter>, degree: i64, poles: usize) -> (out: bool)
    requires
        degree >= 1,
    ensures
        out == is_clamped(params_view(mult@), degree as int, poles as int),
{
    let ghost views = params_view(mult@);
    if mult.len() < 2 {
        return false;
    }
    let mut sum: i128 = 0;
    let mut i: usize = 0;
    assert(views.take(0) =~= Seq::<ParamView>::empty());
    while i < mult.len()
        invariant
            i <= mult.len(),
            mult.len() >= 2,
            degree >= 1,
            views == params_view(mult@),
            forall|k: int| 0 <= k < i ==> (#[trigger] views[k]) is Integer,
            forall|k: int|
                0 <= k < i ==> if k == 0 || k == views.len() - 1 {
                    (#[trigger] views[k])->Integer_0 == degree + 1
                } else {
                    0 < views[k]->Integer_0 <= degree
                },
            sum == total(views.take(i as int)),
            0 <= sum <= i * 0x8000_0000_0000_0000,
        decreases mult.len() - i,
    {
        assert(views[i as int] == mult@[i as int]@);
        assert(views.take(i + 1).drop_last() =~= views.take(i as int));
        assert(views.take(i + 1).last() == views[i as int]);
        let n: i64 = match integer_of(&mult[i]) {
            Some(n) => n,
            None => {
                return false;
            },
        };
        if i == 0 || i == mult.len() - 1 {
            if n as i128 != degree as i128 + 1 {
                return false;
            }
        } else if n <= 0 || n > degree {
            return false;
        }
        sum = sum + n as i128;
        i = i + 1;
    }
    assert(views.take(views.len() as int) =~= views);
    sum == poles as i128 + degree as i128 + 1
}

fn find_all_points(
    poles: &Vec<u64>,
    entities: &Vec<EntityInstance>,
    index: &HashMap<u64, usize>,
) -> (out: bool)
    requires
        indexes(index@, entities_view(entities@)),
    ensures
        out == all_points(entities_view(entities@), poles@),
{
    let mut i: usize = 0;
    while i < poles.len()
        invariant
            i <= poles.len(),
            indexes(index@, entities_view(entities@)),
            forall|k: int|
                0 <= k < i ==> has_coordinates(entities_view(entities@), #[trigger] poles@[k]),
        decreases poles.len() - i,
    {
        if !find_coordinates(poles[i], entities, index) {
            return false;
        }
        i = i + 1;
    }
    true
}

/// The name and the poles of a curve.
pub struct LineForm {
    pub name: String,
    pub poles: Vec<u64>,
}

impl View for LineForm {
    type V = (Seq<char>, Seq<u64>);

    open spec fn view(&self) -> (Seq<char>, Seq<u64>) {
        (self.name@, self.poles@)
    }
}

/// The name and the poles of a clamped spline that is neither closed nor crosses itself.
fn analyze_spline(
    record: &Record,
    entities: &Vec<EntityInstance>,
    index: &HashMap<u64, usize>,
) -> (out: Option<LineForm>)
    requires
        indexes(index@, entities_view(entities@)),
    ensures
        out is Some == clamped_form(entities_view(entities@), record@) is Some,
        out matches Some(form) ==> clamped_form(entities_view(entities@), record@) == Some(form@),
{
    let params = match &record.parameter {
        Parameter::List(params) => params,
        _ => {
            return None;
        },
    };
    let ghost views = params_view(params@);
    proof {
        lemma_list_view(*params);
        assert(record@.parameter == ParamView::List(views));
    }
    if params.len() != 9 {
        return None;
    }
    assert(forall|i: int| 0 <= i < 9 ==> #[trigger] views[i] == params@[i]@);
    let name = match &params[0] {
        Parameter::String(name) => name,
        _ => {
            return None;
        },
    };
    let degree: i64 = match integer_of(&params[1]) {
        Some(degree) => degree,
        None => {
            return None;
        },
    };
    let poles = match entity_ref_list(&params[2]) {
        Some(poles) => poles,
        None => {
            return None;
        },
    };
    let mult = match &params[6] {
        Parameter::List(mult) => mult,
        _ => {
            return None;
        },
    };
    let knots = match &params[7] {
        Parameter::List(knots) => knots,
        _ => {
            return None;
        },
    };
    proof {
        lemma_list_view(*mult);
        lemma_list_view(*knots);
    }
    if degree < 1 || (poles.len() as i128) < degree as i128 + 1 {
        return None;
    }
    if !is_false_param(&params[4]) || !is_false_param(&params[5]) {
        return None;
    }
    if !find_all_numbers(knots) || knots.len() != mult.len() {
        return None;
    }
    if !find_clamped(mult, degree, poles.len()) || !find_all_points(&poles, entities, index) {
        return None;
    }
    Some(LineForm { name: name.clone(), poles })
}

/// The name and the poles of an entity that becomes a line.
fn analyze_candidate(
    at: usize,
    entities: &Vec<EntityInstance>,
    index: &HashMap<u64, usize>,
    table: &HashMap<u64, Vec<u64>>,
    straight: &Vec<StraightCurve>,
) -> (out: Option<LineForm>)
    requires
        at < entities@.len(),
        indexes(index@, entities_view(entities@)),
        lists_references(table@, entities_view(entities@), entities@.len()),
    ensures
        ({
            let form = line_form(
                entities_view(entities@),
                straight_view(straight@),
                entities_view(entities@)[at as int],
            );
            &&& out is Some == form is Some
            &&& out matches Some(f) ==> form == Some(f@)
        }),
{
    assert(entities_view(entities@)[at as int] == entities@[at as int]@);
    match &entities[at] {
        EntityInstance::Simple { id, record } => {
            if !same_text(record.name.as_str(), "B_SPLINE_CURVE_WITH_KNOTS") {
                return None;
            }
            assert(listed(table@, *id) == holders(
                entities_view(entities@),
                *id,
                entities@.len(),
            ));
            match table.get(id) {
                Some(all) => {
                    if all.len() != 1 || !find_edge_on(all[0], *id, entities, index) {
                        return None;
                    }
                },
                None => {
                    return None;
                },
            }
            if find_measured(straight, *id).is_none() {
                return None;
            }
            analyze_spline(record, entities, index)
        },
        EntityInstance::Complex { .. } => None,
    }
}

/// The names and the poles of curves, by id.
pub open spec fn holds_forms(
    forms: Map<u64, LineForm>,
    entities: Seq<EntityView>,
    straight: Seq<StraightView>,
    n: nat,
) -> bool {
    forall|id: u64| #[trigger]
        forms.contains_key(id) == (form_of(entities, straight, id, n) is Some) && (
        forms.contains_key(id) ==> form_of(entities, straight, id, n) == Some(forms[id]@))
}

/// The curves that become lines, in ascending order, with their names and poles.
fn find_curves(entities: &Vec<EntityInstance>, straight: &Vec<StraightCurve>) -> (out: (
    HashMap<u64, LineForm>,
    Vec<u64>,
))
    ensures
        holds_forms(
            out.0@,
            entities_view(entities@),
            straight_view(straight@),
            entities@.len(),
        ),
        out.1@ == in_order(
            curves(entities_view(entities@), straight_view(straight@), entities@.len()),
        ),
{
    let ghost views = entities_view(entities@);
    let ghost measures = straight_view(straight@);
    let index = build_index(entities);
    let table = reference_lists(entities);
    let mut forms: HashMap<u64, LineForm> = HashMap::new();
    let mut ids: Vec<u64> = Vec::new();
    let mut i: usize = 0;
    while i < entities.len()
        invariant
            i <= entities.len(),
            views == entities_view(entities@),
            measures == straight_view(straight@),
            indexes(index@, views),
            lists_references(table@, views, entities@.len()),
            holds_forms(forms@, views, measures, i as nat),
            ids@ == in_order(curves(views, measures, i as nat)),
        decreases entities.len() - i,
    {
        assert(views[i as int] == entities@[i as int]@);
        let ghost before = forms@;
        let ghost so_far = curves(views, measures, i as nat);
        if let Some(form) = analyze_candidate(i, entities, &index, &table, straight) {
            let id: u64 = entity_id(&entities[i]);
            insert_id(&mut ids, id);
            assert(so_far.push(id).drop_last() =~= so_far);
            forms.insert(id, form);
        }
        assert forall|id: u64| #[trigger]
            forms@.contains_key(id) == (form_of(views, measures, id, (i + 1) as nat) is Some) && (
            forms@.contains_key(id) ==> form_of(views, measures, id, (i + 1) as nat) == Some(
                forms@[id]@,
            )) by {
            assert(before.contains_key(id) == (form_of(views, measures, id, i as nat) is Some));
        }
        i = i + 1;
    }
    (forms, ids)
}

/// Curves that become lines have been measured.
pub proof fn lemma_curves_measured(entities: Seq<EntityView>, straight: Seq<StraightView>, n: nat)
    requires
        n <= entities.len(),
    ensures
        forall|i: int|
            0 <= i < curves(entities, straight, n).len() ==> measured(
                straight,
                #[trigger] curves(entities, straight, n)[i],
            ) is Some,
    decreases n,
{
    if n > 0 {
        lemma_curves_measured(entities, straight, (n - 1) as nat);
    }
}

/// Putting ids in order keeps what holds of each.
pub proof fn lemma_in_order_measured(straight: Seq<StraightView>, ids: Seq<u64>)
    requires
        forall|i: int| 0 <= i < ids.len() ==> measured(straight, #[trigger] ids[i]) is Some,
    ensures
        in_order(ids).len() == ids.len(),
        forall|i: int|
            0 <= i < in_order(ids).len() ==> measured(straight, #[trigger] in_order(ids)[i]) is Some,
    decreases ids.len(),
{
    if ids.len() > 0 {
        assert forall|i: int| 0 <= i < ids.drop_last().len() implies measured(
            straight,
            #[trigger] ids.drop_last()[i],
        ) is Some by {
            assert(ids.drop_last()[i] == ids[i]);
        }
        lemma_in_order_measured(straight, ids.drop_last());
        lemma_inserted_measured(straight, in_order(ids.drop_last()), ids.last());
    }
}

proof fn lemma_inserted_measured(straight: Seq<StraightView>, sorted: Seq<u64>, id: u64)
    requires
        measured(straight, id) is Some,
        forall|i: int| 0 <= i < sorted.len() ==> measured(straight, #[trigger] sorted[i]) is Some,
    ensures
        inserted(sorted, id).len() == sorted.len() + 1,
        forall|i: int|
            0 <= i < inserted(sorted, id).len() ==> measured(
                straight,
                #[trigger] inserted(sorted, id)[i],
            ) is Some,
    decreases sorted.len(),
{
    if sorted.len() > 0 && sorted.last() > id {
        assert forall|i: int| 0 <= i < sorted.drop_last().len() implies measured(
            straight,
            #[trigger] sorted.drop_last()[i],
        ) is Some by {
            assert(sorted.drop_last()[i] == sorted[i]);
        }
        lemma_inserted_measured(straight, sorted.drop_last(), id);
    }
}

/// The first group that a curve belongs to.
fn find_group(accepted: &HashMap<u64, Vec<u64>>, groups: &Vec<Vec<u64>>, curve: u64) -> (out: Option<
    usize,
>)
    requires
        forall|i: int| 0 <= i < groups@.len() ==> (#[trigger] groups@[i])@.len() > 0,
    ensures
        out is Some == group_for(accepted@, lists_view(groups@), curve) is Some,
        out matches Some(i) ==> i < groups@.len() && group_for(
            accepted@,
            lists_view(groups@),
            curve,
        ) == Some(i as int),
{
    let ghost views = lists_view(groups@);
    let mut i: usize = 0;
    while i < groups.len()
        invariant
            i <= groups.len(),
            views == lists_view(groups@),
            forall|i: int| 0 <= i < groups@.len() ==> (#[trigger] groups@[i])@.len() > 0,
            group_for(accepted@, views.take(i as int), curve) is None,
        decreases groups.len() - i,
    {
        assert(views.take(i + 1).drop_last() =~= views.take(i as int));
        assert(views.take(i + 1).last() == groups@[i as int]@);
        let first: u64 = groups[i][0];
        let found = match accepted.get(&first) {
            Some(list) => list_contains(list, curve),
            None => false,
        };
        assert(found == accepts(accepted@, first, curve));
        if found {
            proof {
                lemma_group_stays(accepted@, views, curve, i as int);
            }
            return Some(i);
        }
        i = i + 1;
    }
    assert(views.take(views.len() as int) =~= views);
    None
}

/// The first group stays the first, whatever follows it.
proof fn lemma_group_stays(
    accepted: Map<u64, Vec<u64>>,
    groups: Seq<Seq<u64>>,
    curve: u64,
    i: int,
)
    requires
        0 <= i < groups.len(),
        group_for(accepted, groups.take(i + 1), curve) == Some(i),
    ensures
        group_for(accepted, groups, curve) == Some(i),
    decreases groups.len(),
{
    if groups.len() == i + 1 {
        assert(groups.take(i + 1) =~= groups);
    } else {
        assert(groups.drop_last().take(i + 1) =~= groups.take(i + 1));
        lemma_group_stays(accepted, groups.drop_last(), curve, i);
    }
}

/// Groups of the curves of a bucket with one direction.
fn group_bucket(
    straight: &Vec<StraightCurve>,
    accepted: &HashMap<u64, Vec<u64>>,
    ids: &Vec<u64>,
    bucket: u64,
) -> (out: Vec<Vec<u64>>)
    requires
        forall|i: int|
            0 <= i < ids@.len() ==> measured(
                straight_view(straight@),
                #[trigger] ids@[i],
            ) is Some,
    ensures
        lists_view(out@) == grouped(
            accepted@,
            in_bucket(straight_view(straight@), ids@, bucket),
        ),
        all_measured(straight_view(straight@), lists_view(out@)),
{
    let ghost measures = straight_view(straight@);
    let mut groups: Vec<Vec<u64>> = Vec::new();
    let mut i: usize = 0;
    assert(ids@.take(0) =~= Seq::<u64>::empty());
    assert(lists_view(groups@) =~= Seq::<Seq<u64>>::empty());
    while i < ids.len()
        invariant
            i <= ids.len(),
            measures == straight_view(straight@),
            forall|i: int| 0 <= i < ids@.len() ==> measured(measures, #[trigger] ids@[i]) is Some,
            lists_view(groups@) == grouped(
                accepted@,
                in_bucket(measures, ids@.take(i as int), bucket),
            ),
            all_measured(measures, lists_view(groups@)),
        decreases ids.len() - i,
    {
        let id: u64 = ids[i];
        assert(ids@.take(i + 1).drop_last() =~= ids@.take(i as int));
        assert(ids@.take(i + 1).last() == id);
        if let Some(at) = find_measured(straight, id) {
            if straight[at].bucket == bucket {
                let ghost rest = in_bucket(measures, ids@.take(i as int), bucket);
                let ghost before = lists_view(groups@);
                assert(rest.push(id).drop_last() =~= rest);
                assert forall|k: int| 0 <= k < groups@.len() implies (#[trigger]
                groups@[k])@.len() > 0 by {
                    assert(before[k] == groups@[k]@);
                }
                match find_group(accepted, &groups, id) {
                    Some(g) => {
                        let ghost members = groups@[g as int]@;
                        groups[g].push(id);
                        assert(lists_view(groups@) =~= before.update(
                            g as int,
                            before[g as int].push(id),
                        ));
                    },
                    None => {
                        let mut group: Vec<u64> = Vec::new();
                        group.push(id);
                        assert(group@ =~= seq![id]);
                        groups.push(group);
                        assert(lists_view(groups@) =~= before.push(seq![id]));
                    },
                }
            }
        }
        i = i + 1;
    }
    assert(ids@.take(ids@.len() as int) =~= ids@);
    groups
}

/// Every group holds a first curve, which has been measured.
pub open spec fn all_measured(straight: Seq<StraightView>, groups: Seq<Seq<u64>>) -> bool {
    forall|i: int|
        0 <= i < groups.len() ==> (#[trigger] groups[i]).len() > 0 && measured(
            straight,
            groups[i][0],
        ) is Some
}

/// The groups of all buckets.
fn group_curves(
    straight: &Vec<StraightCurve>,
    accepted: &HashMap<u64, Vec<u64>>,
    ids: &Vec<u64>,
) -> (out: Vec<Vec<u64>>)
    requires
        forall|i: int|
            0 <= i < ids@.len() ==> measured(
                straight_view(straight@),
                #[trigger] ids@[i],
            ) is Some,
    ensures
        lists_view(out@) == all_groups(
            accepted@,
            straight_view(straight@),
            ids@,
            sorted_of(bucket_list(straight_view(straight@), ids@)),
        ),
        all_measured(straight_view(straight@), lists_view(out@)),
{
    let ghost measures = straight_view(straight@);
    let mut list: Vec<u64> = Vec::new();
    let mut i: usize = 0;
    while i < ids.len()
        invariant
            i <= ids.len(),
            measures == straight_view(straight@),
            forall|i: int| 0 <= i < ids@.len() ==> measured(measures, #[trigger] ids@[i]) is Some,
            list@ == bucket_list(measures, ids@).take(i as int),
        decreases ids.len() - i,
    {
        if let Some(at) = find_measured(straight, ids[i]) {
            list.push(straight[at].bucket);
        }
        assert(measured(measures, ids@[i as int]) is Some);
        assert(list@ =~= bucket_list(measures, ids@).take(i + 1));
        i = i + 1;
    }
    assert(list@ =~= bucket_list(measures, ids@));
    let buckets = sorted_set(&list);
    let mut out: Vec<Vec<u64>> = Vec::new();
    let mut b: usize = 0;
    assert(buckets@.take(0) =~= Seq::<u64>::empty());
    assert(lists_view(out@) =~= Seq::<Seq<u64>>::empty());
    while b < buckets.len()
        invariant
            b <= buckets.len(),
            measures == straight_view(straight@),
            forall|i: int| 0 <= i < ids@.len() ==> measured(measures, #[trigger] ids@[i]) is Some,
            lists_view(out@) == all_groups(accepted@, measures, ids@, buckets@.take(b as int)),
            all_measured(measures, lists_view(out@)),
        decreases buckets.len() - b,
    {
        assert(buckets@.take(b + 1).drop_last() =~= buckets@.take(b as int));
        assert(buckets@.take(b + 1).last() == buckets@[b as int]);
        let mut groups = group_bucket(straight, accepted, ids, buckets[b]);
        let ghost before = lists_view(out@);
        let ghost more = lists_view(groups@);
        out.append(&mut groups);
        assert(lists_view(out@) =~= before + more);
        assert forall|i: int| 0 <= i < lists_view(out@).len() implies (#[trigger] lists_view(
            out@,
        )[i]).len() > 0 && measured(measures, lists_view(out@)[i][0]) is Some by {
            if i < before.len() {
                assert(lists_view(out@)[i] == before[i]);
            } else {
                assert(lists_view(out@)[i] == more[i - before.len()]);
            }
        }
        b = b + 1;
    }
    assert(buckets@.take(buckets@.len() as int) =~= buckets@);
    out
}

proof fn lemma_with_vectors_len(
    straight: Seq<StraightView>,
    groups: Seq<Seq<u64>>,
    last: u64,
    n: nat,
)
    ensures
        with_vectors(straight, groups, last, n).len() == 2 * n,
    decreases n,
{
    if n > 0 {
        lemma_with_vectors_len(straight, groups, last, (n - 1) as nat);
    }
}

/// Adds a direction and a vector for each group.
fn push_vectors(straight: &Vec<StraightCurve>, groups: &Vec<Vec<u64>>, last: u64) -> (out: (
    Vec<EntityInstance>,
    HashMap<u64, u64>,
))
    requires
        all_measured(straight_view(straight@), lists_view(groups@)),
        last + 2 * groups@.len() <= u64::MAX,
    ensures
        entities_view(out.0@) == with_vectors(
            straight_view(straight@),
            lists_view(groups@),
            last,
            groups@.len(),
        ),
        out.1@ == vectors(lists_view(groups@), last, groups@.len()),
{
    let ghost measures = straight_view(straight@);
    let ghost views = lists_view(groups@);
    let mut added: Vec<EntityInstance> = Vec::new();
    let mut map: HashMap<u64, u64> = HashMap::new();
    let mut i: usize = 0;
    assert(entities_view(added@) =~= Seq::<EntityView>::empty());
    assert(map@ =~= Map::<u64, u64>::empty());
    while i < groups.len()
        invariant
            i <= groups.len(),
            measures == straight_view(straight@),
            views == lists_view(groups@),
            all_measured(measures, views),
            last + 2 * groups@.len() <= u64::MAX,
            entities_view(added@) == with_vectors(measures, views, last, i as nat),
            map@ == vectors(views, last, i as nat),
        decreases groups.len() - i,
    {
        proof {
            lemma_with_vectors_len(measures, views, last, i as nat);
        }
        let group = &groups[i];
        assert(views[i as int] == group@);
        let id: u64 = last + 2 * i as u64 + 1;
        if let Some(at) = find_measured(straight, group[0]) {
            let unit = &straight[at];
            push_triple(
                &mut added,
                id,
                "DIRECTION",
                unit.x.clone(),
                unit.y.clone(),
                unit.z.clone(),
            );
            let mut params: Vec<Parameter> = Vec::new();
            params.push(Parameter::String(String::new()));
            params.push(entity_ref(id));
            params.push(Parameter::Real("1".to_string()));
            assert(params_view(params@) =~= seq![
                ParamView::String(Seq::empty()),
                ref_param(id),
                ParamView::Real("1"@),
            ]);
            push_simple(&mut added, id + 1, "VECTOR", params);
        }
        let ghost before = map@;
        let mut k: usize = 0;
        assert(group@.take(0) =~= Seq::<u64>::empty());
        while k < group.len()
            invariant
                k <= group.len(),
                id < u64::MAX,
                map@ == pointing(before, group@.take(k as int), (id + 1) as u64),
            decreases group.len() - k,
        {
            assert(group@.take(k + 1).drop_last() =~= group@.take(k as int));
            assert(group@.take(k + 1).last() == group@[k as int]);
            map.insert(group[k], id + 1);
            k = k + 1;
        }
        assert(group@.take(group@.len() as int) =~= group@);
        i = i + 1;
    }
    (added, map)
}

/// Turns curves into lines, and gives their number and their former poles.
fn replace_curves(
    entities: &mut Vec<EntityInstance>,
    forms: &HashMap<u64, LineForm>,
    map: &HashMap<u64, u64>,
    Ghost(straight): Ghost<Seq<StraightView>>,
) -> (out: (usize, Vec<u64>))
    requires
        holds_forms(forms@, entities_view(old(entities)@), straight, old(entities)@.len()),
    ensures
        entities_view(final(entities)@) == with_lines(
            entities_view(old(entities)@),
            straight,
            map@,
        ),
        out.0 == line_count(entities_view(old(entities)@), straight, map@, old(entities)@.len()),
        out.1@ == old_poles(entities_view(old(entities)@), straight, map@, old(entities)@.len()),
{
    let ghost start = entities_view(entities@);
    let ghost done = with_lines(start, straight, map@);
    let mut count: usize = 0;
    let mut poles: Vec<u64> = Vec::new();
    let mut i: usize = 0;
    assert(done.take(0) + start.skip(0) =~= start);
    while i < entities.len()
        invariant
            i <= entities.len(),
            entities@.len() == start.len(),
            holds_forms(forms@, start, straight, start.len()),
            done == with_lines(start, straight, map@),
            entities_view(entities@) == done.take(i as int) + start.skip(i as int),
            count == line_count(start, straight, map@, i as nat),
            count <= i,
            poles@ == old_poles(start, straight, map@, i as nat),
        decreases entities.len() - i,
    {
        let ghost views = entities_view(entities@);
        assert(views[i as int] == entities@[i as int]@);
        assert(views[i as int] == start[i as int]);
        let id: u64 = entity_id(&entities[i]);
        let simple = match &entities[i] {
            EntityInstance::Simple { .. } => true,
            EntityInstance::Complex { .. } => false,
        };
        assert(forms@.contains_key(id) == (form_of(start, straight, id, start.len()) is Some));
        let mut changed = false;
        if simple {
            if let Some(form) = forms.get(&id) {
                if let Some(vector) = map.get(&id) {
                    let mut params: Vec<Parameter> = Vec::new();
                    params.push(Parameter::String(form.name.clone()));
                    if form.poles.len() > 0 {
                        params.push(entity_ref(form.poles[0]));
                    }
                    params.push(entity_ref(*vector));
                    proof {
                        lemma_form_has_poles(start, straight, id, start.len());
                        assert(params_view(params@) =~= seq![
                            ParamView::String(form.name@),
                            ref_param(form.poles@[0]),
                            ref_param(*vector),
                        ]);
                        lemma_list_view(params);
                    }
                    let line = EntityInstance::Simple {
                        id,
                        record: Record {
                            name: "LINE".to_string(),
                            parameter: Parameter::List(params),
                        },
                    };
                    assert(line@ == done[i as int]);
                    replace_entity(entities, i, line);
                    append_ids(&mut poles, &form.poles);
                    count = count + 1;
                    changed = true;
                }
            }
        }
        assert(!changed ==> done[i as int] == start[i as int]);
        assert(entities_view(entities@) =~= done.take(i + 1) + start.skip(i + 1));
        i = i + 1;
    }
    assert(done.take(done.len() as int) + start.skip(start.len() as int) =~= done);
    (count, poles)
}

proof fn lemma_form_has_poles(
    entities: Seq<EntityView>,
    straight: Seq<StraightView>,
    id: u64,
    n: nat,
)
    requires
        n <= entities.len(),
    ensures
        form_of(entities, straight, id, n) matches Some(form) ==> form.1.len() > 0,
    decreases n,
{
    if n > 0 {
        lemma_form_has_poles(entities, straight, id, (n - 1) as nat);
    }
}

/// The points among poles that nothing refers to any more.
fn find_orphans(
    base: &Vec<EntityInstance>,
    all: &Vec<EntityInstance>,
    poles: &Vec<u64>,
) -> (out: HashSet<u64>)
    ensures
        out@ == orphans(entities_view(base@), entities_view(all@), poles@),
{
    let ghost views = entities_view(base@);
    let ghost whole = entities_view(all@);
    let index = build_index(base);
    let referenced = referenced_ids(all);
    let mut out: HashSet<u64> = HashSet::new();
    let mut i: usize = 0;
    while i < poles.len()
        invariant
            i <= poles.len(),
            views == entities_view(base@),
            whole == entities_view(all@),
            indexes(index@, views),
            forall|id: u64| #[trigger] referenced@.contains(id) == all_refs(whole).contains(id),
            forall|id: u64| #[trigger]
                out@.contains(id) == orphans(views, whole, poles@.take(i as int)).contains(id),
        decreases poles.len() - i,
    {
        let id: u64 = poles[i];
        let ghost before = out@;
        if !referenced.contains(&id) && find_typed(
            base,
            &index,
            id,
            "CARTESIAN_POINT",
        ).is_some() {
            out.insert(id);
        }
        assert forall|k: u64| #[trigger]
            out@.contains(k) == orphans(views, whole, poles@.take(i + 1)).contains(k) by {
            assert(before.contains(k) == orphans(views, whole, poles@.take(i as int)).contains(k));
            assert(poles@.take(i + 1) =~= poles@.take(i as int).push(id));
            let next = poles@.take(i as int).push(id);
            if poles@.take(i as int).contains(k) {
                let j = choose|j: int| 0 <= j < i && poles@.take(i as int)[j] == k;
                assert(next[j] == k);
            }
            if k == id {
                assert(next[i as int] == k);
            }
        }
        i = i + 1;
    }
    assert(poles@.take(poles@.len() as int) =~= poles@);
    assert(out@ =~= orphans(views, whole, poles@));
    out
}

/// Turns straight B-spline curves into lines. A curve counts that is clamped, that one edge and
/// nothing else uses, and whose poles lie on a line between the vertices of that edge. Lines
/// with one direction share it.
pub fn recover_straight_bspline_lines(
    entities: &mut Vec<EntityInstance>,
    evidence: &LineEvidence,
) -> (stats: LineRecoveryStats)
    ensures
        lines_recovered(
            entities_view(old(entities)@),
            *evidence,
            entities_view(final(entities)@),
            stats,
        ),
{
    let ghost views = entities_view(entities@);
    let ghost measures = straight_view(evidence.straight@);
    let (forms, ids) = find_curves(entities, &evidence.straight);
    proof {
        lemma_curves_measured(views, measures, views.len());
        lemma_in_order_measured(measures, curves(views, measures, views.len()));
    }
    let groups = group_curves(&evidence.straight, &evidence.accepted, &ids);
    let last: u64 = largest_id(entities);
    if groups.len() as u128 * 2 + last as u128 > u64::MAX as u128 {
        return LineRecoveryStats {
            curves_recovered: 0,
            direction_groups: 0,
            orphan_points_removed: 0,
        };
    }
    let (added, map) = push_vectors(&evidence.straight, &groups, last);
    let (count, poles) = replace_curves(entities, &forms, &map, Ghost(measures));
    let mut all = clone_entities(entities);
    join_entities(&mut all, &added);
    let gone = find_orphans(entities, &all, &poles);
    remove_entities(&mut all, &gone);
    *entities = all;
    LineRecoveryStats {
        curves_recovered: count,
        direction_groups: groups.len(),
        orphan_points_removed: gone.len(),
    }
}

} // verus!
