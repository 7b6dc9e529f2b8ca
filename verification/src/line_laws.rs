//! What lines that stand for straight curves keep.

use vstd::prelude::*;

use crate::ast::{EntityView, ParamView, RecordView};
use crate::brep::has_coordinates;
use crate::face_coalesce::{lemma_max_id, ref_param};
use crate::graph::{
    lemma_position, lemma_refs_in_all, max_id, nth, nth_ref, nth_ref_list, position, record_at,
    refers, simple_record, typed_record, without,
};
use crate::instance_laws::has_triple;
use crate::instances::in_order;
use crate::line_recovery::{
    accepts, all_groups, becomes_line, bucket_list, curves, form_of, group_for, grouped,
    has_one_edge, holders, in_bucket, lemma_curves_measured, lemma_in_order_measured, line_form,
    lines_recovered, measured, old_poles, orphans, pointing, straight_view, times, vectors,
    with_lines, with_vectors, LineEvidence, LineFit, LineRecoveryStats, StraightView,
};
use crate::lookup::{
    lemma_changed_found, lemma_joined_found, lemma_left_found, lemma_list_refers, lemma_new_found,
    numbered_from, numbered_upto,
};
use crate::refs::{all_refs, entity_refs, list_refs, param_refs, records_refs};
use crate::sets::sorted_of;
use crate::settled::distinct;

verus! {

/// Whether a curve was measured to be straight between the ends of its edge.
pub open spec fn was_straight(fit: LineFit) -> bool {
    &&& fit.collinear
    &&& fit.monotonic
    &&& fit.start_at_first && fit.end_at_last || fit.start_at_last && fit.end_at_first
}

/// Whether a direction was measured of a curve: from its first to its last pole, which it has of
/// a straight curve of its own direction.
pub open spec fn is_direction_of(
    straight: Seq<StraightView>,
    accepted: Map<u64, Vec<u64>>,
    curve: u64,
    x: Seq<char>,
    y: Seq<char>,
    z: Seq<char>,
) -> bool {
    exists|k: int|
        {
            let found = #[trigger] straight[k];
            &&& 0 <= k < straight.len()
            &&& was_straight(found.fit)
            &&& found.x == x && found.y == y && found.z == z
            &&& found.curve == curve || (accepted.contains_key(found.curve)
                && accepted[found.curve]@.contains(curve))
        }
}

/// Whether an entity is a direction that was measured of a curve.
pub open spec fn points_along(
    entities: Seq<EntityView>,
    direction: u64,
    straight: Seq<StraightView>,
    accepted: Map<u64, Vec<u64>>,
    curve: u64,
) -> bool {
    exists|x: Seq<char>, y: Seq<char>, z: Seq<char>|
        #[trigger] is_direction_of(straight, accepted, curve, x, y, z) && has_triple(
            entities,
            direction,
            "DIRECTION"@,
            x,
            y,
            z,
        )
}

/// Whether a record is a line that runs from a point in a direction that was measured of a
/// curve.
pub open spec fn runs_along(
    entities: Seq<EntityView>,
    straight: Seq<StraightView>,
    accepted: Map<u64, Vec<u64>>,
    curve: u64,
    line: RecordView,
    point: u64,
) -> bool {
    &&& line.name == "LINE"@
    &&& nth(line, 3) is None
    &&& nth_ref(line, 1) == Some(point)
    &&& nth_ref(line, 2) matches Some(vector)
    &&& record_at(entities, vector) matches Some(along)
    &&& along.name == "VECTOR"@
    &&& nth(along, 2) == Some(ParamView::Real("1"@))
    &&& nth_ref(along, 1) matches Some(direction)
    &&& points_along(entities, direction, straight, accepted, curve)
}

proof fn lemma_measured(straight: Seq<StraightView>, curve: u64)
    ensures
        measured(straight, curve) matches Some(found) ==> found.curve == curve && was_straight(
            found.fit,
        ) && straight.contains(found),
    decreases straight.len(),
{
    if straight.len() > 0 {
        if straight.last().curve == curve {
            assert(straight[straight.len() - 1] == straight.last());
        } else {
            let front = straight.drop_last();
            lemma_measured(front, curve);
            if let Some(found) = measured(front, curve) {
                let k = choose|k: int| 0 <= k < front.len() && front[k] == found;
                assert(straight[k] == found);
            }
        }
    }
}

/// Whether the curves of a group have the direction of its first one, and all were measured.
spec fn is_group(
    accepted: Map<u64, Vec<u64>>,
    straight: Seq<StraightView>,
    group: Seq<u64>,
) -> bool {
    &&& group.len() > 0
    &&& forall|i: int|
        0 <= i < group.len() ==> measured(straight, #[trigger] group[i]) is Some && (i == 0
            || accepts(accepted, group[0], group[i]))
}

spec fn are_groups(
    accepted: Map<u64, Vec<u64>>,
    straight: Seq<StraightView>,
    groups: Seq<Seq<u64>>,
) -> bool {
    forall|g: int| 0 <= g < groups.len() ==> is_group(accepted, straight, #[trigger] groups[g])
}

spec fn all_measured(straight: Seq<StraightView>, ids: Seq<u64>) -> bool {
    forall|i: int| 0 <= i < ids.len() ==> measured(straight, #[trigger] ids[i]) is Some
}

proof fn lemma_group_for(accepted: Map<u64, Vec<u64>>, groups: Seq<Seq<u64>>, curve: u64)
    ensures
        group_for(accepted, groups, curve) matches Some(g) ==> 0 <= g < groups.len() && accepts(
            accepted,
            groups[g][0],
            curve,
        ),
    decreases groups.len(),
{
    if groups.len() > 0 {
        lemma_group_for(accepted, groups.drop_last(), curve);
    }
}

proof fn lemma_grouped(
    accepted: Map<u64, Vec<u64>>,
    straight: Seq<StraightView>,
    ids: Seq<u64>,
)
    requires
        all_measured(straight, ids),
    ensures
        are_groups(accepted, straight, grouped(accepted, ids)),
    decreases ids.len(),
{
    if ids.len() > 0 {
        let front = ids.drop_last();
        assert forall|i: int| 0 <= i < front.len() implies measured(
            straight,
            #[trigger] front[i],
        ) is Some by {
            assert(front[i] == ids[i]);
        }
        lemma_grouped(accepted, straight, front);
        let groups = grouped(accepted, front);
        let all = grouped(accepted, ids);
        let id = ids.last();
        assert(ids[ids.len() - 1] == id);
        lemma_group_for(accepted, groups, id);
        assert forall|g: int| 0 <= g < all.len() implies is_group(
            accepted,
            straight,
            #[trigger] all[g],
        ) by {
            match group_for(accepted, groups, id) {
                Some(to) => {
                    assert(is_group(accepted, straight, groups[g]));
                    if g == to {
                        let old = groups[g];
                        assert forall|i: int| 0 <= i < all[g].len() implies measured(
                            straight,
                            #[trigger] all[g][i],
                        ) is Some && (i == 0 || accepts(accepted, all[g][0], all[g][i])) by {
                            if i < old.len() {
                                assert(all[g][i] == old[i]);
                            }
                        }
                    }
                },
                None => {
                    if g < groups.len() {
                        assert(is_group(accepted, straight, groups[g]));
                    }
                },
            }
        }
    }
}

proof fn lemma_in_bucket(straight: Seq<StraightView>, ids: Seq<u64>, bucket: u64)
    requires
        all_measured(straight, ids),
    ensures
        all_measured(straight, in_bucket(straight, ids, bucket)),
    decreases ids.len(),
{
    if ids.len() > 0 {
        let front = ids.drop_last();
        assert forall|i: int| 0 <= i < front.len() implies measured(
            straight,
            #[trigger] front[i],
        ) is Some by {
            assert(front[i] == ids[i]);
        }
        lemma_in_bucket(straight, front, bucket);
        assert(ids[ids.len() - 1] == ids.last());
        let rest = in_bucket(straight, front, bucket);
        let all = in_bucket(straight, ids, bucket);
        assert forall|i: int| 0 <= i < all.len() implies measured(
            straight,
            #[trigger] all[i],
        ) is Some by {
            if i < rest.len() {
                assert(all[i] == rest[i]);
            }
        }
    }
}

proof fn lemma_all_groups(
    accepted: Map<u64, Vec<u64>>,
    straight: Seq<StraightView>,
    ids: Seq<u64>,
    buckets: Seq<u64>,
)
    requires
        all_measured(straight, ids),
    ensures
        are_groups(accepted, straight, all_groups(accepted, straight, ids, buckets)),
    decreases buckets.len(),
{
    if buckets.len() > 0 {
        lemma_all_groups(accepted, straight, ids, buckets.drop_last());
        let own = in_bucket(straight, ids, buckets.last());
        lemma_in_bucket(straight, ids, buckets.last());
        lemma_grouped(accepted, straight, own);
        let rest = all_groups(accepted, straight, ids, buckets.drop_last());
        let more = grouped(accepted, own);
        let all = all_groups(accepted, straight, ids, buckets);
        assert forall|g: int| 0 <= g < all.len() implies is_group(
            accepted,
            straight,
            #[trigger] all[g],
        ) by {
            if g < rest.len() {
                assert(all[g] == rest[g]);
            } else {
                assert(all[g] == more[g - rest.len()]);
            }
        }
    }
}

proof fn lemma_pointing(map: Map<u64, u64>, ids: Seq<u64>, to: u64, id: u64)
    ensures
        pointing(map, ids, to).contains_key(id) == (ids.contains(id) || map.contains_key(id)),
        ids.contains(id) ==> pointing(map, ids, to)[id] == to,
        !ids.contains(id) && map.contains_key(id) ==> pointing(map, ids, to)[id] == map[id],
    decreases ids.len(),
{
    if ids.len() > 0 {
        let front = ids.drop_last();
        lemma_pointing(map, front, to, id);
        if front.contains(id) {
            let k = choose|k: int| 0 <= k < front.len() && front[k] == id;
            assert(ids[k] == id);
        }
        if ids.contains(id) {
            let k = choose|k: int| 0 <= k < ids.len() && ids[k] == id;
            if k < front.len() {
                assert(front[k] == id);
            }
        }
        assert(ids[ids.len() - 1] == ids.last());
    }
}

proof fn lemma_vectors(groups: Seq<Seq<u64>>, last: u64, n: nat, id: u64)
    requires
        n <= groups.len(),
        vectors(groups, last, n).contains_key(id),
    ensures
        exists|g: int|
            0 <= g < n && (#[trigger] groups[g]).contains(id) && vectors(groups, last, n)[id] == (
            last + 2 * (g + 1)) as u64,
    decreases n,
{
    if n > 0 {
        let before = vectors(groups, last, (n - 1) as nat);
        lemma_pointing(before, groups[n - 1], (last + 2 * n) as u64, id);
        if !groups[n - 1].contains(id) {
            lemma_vectors(groups, last, (n - 1) as nat, id);
        } else {
            assert(groups[n - 1].contains(id));
        }
    }
}

proof fn lemma_with_vectors(
    straight: Seq<StraightView>,
    groups: Seq<Seq<u64>>,
    last: u64,
    n: nat,
)
    requires
        n <= groups.len(),
        last + 2 * n <= u64::MAX,
    ensures
        ({
            let added = with_vectors(straight, groups, last, n);
            &&& added.len() == 2 * n
            &&& numbered_from(added, last)
            &&& forall|g: int|
                0 <= g < n ==> {
                    let unit = measured(straight, (#[trigger] groups[g])[0])->Some_0;
                    let vector = (last + 2 * (g + 1)) as u64;
                    &&& record_at(added, vector) matches Some(along)
                    &&& along.name == "VECTOR"@
                    &&& nth(along, 2) == Some(ParamView::Real("1"@))
                    &&& nth_ref(along, 1) == Some((last + 2 * g + 1) as u64)
                    &&& has_triple(
                        added,
                        (last + 2 * g + 1) as u64,
                        "DIRECTION"@,
                        unit.x,
                        unit.y,
                        unit.z,
                    )
                }
        }),
    decreases n,
{
    if n > 0 {
        let m = (n - 1) as nat;
        lemma_with_vectors(straight, groups, last, m);
        let before = with_vectors(straight, groups, last, m);
        let added = with_vectors(straight, groups, last, n);
        assert forall|j: int| 0 <= j < added.len() implies (#[trigger] added[j]).id() == last + 1
            + j by {
            if j < before.len() {
                assert(added[j] == before[j]);
            }
        }
        crate::lookup::lemma_new_finds_as(before, added, last);
        lemma_new_found(added, last, 2 * m as int);
        lemma_new_found(added, last, 2 * m as int + 1);
        assert forall|g: int| 0 <= g < n implies ({
            let unit = measured(straight, (#[trigger] groups[g])[0])->Some_0;
            let vector = (last + 2 * (g + 1)) as u64;
            &&& record_at(added, vector) matches Some(along)
            &&& along.name == "VECTOR"@
            &&& nth(along, 2) == Some(ParamView::Real("1"@))
            &&& nth_ref(along, 1) == Some((last + 2 * g + 1) as u64)
            &&& has_triple(
                added,
                (last + 2 * g + 1) as u64,
                "DIRECTION"@,
                unit.x,
                unit.y,
                unit.z,
            )
        }) by {
            if g < m {
                assert(record_at(added, (last + 2 * (g + 1)) as u64) == record_at(
                    before,
                    (last + 2 * (g + 1)) as u64,
                ));
                assert(record_at(added, (last + 2 * g + 1) as u64) == record_at(
                    before,
                    (last + 2 * g + 1) as u64,
                ));
            }
        }
    }
}

/// Whether nothing in a list refers to an id.
pub open spec fn is_unused(entities: Seq<EntityView>, id: u64) -> bool {
    forall|i: int|
        0 <= i < entities.len() ==> !entity_refs(#[trigger] entities[i]).contains(id)
}

proof fn lemma_still_unused(entities: Seq<EntityView>, gone: Set<u64>, id: u64)
    requires
        !all_refs(entities).contains(id),
    ensures
        is_unused(without(entities, gone), id),
    decreases entities.len(),
{
    if entities.len() > 0 {
        let front = entities.drop_last();
        let fewer = all_refs(front);
        let own = entity_refs(entities.last());
        assert(all_refs(entities) == fewer + own);
        if fewer.contains(id) {
            let k = choose|k: int| 0 <= k < fewer.len() && fewer[k] == id;
            assert((fewer + own)[k] == id);
        }
        if own.contains(id) {
            let k = choose|k: int| 0 <= k < own.len() && own[k] == id;
            assert((fewer + own)[fewer.len() + k] == id);
        }
        lemma_still_unused(front, gone, id);
    }
}

proof fn lemma_form(
    entities: Seq<EntityView>,
    straight: Seq<StraightView>,
    id: u64,
    at: int,
    n: nat,
)
    requires
        distinct(entities),
        0 <= at < entities.len(),
        n <= entities.len(),
        entities[at].id() == id,
    ensures
        form_of(entities, straight, id, n) is Some ==> form_of(entities, straight, id, n)
            == line_form(entities, straight, entities[at]),
    decreases n,
{
    if n > 0 {
        lemma_form(entities, straight, id, at, (n - 1) as nat);
        if entities[n - 1].id() == id {
            assert(n - 1 == at);
        }
    }
}

proof fn lemma_line_is_no_point()
    ensures
        "LINE"@ != "CARTESIAN_POINT"@,
        "B_SPLINE_CURVE_WITH_KNOTS"@ != "CARTESIAN_POINT"@,
{
    reveal_strlit("LINE");
    reveal_strlit("CARTESIAN_POINT");
    reveal_strlit("B_SPLINE_CURVE_WITH_KNOTS");
    assert("LINE"@.len() == 4);
    assert("CARTESIAN_POINT"@.len() == 15);
    assert("B_SPLINE_CURVE_WITH_KNOTS"@.len() == 25);
}

proof fn lemma_not_typed(base: Seq<EntityView>, last: u64, id: u64)
    requires
        numbered_upto(base, last),
        id > last,
    ensures
        typed_record(base, id, "CARTESIAN_POINT"@) is None,
{
    lemma_position(base, id);
    if let Some(i) = position(base, id) {
        assert(base[i].id() <= last);
    }
}

/// The first pole of a curve that becomes a line stays.
proof fn lemma_pole_stays(
    entities: Seq<EntityView>,
    straight: Seq<StraightView>,
    map: Map<u64, u64>,
    all: Seq<EntityView>,
    gone: Set<u64>,
    at: int,
    poles: Seq<u64>,
)
    requires
        distinct(entities),
        0 <= at < entities.len(),
        line_form(entities, straight, entities[at]) matches Some(form) && form.1 == poles,
        poles.len() > 0,
        map.contains_key(entities[at].id()),
        form_of(entities, straight, entities[at].id(), entities.len()) == line_form(
            entities,
            straight,
            entities[at],
        ),
        entities[at] is Simple,
        ({
            let base = with_lines(entities, straight, map);
            &&& all.len() >= base.len()
            &&& forall|i: int| 0 <= i < base.len() ==> #[trigger] all[i] == base[i]
            &&& forall|id: u64|
                id <= max_id(entities) ==> #[trigger] record_at(all, id) == record_at(base, id)
        }),
        forall|id: u64| gone.contains(id) ==> !(#[trigger] all_refs(all).contains(id)),
    ensures
        record_at(without(all, gone), poles[0]) == record_at(entities, poles[0]),
{
    let base = with_lines(entities, straight, map);
    let id = entities[at].id();
    let line = base[at];
    let items = seq![
        ParamView::String(line_form(entities, straight, entities[at])->Some_0.0),
        ref_param(poles[0]),
        ref_param(map[id]),
    ];
    assert(simple_record(line)->Some_0.parameter == ParamView::List(items));
    assert(param_refs(items[1]) =~= seq![poles[0]]);
    assert(param_refs(items[1])[0] == poles[0]);
    lemma_list_refers(items, 1, poles[0]);
    reveal_with_fuel(records_refs, 2);
    assert(entity_refs(line) =~= list_refs(items));
    assert(all[at] == line);
    lemma_refs_in_all(all, at, poles[0]);
    lemma_left_found(all, gone, poles[0]);
    assert(has_coordinates(entities, poles[0]));
    lemma_position(entities, poles[0]);
    let p = position(entities, poles[0])->Some_0;
    lemma_max_id(entities, p);
    assert forall|i: int| 0 <= i < base.len() implies (#[trigger] base[i]).id()
        == entities[i].id() by {}
    lemma_changed_found(base, entities, poles[0]);
    lemma_form(entities, straight, poles[0], p, entities.len());
    lemma_line_is_no_point();
}

/// Whether a curve is that of one edge, and nothing else refers to it.
pub open spec fn serves_one_edge(entities: Seq<EntityView>, curve: u64) -> bool {
    exists|edge: u64|
        {
            &&& #[trigger] typed_record(entities, edge, "EDGE_CURVE"@) matches Some(record)
            &&& nth_ref(record, 3) == Some(curve)
            &&& forall|parent: u64| #[trigger] refers(entities, parent, curve) ==> parent == edge
        }
}

/// Whether a curve was measured to be straight.
pub open spec fn is_measured_straight(straight: Seq<StraightView>, curve: u64) -> bool {
    exists|k: int|
        0 <= k < straight.len() && (#[trigger] straight[k]).curve == curve && was_straight(
            straight[k].fit,
        )
}

proof fn lemma_times(refs: Seq<u64>, id: u64, parent: u64)
    requires
        refs.contains(id),
    ensures
        times(refs, id, parent).contains(parent),
    decreases refs.len(),
{
    let front = refs.drop_last();
    let rest = times(front, id, parent);
    let k = choose|k: int| 0 <= k < refs.len() && refs[k] == id;
    if refs.last() == id {
        assert(rest.push(parent)[rest.len() as int] == parent);
    } else {
        assert(front[k] == id);
        lemma_times(front, id, parent);
    }
}

proof fn lemma_holders(entities: Seq<EntityView>, id: u64, n: nat, i: int)
    requires
        0 <= i < n <= entities.len(),
        entity_refs(entities[i]).contains(id),
    ensures
        holders(entities, id, n).contains(entities[i].id()),
    decreases n,
{
    let rest = holders(entities, id, (n - 1) as nat);
    let own = times(entity_refs(entities[n - 1]), id, entities[n - 1].id());
    if i == n - 1 {
        lemma_times(entity_refs(entities[i]), id, entities[i].id());
        let k = choose|k: int| 0 <= k < own.len() && own[k] == entities[i].id();
        assert((rest + own)[rest.len() + k] == entities[i].id());
    } else {
        lemma_holders(entities, id, (n - 1) as nat, i);
        let k = choose|k: int| 0 <= k < rest.len() && rest[k] == entities[i].id();
        assert((rest + own)[k] == entities[i].id());
    }
}

proof fn lemma_one_edge(entities: Seq<EntityView>, id: u64)
    requires
        has_one_edge(entities, id),
    ensures
        serves_one_edge(entities, id),
{
    let all = holders(entities, id, entities.len());
    let edge = all[0];
    assert(typed_record(entities, edge, "EDGE_CURVE"@) is Some);
    assert forall|parent: u64| #[trigger] refers(entities, parent, id) implies parent == edge by {
        lemma_position(entities, parent);
        let at = position(entities, parent)->Some_0;
        lemma_holders(entities, id, entities.len(), at);
        let k = choose|k: int| 0 <= k < all.len() && all[k] == parent;
        assert(k == 0);
    }
}

/// Where a curve becomes a line, the line has the curve's name, starts at its first pole, and
/// runs in the direction, its x, y and z in this order, that was measured of a straight curve
/// with the same direction. The first pole stays as it is. The curve was measured to be
/// straight, and one edge alone uses it. Every other entity stays as it is, but for points that
/// nothing refers to.
#[verifier::spinoff_prover]
#[verifier::rlimit(40)]
pub proof fn law_lines_run_along_curves(
    entities: Seq<EntityView>,
    evidence: LineEvidence,
    result: Seq<EntityView>,
    stats: LineRecoveryStats,
    id: u64,
)
    requires
        distinct(entities),
        lines_recovered(entities, evidence, result, stats),
        record_at(entities, id) is Some,
    ensures
        ({
            let before = record_at(entities, id)->Some_0;
            match record_at(result, id) {
                Some(after) => after == before || {
                    &&& before.name == "B_SPLINE_CURVE_WITH_KNOTS"@
                    &&& nth(after, 0) == nth(before, 0)
                    &&& nth_ref_list(before, 2) matches Some(poles)
                    &&& poles.len() >= 2
                    &&& runs_along(
                        result,
                        straight_view(evidence.straight@),
                        evidence.accepted@,
                        id,
                        after,
                        poles[0],
                    )
                    &&& record_at(result, poles[0]) == record_at(entities, poles[0])
                    &&& serves_one_edge(entities, id)
                    &&& is_measured_straight(straight_view(evidence.straight@), id)
                },
                None => before.name == "CARTESIAN_POINT"@ && is_unused(result, id),
            }
        }),
{
    let straight = straight_view(evidence.straight@);
    let accepted = evidence.accepted@;
    let found = curves(entities, straight, entities.len());
    let ids = in_order(found);
    let buckets = sorted_of(bucket_list(straight, ids));
    let groups = all_groups(accepted, straight, ids, buckets);
    let last = max_id(entities);
    lemma_position(entities, id);
    let at = position(entities, id)->Some_0;
    if last + 2 * groups.len() <= u64::MAX {
        let map = vectors(groups, last, groups.len());
        let base = with_lines(entities, straight, map);
        let added = with_vectors(straight, groups, last, groups.len());
        let all = base + added;
        let gone = orphans(base, all, old_poles(entities, straight, map, entities.len()));
        lemma_curves_measured(entities, straight, entities.len());
        lemma_in_order_measured(straight, found);
        lemma_all_groups(accepted, straight, ids, buckets);
        lemma_with_vectors(straight, groups, last, groups.len());
        assert forall|i: int| 0 <= i < base.len() implies (#[trigger] base[i]).id() <= last
            && base[i].id() == entities[i].id() by {
            lemma_max_id(entities, i);
        }
        lemma_joined_found(base, added, last);
        lemma_changed_found(base, entities, id);
        lemma_max_id(entities, at);
        assert(record_at(all, id) == record_at(base, id));
        assert(record_at(base, id) == simple_record(base[at]));
        lemma_left_found(all, gone, id);
        lemma_form(entities, straight, id, at, entities.len());
        let form = form_of(entities, straight, id, entities.len());
        let before = record_at(entities, id)->Some_0;
        if gone.contains(id) {
            lemma_still_unused(all, gone, id);
            lemma_line_is_no_point();
            assert(record_at(result, id) is None);
            assert(before.name == "CARTESIAN_POINT"@);
        } else if becomes_line(entities[at], form, map) {
            let (name, poles) = form->Some_0;
            let after = record_at(result, id)->Some_0;
            lemma_vectors(groups, last, groups.len(), id);
            let g = choose|g: int|
                0 <= g < groups.len() && (#[trigger] groups[g]).contains(id) && map[id] == (last
                    + 2 * (g + 1)) as u64;
            let group = groups[g];
            let k = choose|k: int| 0 <= k < group.len() && group[k] == id;
            assert(is_group(accepted, straight, group));
            let unit = measured(straight, group[0])->Some_0;
            lemma_measured(straight, group[0]);
            assert(measured(straight, group[0]) is Some);
            let direction = (last + 2 * g + 1) as u64;
            let vector = (last + 2 * (g + 1)) as u64;
            lemma_left_found(all, gone, vector);
            lemma_left_found(all, gone, direction);
            lemma_not_typed(base, last, vector);
            lemma_not_typed(base, last, direction);
            assert(record_at(result, vector) == record_at(added, vector));
            assert(record_at(result, direction) == record_at(added, direction));
            assert(has_triple(result, direction, "DIRECTION"@, unit.x, unit.y, unit.z));
            let m = choose|m: int| 0 <= m < straight.len() && straight[m] == unit;
            assert(is_direction_of(straight, accepted, id, unit.x, unit.y, unit.z)) by {
                assert(straight[m] == unit);
                assert(group[0] == id || accepts(accepted, group[0], group[k]));
            }
            lemma_pole_stays(entities, straight, map, all, gone, at, poles);
            lemma_one_edge(entities, id);
            lemma_measured(straight, id);
            let own = measured(straight, id)->Some_0;
            let q = choose|q: int| 0 <= q < straight.len() && straight[q] == own;
            assert(straight[q].curve == id);
            assert(is_measured_straight(straight, id));
            assert(nth(before, 2) is Some);
            assert(nth_ref_list(before, 2) == Some(poles));
            assert(nth(after, 0) == nth(before, 0));
            assert(nth_ref(after, 1) == Some(poles[0]));
            assert(nth_ref(after, 2) == Some(vector));
            assert(points_along(result, direction, straight, accepted, id));
            let along = record_at(added, vector)->Some_0;
            assert(has_triple(added, direction, "DIRECTION"@, unit.x, unit.y, unit.z));
            assert(record_at(result, vector) == Some(along));
            assert(along.name == "VECTOR"@);
            assert(nth(along, 2) == Some(ParamView::Real("1"@)));
            assert(nth_ref(along, 1) == Some(direction));
            assert(after.name == "LINE"@);
            assert(nth(after, 3) is None);
            assert(runs_along(result, straight, accepted, id, after, poles[0]));
        } else {
            assert(base[at] == entities[at]);
        }
    }
}

} // verus!
