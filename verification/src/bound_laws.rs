//! What new bounds, merged faces, shells and copies keep.

use vstd::prelude::*;

use crate::ast::{EntityView, ParamView};
use crate::body_bounds::{directed, flipped, ids_from, step_params, with_bound, with_steps, Winding};
use crate::body_copies::{copies, copy_ids, copy_of, reach_of, with_copies, Spot};
use crate::body_cycles::Traversal;
use crate::body_graph::{ends, id_at, with_new};
use crate::face_coalesce::{
    canonical, is_canonical, kept_refs, ref_param, ref_params, shell_list, with_plan,
};
use crate::face_laws::says;
use crate::face_plan::PlanView;
use crate::graph::{
    lemma_position, nth, nth_ref, nth_ref_list, position, record_at, ref_value, simple_record,
};
use crate::lookup::{lemma_only_position, lemma_ref_params};
use crate::periodic_bodies::PeriodicBodyPattern;
use crate::periodic_resize::{shell_after, site_faces, sites_faces};
use crate::weld_laws::runs_from_to;

verus! {

/// Whether an entity is an oriented edge that runs as a step does: along its edge, forward where
/// the edge runs from the start of the step to its end, and backward otherwise.
pub open spec fn takes_step(entity: EntityView, before: Seq<EntityView>, step: Traversal) -> bool {
    &&& simple_record(entity) matches Some(record)
    &&& record.name == "ORIENTED_EDGE"@
    &&& nth_ref(record, 3) == Some(step.edge)
    &&& nth(record, 5) is None
    &&& joins(ends(before, step.edge), step) ==> exists|forward: bool|
        runs_from_to(ends(before, step.edge)->Some_0, forward) == (step.start, step.end)
            && #[trigger] says(nth(record, 4), forward)
}

/// Whether an edge joins the ends of a step.
pub open spec fn joins(edge: Option<(u64, u64)>, step: Traversal) -> bool {
    edge == Some((step.start, step.end)) || edge == Some((step.end, step.start))
}

/// Whether one of the entities behind others, under the id of its place, runs as its step does.
pub open spec fn is_step_at(
    start: Seq<EntityView>,
    entities: Seq<EntityView>,
    steps: Seq<Traversal>,
    out: Seq<EntityView>,
    i: int,
) -> bool {
    let entity = out[entities.len() + i];
    &&& entity.id() == id_at(start, entities.len() + i)
    &&& takes_step(entity, with_steps(start, entities, steps, i as nat), steps[i])
}

proof fn lemma_step(start: Seq<EntityView>, before: Seq<EntityView>, step: Traversal)
    ensures
        ({
            let out = with_new(start, before, "ORIENTED_EDGE"@, step_params(before, step));
            takes_step(out[before.len() as int], before, step)
        }),
{
    let out = with_new(start, before, "ORIENTED_EDGE"@, step_params(before, step));
    let record = simple_record(out[before.len() as int])->Some_0;
    if ends(before, step.edge) == Some((step.start, step.end)) {
        assert(says(nth(record, 4), true));
    } else if ends(before, step.edge) == Some((step.end, step.start)) {
        assert(says(nth(record, 4), false));
    }
}

proof fn lemma_steps(
    start: Seq<EntityView>,
    entities: Seq<EntityView>,
    steps: Seq<Traversal>,
    n: nat,
)
    requires
        n <= steps.len(),
    ensures
        ({
            let out = with_steps(start, entities, steps, n);
            &&& out.len() == entities.len() + n
            &&& forall|i: int| 0 <= i < entities.len() ==> #[trigger] out[i] == entities[i]
            &&& forall|i: int| 0 <= i < n ==> #[trigger] is_step_at(start, entities, steps, out, i)
        }),
    decreases n,
{
    if n > 0 {
        let m = (n - 1) as nat;
        let before = with_steps(start, entities, steps, m);
        let out = with_steps(start, entities, steps, n);
        lemma_steps(start, entities, steps, m);
        lemma_step(start, before, steps[n - 1]);
        assert forall|i: int| 0 <= i < n implies #[trigger] is_step_at(
            start,
            entities,
            steps,
            out,
            i,
        ) by {
            if i < m {
                assert(is_step_at(start, entities, steps, before, i));
                assert(out[entities.len() + i] == before[entities.len() + i]);
            } else {
                assert(i as nat == m);
            }
        }
    }
}

/// A bound around some steps refers to a loop that lists one new oriented edge for each step, in
/// the order of the steps, and each of them runs as its step does.
pub proof fn law_bound_runs_along_steps(
    start: Seq<EntityView>,
    entities: Seq<EntityView>,
    steps: Seq<Traversal>,
    name: Seq<char>,
)
    ensures
        ({
            let out = with_bound(start, entities, steps, name);
            let n = entities.len() as int;
            let m = steps.len() as int;
            &&& out.len() == n + m + 2
            &&& forall|i: int| 0 <= i < n ==> #[trigger] out[i] == entities[i]
            &&& simple_record(out[n + m + 1]) matches Some(bound)
            &&& bound.name == name
            &&& nth_ref(bound, 1) == Some(out[n + m].id())
            &&& says(nth(bound, 2), true)
            &&& simple_record(out[n + m]) matches Some(around)
            &&& around.name == "EDGE_LOOP"@
            &&& nth_ref_list(around, 1) matches Some(listed)
            &&& listed.len() == m
            &&& forall|i: int| 0 <= i < m ==> #[trigger] listed[i] == out[n + i].id()
            &&& forall|i: int| 0 <= i < m ==> #[trigger] is_step_at(start, entities, steps, out, i)
        }),
{
    let out = with_bound(start, entities, steps, name);
    let n = entities.len() as int;
    let m = steps.len() as int;
    lemma_steps(start, entities, steps, steps.len());
    let first = with_steps(start, entities, steps, steps.len());
    assert forall|i: int| 0 <= i < first.len() implies #[trigger] out[i] == first[i] by {}
    let listed = ids_from(start, n, steps.len());
    lemma_ref_params(listed);
    assert forall|i: int| 0 <= i < m implies #[trigger] is_step_at(
        start,
        entities,
        steps,
        out,
        i,
    ) by {
        assert(is_step_at(start, entities, steps, first, i));
        assert(out[n + i] == first[n + i]);
    }
    assert forall|i: int| 0 <= i < m implies #[trigger] listed[i] == out[n + i].id() by {
        assert(is_step_at(start, entities, steps, out, i));
    }
}

/// An outer loop is written so that it winds along, and a hole so that it winds along where
/// holes do: a loop that winds so already stays, and one that winds the other way is written
/// backwards.
pub proof fn law_loops_wind_as_asked(steps: Seq<Traversal>, outer: bool, holes_along: bool)
    ensures
        directed(steps, Winding::Along, true, holes_along) == steps,
        directed(steps, Winding::Against, true, holes_along) == flipped(steps),
        directed(steps, Winding::Along, false, true) == steps,
        directed(steps, Winding::Against, false, false) == steps,
        directed(steps, Winding::Along, outer, holes_along) == flipped(
            directed(steps, Winding::Against, outer, holes_along),
        ),
{
    crate::body_bounds::law_flipped_twice(steps);
}

/// Where faces are merged, the first of them keeps its id, type and name, and has one bound: an
/// outer one, on a loop of the oriented edges of the outline, in their order. It lies on the
/// surface of the group, with its sense. No other entity changes.
pub proof fn law_merged_face_has_the_outline(
    entities: Seq<EntityView>,
    plan: PlanView,
    loop_id: u64,
)
    requires
        forall|i: int| 0 <= i < entities.len() ==> (#[trigger] entities[i]).id() < loop_id,
        loop_id + 1 <= u64::MAX,
        record_at(entities, plan.faces[0]) matches Some(record) && nth(record, 0) is Some,
    ensures
        ({
            let out = with_plan(entities, plan, loop_id);
            let at = position(entities, plan.faces[0])->Some_0;
            let before = record_at(entities, plan.faces[0])->Some_0;
            &&& out.len() == entities.len() + 2
            &&& forall|i: int| 0 <= i < entities.len() && i != at ==> #[trigger] out[i] == entities[i]
            &&& out[at].id() == plan.faces[0]
            &&& simple_record(out[at]) matches Some(face)
            &&& face.name == before.name
            &&& nth(face, 0) == nth(before, 0)
            &&& nth_ref(face, 2) == Some(plan.support)
            &&& says(nth(face, 3), plan.sense)
            &&& nth(face, 4) is None
            &&& nth_ref_list(face, 1) matches Some(bounds)
            &&& bounds.len() == 1
            &&& record_at(out, bounds[0]) matches Some(bound)
            &&& bound.name == "FACE_OUTER_BOUND"@
            &&& says(nth(bound, 2), true)
            &&& nth_ref(bound, 1) matches Some(around)
            &&& record_at(out, around) matches Some(edges)
            &&& edges.name == "EDGE_LOOP"@
            &&& nth_ref_list(edges, 1) == Some(plan.loop_oes)
        }),
{
    let out = with_plan(entities, plan, loop_id);
    let n = entities.len() as int;
    lemma_position(entities, plan.faces[0]);
    let at = position(entities, plan.faces[0])->Some_0;
    assert forall|i: int| 0 <= i < n implies (#[trigger] out[i]).id() == entities[i].id() by {}
    assert(out[n].id() == loop_id);
    assert(out[n + 1].id() == loop_id + 1);
    assert forall|i: int| 0 <= i < n implies (#[trigger] out[i]).id() < loop_id by {
        assert(entities[i].id() < loop_id);
    }
    lemma_only_position(out, n);
    lemma_only_position(out, n + 1);
    lemma_ref_params(plan.loop_oes);
    let bound_id = (loop_id + 1) as u64;
    lemma_ref_params(seq![bound_id]);
    assert(ref_params(seq![bound_id]) =~= seq![ref_param(bound_id)]);
}

/// Whether one face stands for another in a shell: it is the same, or the first of a group of
/// the shell that has the other one.
pub open spec fn stands_for(plans: Seq<PlanView>, shell: u64, new: u64, face: u64) -> bool {
    ||| new == face && forall|k: int|
        0 <= k < plans.len() && (#[trigger] plans[k]).shell == shell ==> !plans[k].faces.contains(
            face,
        )
    ||| exists|k: int|
        0 <= k < plans.len() && (#[trigger] plans[k]).shell == shell && plans[k].faces.contains(
            face,
        ) && plans[k].faces[0] == new
}

proof fn lemma_canonical(plans: Seq<PlanView>, shell: u64, face: u64)
    ensures
        stands_for(plans, shell, canonical(plans, shell, face), face),
    decreases plans.len(),
{
    if plans.len() > 0 {
        let front = plans.drop_last();
        lemma_canonical(front, shell, face);
        assert(plans[plans.len() - 1] == plans.last());
        assert forall|k: int| 0 <= k < front.len() implies #[trigger] front[k] == plans[k] by {}
        if !(plans.last().shell == shell && plans.last().faces.contains(face)) {
            let new = canonical(front, shell, face);
            if exists|k: int|
                0 <= k < front.len() && (#[trigger] front[k]).shell == shell
                    && front[k].faces.contains(face) && front[k].faces[0] == new {
                let k = choose|k: int|
                    0 <= k < front.len() && (#[trigger] front[k]).shell == shell
                        && front[k].faces.contains(face) && front[k].faces[0] == new;
                assert(plans[k] == front[k]);
            } else {
                assert forall|k: int| 0 <= k < plans.len() && (#[trigger] plans[k]).shell
                    == shell implies !plans[k].faces.contains(face) by {
                    if k < front.len() {
                        assert(front[k] == plans[k]);
                    }
                }
            }
        }
    }
}

/// Whether a list has a face that stands for another one.
pub open spec fn has_stand_in(
    plans: Seq<PlanView>,
    shell: u64,
    out: Seq<u64>,
    face: u64,
) -> bool {
    exists|j: int| 0 <= j < out.len() && stands_for(plans, shell, #[trigger] out[j], face)
}

/// Whether a face stands for one of a list.
pub open spec fn is_stand_in(plans: Seq<PlanView>, shell: u64, new: u64, faces: Seq<u64>) -> bool {
    exists|i: int| 0 <= i < faces.len() && stands_for(plans, shell, new, #[trigger] faces[i])
}

/// A shell after merging lists, for every face that it listed, one that stands for it, and
/// nothing else. It lists the first face of a merged group once.
pub proof fn law_shell_lists_what_stands_for_faces(
    plans: Seq<PlanView>,
    shell: u64,
    faces: Seq<u64>,
    face: u64,
)
    ensures
        ({
            let out = shell_list(plans, shell, faces);
            &&& faces.contains(face) ==> has_stand_in(plans, shell, out, face)
            &&& out.contains(face) ==> is_stand_in(plans, shell, face, faces)
            &&& forall|a: int, b: int|
                #![trigger out[a], out[b]]
                0 <= a < b < out.len() && out[a] == out[b] ==> !is_canonical(plans, shell, out[a])
        }),
    decreases faces.len(),
{
    if faces.len() > 0 {
        let front = faces.drop_last();
        let rest = shell_list(plans, shell, front);
        let out = shell_list(plans, shell, faces);
        let own = faces.last();
        let new = canonical(plans, shell, own);
        law_shell_lists_what_stands_for_faces(plans, shell, front, face);
        lemma_canonical(plans, shell, own);
        assert(faces[faces.len() - 1] == own);
        assert forall|j: int| 0 <= j < rest.len() implies #[trigger] rest[j] == out[j] by {}
        if !(is_canonical(plans, shell, new) && rest.contains(new)) {
            assert(out[rest.len() as int] == new);
        }
        assert(out.contains(new));
        if faces.contains(face) {
            let i = choose|i: int| 0 <= i < faces.len() && faces[i] == face;
            if i < front.len() {
                assert(front[i] == face);
                let j = choose|j: int|
                    0 <= j < rest.len() && stands_for(plans, shell, #[trigger] rest[j], face);
                assert(stands_for(plans, shell, out[j], face));
            } else {
                let j = choose|j: int| 0 <= j < out.len() && out[j] == new;
                assert(stands_for(plans, shell, out[j], face));
            }
        }
        if out.contains(face) {
            let j = choose|j: int| 0 <= j < out.len() && out[j] == face;
            if j < rest.len() {
                assert(rest[j] == face);
                let i = choose|i: int|
                    0 <= i < front.len() && stands_for(plans, shell, face, #[trigger] front[i]);
                assert(stands_for(plans, shell, face, faces[i]));
            } else {
                assert(face == new);
                assert(stands_for(plans, shell, face, faces[faces.len() - 1]));
            }
        }
        assert forall|a: int, b: int|
            #![trigger out[a], out[b]]
            0 <= a < b < out.len() && out[a] == out[b] implies !is_canonical(
            plans,
            shell,
            out[a],
        ) by {
            assert(rest[a] == out[a]);
            if b < rest.len() {
                assert(rest[b] == out[b]);
            } else {
                assert(rest.contains(rest[a]));
            }
        }
    }
}

/// Leaving out references keeps all other items in their order.
pub proof fn law_kept_items_stay_in_order(items: Seq<ParamView>, drop: Set<u64>)
    ensures
        kept_refs(items, drop) == items.filter(
            |p: ParamView| !(ref_value(p) matches Some(id) && drop.contains(id)),
        ),
    decreases items.len(),
{
    reveal(Seq::filter);
    if items.len() > 0 {
        law_kept_items_stay_in_order(items.drop_last(), drop);
    }
}

/// A shell of a body with another number of sites lists, in the old order, the faces that it
/// listed: those of the end that moves as their copies, and without those that leave.
pub proof fn law_shell_follows_its_faces(
    faces: Seq<u64>,
    right: Set<u64>,
    cap: Map<u64, u64>,
    removed: Set<u64>,
)
    ensures
        shell_after(faces, right, cap, removed) == faces.filter(
            |f: u64| right.contains(f) || !removed.contains(f),
        ).map_values(
            |f: u64|
                if right.contains(f) {
                    cap[f]
                } else {
                    f
                },
        ),
    decreases faces.len(),
{
    reveal(Seq::filter);
    let stays = |f: u64| right.contains(f) || !removed.contains(f);
    let image = |f: u64|
        if right.contains(f) {
            cap[f]
        } else {
            f
        };
    if faces.len() > 0 {
        let front = faces.drop_last();
        law_shell_follows_its_faces(front, right, cap, removed);
        assert(front.filter(stays).push(faces.last()).map_values(image) =~= front.filter(
            stays,
        ).map_values(image).push(image(faces.last())));
    }
    assert(shell_after(faces, right, cap, removed) =~= faces.filter(stays).map_values(image));
}

/// The faces of some sites are those of every family at one of these sites.
pub proof fn law_sites_have_a_face_of_each_family(
    body: PeriodicBodyPattern,
    from: int,
    to: int,
    face: u64,
)
    requires
        from <= to,
    ensures
        sites_faces(body, from, to).len() == (to - from) * body.repeat_face_families@.len(),
        sites_faces(body, from, to).contains(face) == exists|family: int, site: int|
            0 <= family < body.repeat_face_families@.len() && from <= site < to
                && #[trigger] body.repeat_face_families@[family].face_ids@[site] == face,
    decreases to - from,
{
    if to > from {
        law_sites_have_a_face_of_each_family(body, from, to - 1, face);
        let rest = sites_faces(body, from, to - 1);
        let own = site_faces(body, to - 1);
        let all = sites_faces(body, from, to);
        let n = body.repeat_face_families@.len() as int;
        assert((to - from) * n == (to - 1 - from) * n + n) by (nonlinear_arith);
        if all.contains(face) {
            let k = choose|k: int| 0 <= k < all.len() && all[k] == face;
            if k < rest.len() {
                assert(rest[k] == face);
            } else {
                let family = k - rest.len();
                assert(own[family] == face);
                assert(body.repeat_face_families@[family].face_ids@[to - 1] == face);
            }
        }
        if exists|family: int, site: int|
            0 <= family < body.repeat_face_families@.len() && from <= site < to
                && #[trigger] body.repeat_face_families@[family].face_ids@[site] == face {
            let (family, site) = choose|family: int, site: int|
                0 <= family < body.repeat_face_families@.len() && from <= site < to
                    && #[trigger] body.repeat_face_families@[family].face_ids@[site] == face;
            if site == to - 1 {
                assert(own[family] == face);
                assert(all[rest.len() + family] == face);
            } else {
                let k = choose|k: int| 0 <= k < rest.len() && rest[k] == face;
                assert(all[k] == face);
            }
        }
    } else {
        assert((to - from) * body.repeat_face_families@.len() == 0) by (nonlinear_arith)
            requires
                to == from,
        ;
        assert(sites_faces(body, from, to).len() == 0);
    }
}

proof fn lemma_copy_ids(start: Seq<EntityView>, first: int, ids: Seq<u64>, k: int)
    requires
        0 <= k < ids.len(),
        ids.no_duplicates(),
    ensures
        copy_ids(start, first, ids).contains_key(ids[k]),
        copy_ids(start, first, ids)[ids[k]] == id_at(start, first + k),
    decreases ids.len(),
{
    if k < ids.len() - 1 {
        let front = ids.drop_last();
        assert(front[k] == ids[k]);
        assert(ids[k] != ids[ids.len() - 1]);
        lemma_copy_ids(start, first, front, k);
    }
}

proof fn lemma_copies(
    entities: Seq<EntityView>,
    ids: Seq<u64>,
    map: Map<u64, u64>,
    spots: Map<u64, Spot>,
    k: int,
)
    requires
        copies(entities, ids, map, spots) is Ok,
        0 <= k < ids.len(),
    ensures
        ({
            let more = copies(entities, ids, map, spots)->Ok_0;
            &&& more.len() == ids.len()
            &&& copy_of(
                entities[position(entities, ids[k])->Some_0],
                map[ids[k]],
                map,
                spots,
            ) == Ok::<EntityView, crate::body_graph::BodyError>(more[k])
        }),
    decreases ids.len(),
{
    let front = ids.drop_last();
    if k < front.len() {
        lemma_copies(entities, front, map, spots, k);
        assert(front[k] == ids[k]);
    } else if front.len() > 0 {
        lemma_copies(entities, front, map, spots, 0);
    }
}

/// All that can be reached from some entities is copied once, behind what there is, each copy
/// under the id of its place. The copies refer to each other as the entities do. What there is
/// stays as it is.
pub proof fn law_copies_stand_behind(
    start: Seq<EntityView>,
    entities: Seq<EntityView>,
    seeds: Seq<u64>,
    spots: Map<u64, Spot>,
    k: int,
)
    requires
        with_copies(start, entities, seeds, spots) is Ok,
        reach_of(entities, seeds).no_duplicates(),
        0 <= k < reach_of(entities, seeds).len(),
    ensures
        ({
            let (after, map) = with_copies(start, entities, seeds, spots)->Ok_0;
            let ids = reach_of(entities, seeds);
            let from = entities[position(entities, ids[k])->Some_0];
            let n = entities.len() as int;
            &&& after.len() == n + ids.len()
            &&& after.take(n) == entities
            &&& map.contains_key(ids[k])
            &&& map[ids[k]] == id_at(start, n + k)
            &&& after[n + k].id() == map[ids[k]]
            &&& copy_of(from, map[ids[k]], map, spots) == Ok::<
                EntityView,
                crate::body_graph::BodyError,
            >(after[n + k])
            &&& from.id() == ids[k]
        }),
{
    let (after, map) = with_copies(start, entities, seeds, spots)->Ok_0;
    let ids = reach_of(entities, seeds);
    let n = entities.len() as int;
    lemma_copy_ids(start, n, ids, k);
    lemma_copies(entities, ids, map, spots, k);
    assert(after.take(n) =~= entities);
    lemma_position(entities, ids[k]);
    assert(position(entities, ids[k]) is Some);
    let from = entities[position(entities, ids[k])->Some_0];
    crate::value_laws::law_copy_refers_to_copies(from, map[ids[k]], map, spots);
}

} // verus!
