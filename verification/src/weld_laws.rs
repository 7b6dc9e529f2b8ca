//! What joining solids and merging faces keep.

use vstd::prelude::*;

use crate::ast::{EntityView, ParamView, RecordView};
use crate::face_coalesce::ref_param;
use crate::face_info::edge_vertices_of;
use crate::graph::{
    lemma_position, nth, nth_logical, nth_ref, nth_ref_list, position, record_at, ref_value,
    simple_record,
};
use crate::lookup::{lemma_only_position, lemma_ref_params};
use crate::partition_plan::{
    and_new, pair_at, pair_faces, pairs_within, places, retained, solid_faces, weld_plan,
    Interface, WeldView,
};
use crate::partition_recovery::{meets, merged_items, relinked, turned, with_weld};
use crate::union_find::root_after;

verus! {

/// The vertices that an edge runs from and to when it is taken forward or backward.
pub open spec fn runs_from_to(ends: (u64, u64), forward: bool) -> (u64, u64) {
    if forward {
        ends
    } else {
        (ends.1, ends.0)
    }
}

/// An oriented edge that gets the edge that stands for its own runs from and to the same
/// vertices as before, as far as vertices that are one are not told apart.
pub proof fn law_turned_edge_runs_as_before(
    entities: Seq<EntityView>,
    record: RecordView,
    edges: Seq<(u64, u64)>,
    vertices: Seq<(u64, u64)>,
)
    requires
        turned(entities, record, edges, vertices) is Some,
    ensures
        ({
            let edge = nth_ref(record, 3)->Some_0;
            match turned(entities, record, edges, vertices)->Some_0 {
                None => root_after(edges, edge) == edge,
                Some((new, sense)) => {
                    let before = runs_from_to(
                        edge_vertices_of(entities, edge)->Some_0,
                        nth_logical(record, 4)->Some_0,
                    );
                    let after = runs_from_to(edge_vertices_of(entities, new)->Some_0, sense);
                    &&& new == root_after(edges, edge)
                    &&& new != edge
                    &&& root_after(vertices, after.0) == root_after(vertices, before.0)
                    &&& root_after(vertices, after.1) == root_after(vertices, before.1)
                },
            }
        }),
{
}

/// Whether an entity is a simple one of a type.
pub open spec fn has_type(entity: EntityView, name: Seq<char>) -> bool {
    simple_record(entity) matches Some(record) && record.name == name
}

/// Relinking changes the two ends of edges, each to the vertex that stands for it, and the edge
/// and direction of the oriented edges that are turned. All else stays in its place.
pub proof fn law_relinked_keeps_the_rest(
    entity: EntityView,
    turns: Map<u64, (u64, bool)>,
    vertices: Seq<(u64, u64)>,
)
    requires
        relinked(entity, turns, vertices) is Some,
    ensures
        ({
            let out = relinked(entity, turns, vertices)->Some_0;
            &&& out.id() == entity.id()
            &&& out == entity || {
                &&& simple_record(entity) matches Some(before)
                &&& simple_record(out) matches Some(after)
                &&& after.name == before.name
                &&& before.name == "EDGE_CURVE"@ || before.name == "ORIENTED_EDGE"@
                &&& before.name == "EDGE_CURVE"@ ==> {
                    &&& nth_ref(before, 1) matches Some(start)
                    &&& nth_ref(before, 2) matches Some(end)
                    &&& nth_ref(after, 1) == Some(root_after(vertices, start))
                    &&& nth_ref(after, 2) == Some(root_after(vertices, end))
                    &&& forall|n: int|
                        n != 1 && n != 2 ==> #[trigger] nth(after, n) == nth(before, n)
                }
                &&& before.name != "EDGE_CURVE"@ ==> {
                    &&& turns.contains_key(entity.id())
                    &&& nth_ref(after, 3) == Some(turns[entity.id()].0)
                    &&& nth(after, 4) == Some(
                        ParamView::Enumeration(
                            if turns[entity.id()].1 {
                                "T"@
                            } else {
                                "F"@
                            },
                        ),
                    )
                    &&& forall|n: int|
                        n != 3 && n != 4 ==> #[trigger] nth(after, n) == nth(before, n)
                }
            }
            &&& entity is Complex ==> out == entity
            &&& has_type(entity, "ORIENTED_EDGE"@) && turns.contains_key(entity.id()) ==> nth_ref(
                simple_record(out)->Some_0,
                3,
            ) == Some(turns[entity.id()].0)
            &&& has_type(entity, "EDGE_CURVE"@) ==> nth_ref(simple_record(out)->Some_0, 1) == Some(
                root_after(vertices, nth_ref(simple_record(entity)->Some_0, 1)->Some_0),
            )
        }),
{
    reveal_strlit("EDGE_CURVE");
    reveal_strlit("ORIENTED_EDGE");
    assert("EDGE_CURVE"@.len() == 10);
    assert("ORIENTED_EDGE"@.len() == 13);
}

/// A joined solid is found behind the entities, with a closed shell that lists the faces that
/// stay, and nothing else. It looks as its parts did. All that was found before is found as it
/// was.
pub proof fn law_weld_has_its_faces(
    entities: Seq<EntityView>,
    plan: WeldView,
    id: u64,
    other: u64,
)
    requires
        forall|i: int| 0 <= i < entities.len() ==> (#[trigger] entities[i]).id() < id,
        id + 2 <= u64::MAX,
        other < id,
    ensures
        ({
            let out = with_weld(entities, plan, id);
            let solid = (id + 1) as u64;
            &&& record_at(out, solid) matches Some(body)
            &&& body.name == "MANIFOLD_SOLID_BREP"@
            &&& nth_ref(body, 1) matches Some(shell)
            &&& record_at(out, shell) matches Some(skin)
            &&& skin.name == "CLOSED_SHELL"@
            &&& nth_ref_list(skin, 1) == Some(plan.retained_faces)
            &&& record_at(out, (id + 2) as u64) matches Some(look)
            &&& look.name == "STYLED_ITEM"@
            &&& nth_ref_list(look, 1) == Some(plan.style_assignment)
            &&& nth_ref(look, 2) == Some(solid)
            &&& record_at(out, other) == record_at(entities, other)
            &&& out.len() == entities.len() + 3
        }),
{
    let out = with_weld(entities, plan, id);
    let n = entities.len() as int;
    assert forall|i: int| 0 <= i < n implies #[trigger] out[i] == entities[i] && out[i].id()
        < id by {}
    lemma_only_position(out, n);
    lemma_only_position(out, n + 1);
    lemma_only_position(out, n + 2);
    lemma_ref_params(plan.retained_faces);
    lemma_ref_params(plan.style_assignment);
    lemma_position(out, other);
    lemma_position(entities, other);
    if let Some(i) = position(out, other) {
        assert(i < n);
        assert(out[i] == entities[i]);
    }
    if let Some(j) = position(entities, other) {
        assert(out[j] == entities[j]);
        if let Some(i) = position(out, other) {
            if i < j {
                assert(out[j].id() != other);
            } else if j < i {
                assert(entities[i].id() != other);
            }
        }
    }
}

proof fn lemma_and_new(before: Seq<u64>, more: Seq<u64>, drop: Seq<u64>, face: u64)
    ensures
        and_new(before, more, drop).contains(face) == (before.contains(face) || more.contains(face)
            && !drop.contains(face)),
        before.no_duplicates() ==> and_new(before, more, drop).no_duplicates(),
    decreases more.len(),
{
    if more.len() > 0 {
        let front = more.drop_last();
        let rest = and_new(before, front, drop);
        let all = and_new(before, more, drop);
        lemma_and_new(before, front, drop, face);
        if front.contains(face) {
            let k = choose|k: int| 0 <= k < front.len() && front[k] == face;
            assert(more[k] == face);
        }
        if more.contains(face) {
            let k = choose|k: int| 0 <= k < more.len() && more[k] == face;
            if k < front.len() {
                assert(front[k] == face);
            }
        }
        assert(more[more.len() - 1] == more.last());
        if rest.contains(face) {
            let k = choose|k: int| 0 <= k < rest.len() && rest[k] == face;
            assert(all[k] == face);
        }
        if all.contains(face) {
            let k = choose|k: int| 0 <= k < all.len() && all[k] == face;
            if k < rest.len() {
                assert(rest[k] == face);
            }
        }
        if !(drop.contains(more.last()) || rest.contains(more.last())) {
            assert(all[rest.len() as int] == more.last());
            if before.no_duplicates() {
                assert forall|i: int, j: int|
                    0 <= i < all.len() && 0 <= j < all.len() && i != j implies all[i]
                    != all[j] by {
                    if i < rest.len() {
                        assert(rest.contains(rest[i]));
                    }
                    if j < rest.len() {
                        assert(rest.contains(rest[j]));
                    }
                }
            }
        }
    }
}

/// Whether a face is one of those of some solids.
pub open spec fn is_face_of(entities: Seq<EntityView>, part: Seq<u64>, face: u64) -> bool {
    exists|s: int| 0 <= s < part.len() && solid_faces(entities, #[trigger] part[s]).contains(face)
}

/// Whether a face is at a pair between two of some solids.
pub open spec fn is_inside(all: Seq<Interface>, part: Seq<u64>, face: u64) -> bool {
    exists|k: int|
        {
            let pair = #[trigger] all[k];
            &&& 0 <= k < all.len()
            &&& part.contains(pair.a_solid)
            &&& part.contains(pair.b_solid)
            &&& pair.a_face == face || pair.b_face == face
        }
}

proof fn lemma_retained(entities: Seq<EntityView>, part: Seq<u64>, drop: Seq<u64>, face: u64)
    ensures
        retained(entities, part, drop).contains(face) == (is_face_of(entities, part, face)
            && !drop.contains(face)),
        retained(entities, part, drop).no_duplicates(),
    decreases part.len(),
{
    if part.len() > 0 {
        let front = part.drop_last();
        lemma_retained(entities, front, drop, face);
        lemma_and_new(
            retained(entities, front, drop),
            solid_faces(entities, part.last()),
            drop,
            face,
        );
        if is_face_of(entities, front, face) {
            let s = choose|s: int|
                0 <= s < front.len() && solid_faces(entities, #[trigger] front[s]).contains(face);
            assert(part[s] == front[s]);
        }
        if is_face_of(entities, part, face) {
            let s = choose|s: int|
                0 <= s < part.len() && solid_faces(entities, #[trigger] part[s]).contains(face);
            if s < front.len() {
                assert(front[s] == part[s]);
            }
        }
        assert(part[part.len() - 1] == part.last());
    }
}

proof fn lemma_pair_faces(all: Seq<Interface>, part: Seq<u64>, face: u64)
    ensures
        pair_faces(pairs_within(all, part)).contains(face) == is_inside(all, part, face),
    decreases all.len(),
{
    if all.len() > 0 {
        let front = all.drop_last();
        lemma_pair_faces(front, part, face);
        let last = all.last();
        assert(all[all.len() - 1] == last);
        if is_inside(front, part, face) {
            let k = choose|k: int|
                {
                    let pair = #[trigger] front[k];
                    &&& 0 <= k < front.len()
                    &&& part.contains(pair.a_solid)
                    &&& part.contains(pair.b_solid)
                    &&& pair.a_face == face || pair.b_face == face
                };
            assert(all[k] == front[k]);
        }
        if is_inside(all, part, face) {
            let k = choose|k: int|
                {
                    let pair = #[trigger] all[k];
                    &&& 0 <= k < all.len()
                    &&& part.contains(pair.a_solid)
                    &&& part.contains(pair.b_solid)
                    &&& pair.a_face == face || pair.b_face == face
                };
            if k < front.len() {
                assert(front[k] == all[k]);
            }
        }
        let own = pairs_within(front, part);
        let rest = pair_faces(own);
        if part.contains(last.a_solid) && part.contains(last.b_solid) {
            let more = own.push(last);
            assert(more.drop_last() =~= own);
            let faces = pair_faces(more);
            assert(faces == rest.push(last.a_face).push(last.b_face));
            assert(faces[rest.len() as int] == last.a_face);
            assert(faces[rest.len() + 1int] == last.b_face);
            if rest.contains(face) {
                let k = choose|k: int| 0 <= k < rest.len() && rest[k] == face;
                assert(faces[k] == face);
            }
            if faces.contains(face) {
                let k = choose|k: int| 0 <= k < faces.len() && faces[k] == face;
                if k < rest.len() {
                    assert(rest[k] == face);
                }
            }
        }
    }
}

/// Solids that are joined keep every face that they have, each once, but for those at which two
/// of them lie on each other. All of these go.
pub proof fn law_joined_solids_keep_outer_faces(
    entities: Seq<EntityView>,
    all: Seq<Interface>,
    part: Seq<u64>,
    face: u64,
)
    requires
        weld_plan(entities, all, part) is Some,
    ensures
        ({
            let plan = weld_plan(entities, all, part)->Some_0;
            &&& plan.solids == part
            &&& plan.retained_faces.no_duplicates()
            &&& plan.retained_faces.contains(face) == (is_face_of(entities, part, face)
                && !is_inside(all, part, face))
        }),
{
    lemma_pair_faces(all, part, face);
    lemma_retained(entities, part, pair_faces(pairs_within(all, part)), face);
}

proof fn lemma_places(class: Map<u64, u64>, faces: Seq<(u64, u64)>, of: u64, n: nat)
    requires
        n <= faces.len(),
        faces.len() <= u64::MAX,
    ensures
        forall|j: int|
            0 <= j < places(class, faces, of, n).len() ==> (#[trigger] places(
                class,
                faces,
                of,
                n,
            )[j]) < n && class[faces[places(class, faces, of, n)[j] as int].1] == of,
        forall|i: int|
            0 <= i < n && class[(#[trigger] faces[i]).1] == of ==> places(
                class,
                faces,
                of,
                n,
            ).contains(i as u64),
        forall|a: int, b: int|
            0 <= a < b < places(class, faces, of, n).len() ==> places(class, faces, of, n)[a]
                < places(class, faces, of, n)[b],
    decreases n,
{
    if n > 0 {
        let rest = places(class, faces, of, (n - 1) as nat);
        let all = places(class, faces, of, n);
        lemma_places(class, faces, of, (n - 1) as nat);
        assert forall|i: int| 0 <= i < n && class[(#[trigger] faces[i]).1] == of implies all.contains(
            i as u64,
        ) by {
            if i < n - 1 {
                let k = choose|k: int| 0 <= k < rest.len() && rest[k] == i as u64;
                assert(all[k] == i as u64);
            } else {
                assert(all[rest.len() as int] == i as u64);
            }
        }
    }
}

/// Two faces are a pair where they belong to different solids, are of one class, look away from
/// each other, and no third face is of that class.
pub proof fn law_pairs_are_of_two_solids(
    class: Map<u64, u64>,
    opposed: Set<u64>,
    faces: Seq<(u64, u64)>,
    i: int,
)
    requires
        0 <= i < faces.len() <= u64::MAX,
        pair_at(class, opposed, faces, i) is Some,
    ensures
        ({
            let pair = pair_at(class, opposed, faces, i)->Some_0;
            &&& pair.a_solid == faces[i].0 && pair.a_face == faces[i].1
            &&& pair.a_solid != pair.b_solid
            &&& class[pair.a_face] == class[pair.b_face]
            &&& opposed.contains(class[pair.a_face])
            &&& exists|j: int|
                i < j < faces.len() && #[trigger] faces[j] == (pair.b_solid, pair.b_face)
            &&& forall|j: int|
                0 <= j < faces.len() && class[(#[trigger] faces[j]).1] == class[pair.a_face]
                    ==> faces[j] == (pair.a_solid, pair.a_face) || faces[j] == (
                    pair.b_solid,
                    pair.b_face,
                )
        }),
{
    let of = class[faces[i].1];
    let at = places(class, faces, of, faces.len());
    lemma_places(class, faces, of, faces.len());
    let pair = pair_at(class, opposed, faces, i)->Some_0;
    assert(at[0] < at[1]);
    assert(faces[at[1] as int] == (pair.b_solid, pair.b_face));
    assert forall|j: int|
        0 <= j < faces.len() && class[(#[trigger] faces[j]).1] == class[pair.a_face] implies faces[j]
        == (pair.a_solid, pair.a_face) || faces[j] == (pair.b_solid, pair.b_face) by {
        let k = choose|k: int| 0 <= k < at.len() && at[k] == j as u64;
        assert(k == 0 || k == 1);
    }
}

/// How many items do not refer to one of some ids.
pub open spec fn others(items: Seq<ParamView>, ids: Seq<u64>) -> Seq<ParamView> {
    items.filter(|p: ParamView| !(ref_value(p) matches Some(id) && ids.contains(id)))
}

/// A representation in which solids are joined lists the new one once, where there was one of
/// them, and all its other items in their order.
pub proof fn law_joined_items_are_listed_once(items: Seq<ParamView>, old: Seq<u64>, new: u64)
    requires
        !items.contains(ref_param(new)),
        !old.contains(new),
    ensures
        ({
            let out = merged_items(items, old, new);
            &&& out.len() == others(items, old).len() + if meets(items, old) {
                1int
            } else {
                0
            }
            &&& out.contains(ref_param(new)) == meets(items, old)
            &&& out.filter(|p: ParamView| p != ref_param(new)) == others(items, old)
        }),
    decreases items.len(),
{
    reveal(Seq::filter);
    let is_other = |p: ParamView| !(ref_value(p) matches Some(id) && old.contains(id));
    let is_not_new = |p: ParamView| p != ref_param(new);
    if items.len() > 0 {
        let front = items.drop_last();
        let last = items.last();
        let rest = merged_items(front, old, new);
        let out = merged_items(items, old, new);
        assert(items[items.len() - 1] == last);
        assert forall|i: int| 0 <= i < front.len() implies #[trigger] front[i] == items[i] by {}
        if front.contains(ref_param(new)) {
            let k = choose|k: int| 0 <= k < front.len() && front[k] == ref_param(new);
            assert(items[k] == ref_param(new));
        }
        law_joined_items_are_listed_once(front, old, new);
        if meets(front, old) {
            let k = choose|k: int|
                0 <= k < front.len() && (ref_value(#[trigger] front[k]) matches Some(id)
                    && old.contains(id));
            assert(items[k] == front[k]);
        }
        if meets(items, old) {
            let k = choose|k: int|
                0 <= k < items.len() && (ref_value(#[trigger] items[k]) matches Some(id)
                    && old.contains(id));
            if k < front.len() {
                assert(front[k] == items[k]);
            }
        }
        if out != rest {
            assert(out.drop_last() =~= rest);
            assert(out[rest.len() as int] == out.last());
            if rest.contains(ref_param(new)) {
                let k = choose|k: int| 0 <= k < rest.len() && rest[k] == ref_param(new);
                assert(out[k] == ref_param(new));
            }
            if out.contains(ref_param(new)) {
                let k = choose|k: int| 0 <= k < out.len() && out[k] == ref_param(new);
                if k < rest.len() {
                    assert(rest[k] == ref_param(new));
                }
            }
        }
        assert(items.filter(is_other) == if is_other(last) {
            front.filter(is_other).push(last)
        } else {
            front.filter(is_other)
        });
    }
}

} // verus!
