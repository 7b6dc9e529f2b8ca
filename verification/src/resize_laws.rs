//! What rows of edges and the faces of periodic bodies keep.

use vstd::prelude::*;

use crate::ast::EntityView;
use crate::body_bounds::with_list;
use crate::body_detection::{apart, FaceMeasure};
use crate::body_graph::{ends, id_at};
use crate::body_plan::{marked, standing, vertex_at};
use crate::body_rows::{
    both_marks, with_edge_like, with_full, with_gaps, with_moved, with_steps_of, BodyEvidence,
    Stage,
};
use crate::bound_laws::law_shell_follows_its_faces;
use crate::chain_detection::{all_faces, comes_first, link_text, part_name, repeated_faces, share};
use crate::chain_laws::lemma_inserted;
use crate::chain_partition::EdgeLink;
use crate::graph::{
    lemma_position, nth, nth_ref, nth_ref_list, record_at, simple_record, typed_record,
};
use crate::lookup::{lemma_changed_found, lemma_ref_params};
use crate::periodic_bodies::PeriodicBodyPattern;
use crate::periodic_resize::{
    body_resized, copied, kept_sites, on_side, shell_after, site_faces, sites_faces, staged,
    with_all_stretched, CopyView, PlanView,
};
use crate::resize::PeriodicChainPattern;
use crate::sets::{ascending, sorted_of, sorts};

verus! {

/// An ascending list with one more id.
spec fn put_once(sorted: Seq<u64>, id: u64) -> Seq<u64>
    decreases sorted.len(),
{
    if sorted.len() == 0 || sorted.last() < id {
        sorted.push(id)
    } else if sorted.last() == id {
        sorted
    } else {
        put_once(sorted.drop_last(), id).push(sorted.last())
    }
}

proof fn lemma_put_once(sorted: Seq<u64>, id: u64)
    requires
        ascending(sorted),
    ensures
        ascending(put_once(sorted, id)),
        forall|x: u64| #[trigger]
            put_once(sorted, id).contains(x) == (sorted.contains(x) || x == id),
    decreases sorted.len(),
{
    let out = put_once(sorted, id);
    if sorted.len() == 0 || sorted.last() < id {
        assert(out[sorted.len() as int] == id);
        assert forall|x: u64| #[trigger] out.contains(x) == (sorted.contains(x) || x == id) by {
            if sorted.contains(x) {
                let k = choose|k: int| 0 <= k < sorted.len() && sorted[k] == x;
                assert(out[k] == x);
            }
            if out.contains(x) {
                let k = choose|k: int| 0 <= k < out.len() && out[k] == x;
                if k < sorted.len() {
                    assert(sorted[k] == x);
                }
            }
        }
        assert forall|i: int, j: int|
            #![trigger out[i], out[j]]
            0 <= i < j < out.len() implies out[i] < out[j] by {
            if j == sorted.len() {
                assert(sorted[i] <= sorted[sorted.len() - 1]);
            } else {
                assert(sorted[i] < sorted[j]);
            }
        }
    } else if sorted.last() == id {
        assert(sorted[sorted.len() - 1] == id);
    } else {
        let front = sorted.drop_last();
        let last = sorted.last();
        assert forall|i: int, j: int|
            #![trigger front[i], front[j]]
            0 <= i < j < front.len() implies front[i] < front[j] by {
            assert(sorted[i] < sorted[j]);
        }
        lemma_put_once(front, id);
        let rest = put_once(front, id);
        assert(out[rest.len() as int] == last);
        assert(sorted[sorted.len() - 1] == last);
        assert forall|i: int, j: int|
            #![trigger out[i], out[j]]
            0 <= i < j < out.len() implies out[i] < out[j] by {
            if j == rest.len() {
                assert(rest.contains(rest[i]));
                if rest[i] != id {
                    let k = choose|k: int| 0 <= k < front.len() && front[k] == rest[i];
                    assert(sorted[k] < sorted[sorted.len() - 1]);
                }
            } else {
                assert(rest[i] < rest[j]);
            }
        }
        assert forall|x: u64| #[trigger] out.contains(x) == (sorted.contains(x) || x == id) by {
            if sorted.contains(x) {
                let k = choose|k: int| 0 <= k < sorted.len() && sorted[k] == x;
                if k < front.len() {
                    assert(front[k] == x);
                    assert(rest.contains(x));
                }
            }
            if front.contains(x) {
                let k = choose|k: int| 0 <= k < front.len() && front[k] == x;
                assert(sorted[k] == x);
            }
            if rest.contains(x) {
                let k = choose|k: int| 0 <= k < rest.len() && rest[k] == x;
                assert(out[k] == x);
            }
            if x == id {
                assert(rest.contains(x));
            }
            if out.contains(x) {
                let k = choose|k: int| 0 <= k < out.len() && out[k] == x;
                if k < rest.len() {
                    assert(rest[k] == x);
                    assert(rest.contains(x));
                }
            }
        }
    }
}

proof fn lemma_can_be_sorted(ids: Seq<u64>) -> (sorted: Seq<u64>)
    ensures
        sorts(sorted, ids),
    decreases ids.len(),
{
    if ids.len() == 0 {
        ids
    } else {
        let front = ids.drop_last();
        let rest = lemma_can_be_sorted(front);
        lemma_put_once(rest, ids.last());
        let sorted = put_once(rest, ids.last());
        assert forall|id: u64| #[trigger] sorted.contains(id) == ids.contains(id) by {
            if front.contains(id) {
                let k = choose|k: int| 0 <= k < front.len() && front[k] == id;
                assert(ids[k] == id);
            }
            if ids.contains(id) {
                let k = choose|k: int| 0 <= k < ids.len() && ids[k] == id;
                if k < front.len() {
                    assert(front[k] == id);
                }
            }
            assert(ids[ids.len() - 1] == ids.last());
            assert(rest.contains(id) == front.contains(id));
        }
        sorted
    }
}

/// A list in ascending order, each id once, has the ids of the list.
pub proof fn law_sorted_keeps_ids(ids: Seq<u64>)
    ensures
        ascending(sorted_of(ids)),
        forall|id: u64| #[trigger] sorted_of(ids).contains(id) == ids.contains(id),
{
    let sorted = lemma_can_be_sorted(ids);
    assert(sorts(sorted, ids));
    assert(sorts(sorted_of(ids), ids));
}

proof fn lemma_standing(places: Map<u64, u64>, vertices: Seq<u64>, place: u64, v: u64)
    ensures
        standing(places, vertices, place).contains(v) == (vertices.contains(v)
            && places.contains_key(v) && places[v] == place),
    decreases vertices.len(),
{
    if vertices.len() > 0 {
        let front = vertices.drop_last();
        let rest = standing(places, front, place);
        let all = standing(places, vertices, place);
        lemma_standing(places, front, place, v);
        assert(vertices[vertices.len() - 1] == vertices.last());
        if front.contains(v) {
            let k = choose|k: int| 0 <= k < front.len() && front[k] == v;
            assert(vertices[k] == v);
        }
        if vertices.contains(v) {
            let k = choose|k: int| 0 <= k < vertices.len() && vertices[k] == v;
            if k < front.len() {
                assert(front[k] == v);
            }
        }
        if rest.contains(v) {
            let k = choose|k: int| 0 <= k < rest.len() && rest[k] == v;
            assert(all[k] == v);
        }
        if all.contains(v) {
            let k = choose|k: int| 0 <= k < all.len() && all[k] == v;
            if k < rest.len() {
                assert(rest[k] == v);
            }
        }
        if places.contains_key(vertices.last()) && places[vertices.last()] == place {
            assert(all[rest.len() as int] == vertices.last());
        }
    }
}

/// The vertex that is found for another one is the only one of some vertices that stands where
/// the other one moves to.
pub proof fn law_vertex_stands_where_the_other_moves(
    places: Map<u64, u64>,
    vertices: Seq<u64>,
    moved: Map<u64, u64>,
    vertex: u64,
    other: u64,
)
    ensures
        vertex_at(places, vertices, moved, vertex) matches Ok(found) ==> {
            &&& moved.contains_key(vertex)
            &&& vertices.contains(found)
            &&& places.contains_key(found)
            &&& places[found] == moved[vertex]
            &&& vertices.contains(other) && places.contains_key(other) && places[other]
                == moved[vertex] ==> other == found
        },
{
    if let Ok(found) = vertex_at(places, vertices, moved, vertex) {
        let there = standing(places, vertices, moved[vertex]);
        let once = sorted_of(there);
        law_sorted_keeps_ids(there);
        assert(once[0] == found);
        assert(once.contains(found));
        lemma_standing(places, vertices, moved[vertex], found);
        lemma_standing(places, vertices, moved[vertex], other);
        if there.contains(other) {
            assert(once.contains(other));
            let k = choose|k: int| 0 <= k < once.len() && once[k] == other;
            assert(k == 0);
        }
    }
}

/// Whether a stage has one edge more than another, between two vertices, along the curve of an
/// edge, and marked for two faces.
pub open spec fn has_edge_more(
    start: Seq<EntityView>,
    before: Stage,
    after: Stage,
    pair: (u64, u64),
    edge: u64,
    from: u64,
    to: u64,
) -> bool {
    let n = before.0.len() as int;
    &&& after.0.len() == n + 1
    &&& after.0.take(n) == before.0
    &&& after.0[n].id() == id_at(start, n)
    &&& after.1 == before.1 + seq![(pair.0, after.0[n].id()), (pair.1, after.0[n].id())]
    &&& typed_record(before.0, edge, "EDGE_CURVE"@) matches Some(old)
    &&& simple_record(after.0[n]) matches Some(new)
    &&& new.name == "EDGE_CURVE"@
    &&& nth_ref(new, 1) == Some(from)
    &&& nth_ref(new, 2) == Some(to)
    &&& forall|k: int| k != 1 && k != 2 ==> #[trigger] nth(new, k) == nth(old, k)
}

proof fn lemma_edge_like(
    start: Seq<EntityView>,
    stage: Stage,
    pair: (u64, u64),
    edge: u64,
    a: u64,
    b: u64,
)
    ensures
        with_edge_like(start, stage, pair, edge, a, b) matches Ok(next) ==> has_edge_more(
            start,
            stage,
            next,
            pair,
            edge,
            a,
            b,
        ),
{
    if let Ok(next) = with_edge_like(start, stage, pair, edge, a, b) {
        let n = stage.0.len() as int;
        assert(next.0.take(n) =~= stage.0);
        let id = next.0[n].id();
        assert(next.1 =~= stage.1 + seq![(pair.0, id), (pair.1, id)]);
    }
}

/// An edge that moves with both its ends is followed by one along the same curve, from the
/// vertex where its start moves to, to the vertex where its end moves to. It is marked for both
/// faces, and nothing else changes.
pub proof fn law_moved_edge_joins_moved_ends(
    start: Seq<EntityView>,
    stage: Stage,
    pair: (u64, u64),
    edge: u64,
    places: Map<u64, u64>,
    vertices: Seq<u64>,
    moved: Map<u64, u64>,
)
    ensures
        with_moved(start, stage, pair, edge, places, vertices, moved) matches Ok(next) ==> {
            &&& ends(stage.0, edge) matches Some((a, b))
            &&& exists|from: u64, to: u64|
                {
                    &&& #[trigger] has_edge_more(start, stage, next, pair, edge, from, to)
                    &&& vertices.contains(from) && places[from] == moved[a]
                    &&& vertices.contains(to) && places[to] == moved[b]
                }
        },
{
    if let Ok(next) = with_moved(start, stage, pair, edge, places, vertices, moved) {
        let (a, b) = ends(stage.0, edge)->Some_0;
        let from = vertex_at(places, vertices, moved, a)->Ok_0;
        let to = vertex_at(places, vertices, moved, b)->Ok_0;
        law_vertex_stands_where_the_other_moves(places, vertices, moved, a, from);
        law_vertex_stands_where_the_other_moves(places, vertices, moved, b, to);
        lemma_edge_like(start, stage, pair, edge, from, to);
        assert(has_edge_more(start, stage, next, pair, edge, from, to));
    }
}

/// An edge that spans the body is followed by one along the same curve that starts at the end
/// that stays, and goes to the vertex where the other end moves to.
pub proof fn law_spanning_edge_keeps_its_near_end(
    start: Seq<EntityView>,
    stage: Stage,
    pair: (u64, u64),
    edge: u64,
    evidence: BodyEvidence,
    vertices: Seq<u64>,
)
    ensures
        with_full(start, stage, pair, edge, evidence, vertices) matches Ok(next) ==> {
            &&& ends(stage.0, edge) matches Some((a, b))
            &&& exists|near: u64, far: u64, to: u64|
                {
                    &&& #[trigger] has_edge_more(start, stage, next, pair, edge, near, to)
                    &&& evidence.rows@[edge].turned ==> near == b && far == a
                    &&& !evidence.rows@[edge].turned ==> near == a && far == b
                    &&& vertices.contains(to) && evidence.places@[to]
                        == #[trigger] evidence.shifted@[far]
                }
        },
{
    if let Ok(next) = with_full(start, stage, pair, edge, evidence, vertices) {
        let (a, b) = ends(stage.0, edge)->Some_0;
        let (near, far) = if evidence.rows@[edge].turned {
            (b, a)
        } else {
            (a, b)
        };
        let to = vertex_at(evidence.places@, vertices, evidence.shifted@, far)->Ok_0;
        law_vertex_stands_where_the_other_moves(
            evidence.places@,
            vertices,
            evidence.shifted@,
            far,
            to,
        );
        lemma_edge_like(start, stage, pair, edge, near, to);
        assert(has_edge_more(start, stage, next, pair, edge, near, to));
        assert(evidence.places@[to] == evidence.shifted@[far]);
    }
}

proof fn lemma_steps_count(
    start: Seq<EntityView>,
    stage: Stage,
    pair: (u64, u64),
    edge: u64,
    evidence: BodyEvidence,
    vertices: Seq<u64>,
    n: nat,
)
    ensures
        with_steps_of(start, stage, pair, edge, evidence, vertices, n) matches Ok(next)
            ==> next.0.len() == stage.0.len() + n && next.1.len() == stage.1.len() + 2 * n,
    decreases n,
{
    if n > 0 {
        lemma_steps_count(start, stage, pair, edge, evidence, vertices, (n - 1) as nat);
        if let Ok(before) = with_steps_of(
            start,
            stage,
            pair,
            edge,
            evidence,
            vertices,
            (n - 1) as nat,
        ) {
            if n <= evidence.stepped@.len() {
                law_moved_edge_joins_moved_ends(
                    start,
                    before,
                    pair,
                    edge,
                    evidence.places@,
                    vertices,
                    evidence.stepped@[n - 1]@,
                );
            }
        }
    }
}

proof fn lemma_both_marks(pair: (u64, u64), edges: Seq<u64>)
    ensures
        both_marks(pair, edges).len() == 2 * edges.len(),
    decreases edges.len(),
{
    if edges.len() > 0 {
        lemma_both_marks(pair, edges.drop_last());
    }
}

/// Two faces that a row of sites separates meet, afterwards, at one edge more than there are
/// sites: each edge is marked for both faces. As many edges are new as there are new sites, and
/// one more for the end that moves.
pub proof fn law_row_has_an_edge_more_than_sites(
    start: Seq<EntityView>,
    stage: Stage,
    pair: (u64, u64),
    edges: Seq<u64>,
    evidence: BodyEvidence,
    vertices: Seq<u64>,
    old_sites: usize,
    new_sites: usize,
)
    requires
        edges.len() > 0,
        old_sites > 0,
    ensures
        with_gaps(start, stage, pair, edges, evidence, vertices, old_sites, new_sites) matches Ok(
            next,
        ) ==> {
            &&& edges.len() == old_sites + 1
            &&& next.1.len() == stage.1.len() + 2 * (new_sites + 1)
            &&& new_sites >= old_sites ==> next.0.len() == stage.0.len() + (new_sites - old_sites)
                + 1
            &&& new_sites < old_sites ==> next.0.len() == stage.0.len() + 1
        },
{
    if let Ok(done) = with_gaps(
        start,
        stage,
        pair,
        edges,
        evidence,
        vertices,
        old_sites,
        new_sites,
    ) {
        let kept = if new_sites < old_sites {
            new_sites as int
        } else {
            old_sites as int
        };
        lemma_both_marks(pair, edges.take(kept));
        let marked = (stage.0, stage.1 + both_marks(pair, edges.take(kept)));
        lemma_steps_count(
            start,
            marked,
            pair,
            edges[old_sites - 1],
            evidence,
            vertices,
            (new_sites - kept) as nat,
        );
        let next = with_steps_of(
            start,
            marked,
            pair,
            edges[old_sites - 1],
            evidence,
            vertices,
            (new_sites - kept) as nat,
        )->Ok_0;
        law_moved_edge_joins_moved_ends(
            start,
            next,
            pair,
            edges.last(),
            evidence.places@,
            vertices,
            evidence.shifted@,
        );
    }
}

/// The faces that do not repeat are stretched where they are long, and fixed where they are not:
/// each is one of both, and none that repeats is.
pub proof fn law_faces_apart_are_long_or_not(
    measures: Map<u64, FaceMeasure>,
    faces: Seq<u64>,
    repeating: Seq<u64>,
    n: nat,
    face: u64,
)
    requires
        n <= faces.len(),
    ensures
        apart(measures, faces, repeating, true, n).contains(face) == (faces.take(
            n as int,
        ).contains(face) && !repeating.contains(face) && measures.contains_key(face)
            && measures[face].long),
        apart(measures, faces, repeating, false, n).contains(face) == (faces.take(
            n as int,
        ).contains(face) && !repeating.contains(face) && !(measures.contains_key(face)
            && measures[face].long)),
    decreases n,
{
    let all = faces.take(n as int);
    if n > 0 {
        let m = (n - 1) as nat;
        let front = faces.take(m as int);
        law_faces_apart_are_long_or_not(measures, faces, repeating, m, face);
        lemma_inserted(apart(measures, faces, repeating, true, m), faces[n - 1], face);
        lemma_inserted(apart(measures, faces, repeating, false, m), faces[n - 1], face);
        assert(all[n - 1] == faces[n - 1]);
        if front.contains(face) {
            let k = choose|k: int| 0 <= k < front.len() && front[k] == face;
            assert(all[k] == face);
        }
        if all.contains(face) {
            let k = choose|k: int| 0 <= k < all.len() && all[k] == face;
            if k < m {
                assert(front[k] == face);
            }
        }
    }
}

/// The faces on one side are those of the list that are measured to be there, in their order.
pub proof fn law_faces_keep_their_side(beyond: Map<u64, bool>, faces: Seq<u64>, side: bool)
    ensures
        on_side(beyond, faces, side) == faces.filter(|f: u64| beyond[f] == side),
    decreases faces.len(),
{
    reveal(Seq::filter);
    if faces.len() > 0 {
        law_faces_keep_their_side(beyond, faces.drop_last(), side);
    }
}

/// The edges that are marked for a face are those of its marks, in their order.
pub proof fn law_marks_belong_to_faces(marks: Seq<(u64, u64)>, face: u64)
    ensures
        marked(marks, face) == marks.filter(|m: (u64, u64)| m.0 == face).map_values(
            |m: (u64, u64)| m.1,
        ),
    decreases marks.len(),
{
    reveal(Seq::filter);
    let own = |m: (u64, u64)| m.0 == face;
    let edge = |m: (u64, u64)| m.1;
    if marks.len() > 0 {
        let front = marks.drop_last();
        law_marks_belong_to_faces(front, face);
        assert(front.filter(own).push(marks.last()).map_values(edge) =~= front.filter(
            own,
        ).map_values(edge).push(marks.last().1));
    }
    assert(marked(marks, face) =~= marks.filter(own).map_values(edge));
}

/// What an edge joins is said in the same words from both of its sides, and names both.
pub proof fn law_links_are_said_alike(link: EdgeLink)
    ensures
        link_text(link) == link_text(EdgeLink { first: link.second, second: link.first }),
        link_text(link) == part_name(link.first) + seq!['|'] + part_name(link.second) || link_text(
            link,
        ) == part_name(link.second) + seq!['|'] + part_name(link.first),
{
}

/// A chain that is proven comes before one that is not. Of two that are alike in this, one that
/// repeats a larger share of its faces comes first, and of two with one share, one with more
/// sites.
pub proof fn law_chains_are_ranked(a: PeriodicChainPattern, b: PeriodicChainPattern)
    ensures
        a.read_only_proven && !b.read_only_proven ==> comes_first(a, b) && !comes_first(b, a),
        a.read_only_proven == b.read_only_proven && repeated_faces(a) * all_faces(b)
            > repeated_faces(b) * all_faces(a) ==> comes_first(a, b) && !comes_first(b, a),
        a.read_only_proven == b.read_only_proven && repeated_faces(a) * all_faces(b)
            == repeated_faces(b) * all_faces(a) && a.sites > b.sites ==> comes_first(a, b)
            && !comes_first(b, a),
{
}

proof fn lemma_copied(
    start: Seq<EntityView>,
    right: Seq<u64>,
    model: Seq<u64>,
    evidence: BodyEvidence,
    n: nat,
)
    ensures
        copied(start, right, model, evidence, n) matches Ok(copy) ==> copy.maps.len() == n
            && copy.faces.len() == n * model.len(),
    decreases n,
{
    if n > 0 {
        let m = (n - 1) as nat;
        lemma_copied(start, right, model, evidence, m);
        assert(n * model.len() == m * model.len() + model.len()) by (nonlinear_arith)
            requires
                n == m + 1,
        ;
    }
}

proof fn lemma_with_list(entities: Seq<EntityView>, id: u64, ids: Seq<u64>, least: int)
    requires
        least >= 2,
    ensures
        with_list(entities, id, ids, least) matches Ok(after) ==> {
            &&& after.len() == entities.len()
            &&& record_at(entities, id) matches Some(before)
            &&& record_at(after, id) matches Some(record)
            &&& record.name == before.name
            &&& nth_ref_list(record, 1) == Some(ids)
            &&& forall|k: int| k != 1 ==> #[trigger] nth(record, k) == nth(before, k)
        },
{
    if let Ok(after) = with_list(entities, id, ids, least) {
        lemma_position(entities, id);
        lemma_changed_found(after, entities, id);
        lemma_ref_params(ids);
    }
}

/// Whether a shell of a resized body lists the faces that it listed, as they stay, move or
/// leave, and then the copies.
pub open spec fn lists_resized(
    after: Seq<EntityView>,
    plan: PlanView,
    copy: CopyView,
    removed: Seq<u64>,
) -> bool {
    &&& record_at(after, plan.shell) matches Some(shell)
    &&& nth_ref_list(shell, 1) matches Some(faces)
    &&& faces == plan.shell_faces.filter(
        |f: u64| plan.right.to_set().contains(f) || !removed.to_set().contains(f),
    ).map_values(
        |f: u64|
            if plan.right.to_set().contains(f) {
                copy.cap[f]
            } else {
                f
            },
    ) + copy.faces
}

/// The faces of the sites from a number on.
pub open spec fn leaving_faces(body: PeriodicBodyPattern, new_sites: usize) -> Seq<u64> {
    if new_sites < body.sites {
        sites_faces(body, new_sites as int, body.sites as int)
    } else {
        Seq::empty()
    }
}

/// A body with another number of sites has a shell that lists the faces that stay, those of the
/// end that moves as their copies, and those of the new sites: as many for each new site as one
/// site has. Where sites leave, none is copied.
pub proof fn law_resized_shell_lists_its_faces(
    start: Seq<EntityView>,
    body: PeriodicBodyPattern,
    new_sites: usize,
    canonical_site: usize,
    evidence: BodyEvidence,
)
    ensures
        body_resized(start, body, new_sites, canonical_site, evidence) matches Ok((after, stats))
            ==> {
            let families = body.repeat_face_families@.len();
            &&& stats.old_sites == body.sites
            &&& stats.new_sites == new_sites
            &&& exists|plan: PlanView, copy: CopyView|
                {
                    &&& #[trigger] lists_resized(
                        after,
                        plan,
                        copy,
                        leaving_faces(body, new_sites),
                    )
                    &&& new_sites <= body.sites ==> copy.faces.len() == 0
                    &&& new_sites > body.sites ==> copy.faces.len() == (new_sites - body.sites)
                        * families
                }
        },
{
    if let Ok((after, stats)) = body_resized(start, body, new_sites, canonical_site, evidence) {
        let (plan, copy, stage) = staged(start, body, new_sites, evidence)->Ok_0;
        let kept = kept_sites(body, new_sites);
        let model = site_faces(body, body.sites as int / 2);
        let removed = sites_faces(body, kept as int, body.sites as int);
        lemma_copied(start, plan.right, model, evidence, (new_sites - kept) as nat);
        assert(0 * model.len() == 0);
        assert(removed == leaving_faces(body, new_sites));
        let built = with_all_stretched(
            start,
            stage.0,
            stage.1,
            body.stretch_face_ids@,
            evidence,
        )->Ok_0;
        let faces = shell_after(
            plan.shell_faces,
            plan.right.to_set(),
            copy.cap,
            removed.to_set(),
        ) + copy.faces;
        lemma_with_list(built, plan.shell, faces, 2);
        law_shell_follows_its_faces(
            plan.shell_faces,
            plan.right.to_set(),
            copy.cap,
            removed.to_set(),
        );
        assert(lists_resized(after, plan, copy, removed));
    }
}

} // verus!
