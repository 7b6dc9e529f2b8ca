//! What curves of a family, shared supports, outlines and texts have in common.

use vstd::prelude::*;

use crate::ast::{EntityView, ParamView};
use crate::cad_ir::{CadNode, NodeId, PatternSpec, RigidTransform, Scalar};
use crate::chain_windows::site_place;
use crate::curve_replicas::{curve_form, family, put_place, same_family};
use crate::face_info::face_info;
use crate::face_plan::{boundary, outer};
use crate::geometric_intern::{support_kind, with_support, SupportView};
use crate::graph::{nth, nth_ref_list, refers, simple_record, typed_record};
use crate::kcl::{node_text, solid};
use crate::text::decimal;

verus! {

/// Whether two curves are the same in all but their names and their poles, and have poles of
/// one shape.
pub open spec fn are_alike(
    entities: Seq<EntityView>,
    shape: Map<u64, u64>,
    a: int,
    b: int,
) -> bool {
    &&& simple_record(entities[a]) matches Some(first)
    &&& simple_record(entities[b]) matches Some(second)
    &&& first.name == "B_SPLINE_CURVE_WITH_KNOTS"@
    &&& second.name == "B_SPLINE_CURVE_WITH_KNOTS"@
    &&& forall|n: int| n != 0 && n != 2 ==> #[trigger] nth(first, n) == nth(second, n)
    &&& nth(first, 8) is Some && nth(first, 9) is None
    &&& nth_ref_list(first, 2) is Some && nth_ref_list(second, 2) is Some
    &&& shape.contains_key(entities[a].id()) && shape.contains_key(entities[b].id())
    &&& shape[entities[a].id()] == shape[entities[b].id()]
}

proof fn lemma_same_family(entities: Seq<EntityView>, shape: Map<u64, u64>, a: int, b: int)
    requires
        same_family(entities, shape, a, b),
    ensures
        are_alike(entities, shape, a, b),
{
    let first = simple_record(entities[a])->Some_0;
    let second = simple_record(entities[b])->Some_0;
    let p = curve_form(entities, entities[a])->Some_0.0;
    let q = curve_form(entities, entities[b])->Some_0.0;
    assert(first.parameter == ParamView::List(p));
    assert(second.parameter == ParamView::List(q));
    assert forall|n: int| n != 0 && n != 2 implies #[trigger] nth(first, n) == nth(second, n) by {
        if 0 <= n < 9 {
            assert(n == 1 || n == 3 || n == 4 || n == 5 || n == 6 || n == 7 || n == 8);
        }
    }
}

/// Whether places are in the order of the ids of their entities.
pub open spec fn ids_rise(entities: Seq<EntityView>, places: Seq<usize>) -> bool {
    forall|i: int, j: int|
        #![trigger places[i], places[j]]
        0 <= i < j < places.len() ==> entities[places[i] as int].id()
            <= entities[places[j] as int].id()
}

proof fn lemma_put_place(entities: Seq<EntityView>, order: Seq<usize>, own: usize, x: usize)
    requires
        ids_rise(entities, order),
    ensures
        ids_rise(entities, put_place(entities, order, own)),
        put_place(entities, order, own).len() == order.len() + 1,
        put_place(entities, order, own).contains(x) == (order.contains(x) || x == own),
        forall|y: usize| #[trigger]
            put_place(entities, order, own).contains(y) ==> order.contains(y) || y == own,
    decreases order.len(),
{
    let out = put_place(entities, order, own);
    if order.len() == 0 || entities[order.last() as int].id() <= entities[own as int].id() {
        assert(out[order.len() as int] == own);
        assert forall|i: int, j: int|
            #![trigger out[i], out[j]]
            0 <= i < j < out.len() implies entities[out[i] as int].id()
            <= entities[out[j] as int].id() by {
            if j == order.len() {
                let last = order.len() - 1;
                assert(order[last] == order.last());
                if i < last {
                    assert(entities[order[i] as int].id() <= entities[order[last] as int].id());
                }
            } else {
                assert(entities[order[i] as int].id() <= entities[order[j] as int].id());
            }
        }
        if order.contains(x) {
            let k = choose|k: int| 0 <= k < order.len() && order[k] == x;
            assert(out[k] == x);
        }
        assert forall|y: usize| #[trigger] out.contains(y) implies order.contains(y) || y == own by {
            let k = choose|k: int| 0 <= k < out.len() && out[k] == y;
            if k < order.len() {
                assert(order[k] == y);
            }
        }
    } else {
        let front = order.drop_last();
        let last = order.last();
        assert(order[order.len() - 1] == last);
        assert forall|i: int, j: int|
            #![trigger front[i], front[j]]
            0 <= i < j < front.len() implies entities[front[i] as int].id()
            <= entities[front[j] as int].id() by {
            assert(entities[order[i] as int].id() <= entities[order[j] as int].id());
        }
        lemma_put_place(entities, front, own, x);
        let rest = put_place(entities, front, own);
        assert(out[rest.len() as int] == last);
        assert forall|i: int, j: int|
            #![trigger out[i], out[j]]
            0 <= i < j < out.len() implies entities[out[i] as int].id()
            <= entities[out[j] as int].id() by {
            if j == rest.len() {
                assert(rest.contains(rest[i]));
                if rest[i] != own {
                    let k = choose|k: int| 0 <= k < front.len() && front[k] == rest[i];
                    assert(entities[order[k] as int].id() <= entities[order[order.len()
                        - 1] as int].id());
                }
            } else {
                assert(entities[rest[i] as int].id() <= entities[rest[j] as int].id());
            }
        }
        if order.contains(x) {
            let k = choose|k: int| 0 <= k < order.len() && order[k] == x;
            if k < front.len() {
                assert(front[k] == x);
            }
        }
        if rest.contains(x) {
            let k = choose|k: int| 0 <= k < rest.len() && rest[k] == x;
            assert(out[k] == x);
        }
        assert forall|y: usize| #[trigger] out.contains(y) implies order.contains(y) || y == own by {
            let k = choose|k: int| 0 <= k < out.len() && out[k] == y;
            if k < rest.len() {
                assert(rest[k] == y);
                assert(rest.contains(y));
                if front.contains(y) {
                    let q = choose|q: int| 0 <= q < front.len() && front[q] == y;
                    assert(order[q] == y);
                }
            }
        }
    }
}

/// The curves of a family are the same in all but their names and poles, and have poles of one
/// shape. They are in the order of their ids, so that the first has the least.
pub proof fn law_family_of_curves_is_alike(
    entities: Seq<EntityView>,
    shape: Map<u64, u64>,
    first: int,
    places: Seq<usize>,
    k: int,
)
    requires
        0 <= k < family(entities, shape, first, places).len(),
    ensures
        ({
            let all = family(entities, shape, first, places);
            &&& places.contains(all[k])
            &&& are_alike(entities, shape, first, all[k] as int)
            &&& entities[all[0] as int].id() <= entities[all[k] as int].id()
        }),
{
    lemma_family(entities, shape, first, places, family(entities, shape, first, places)[k]);
    let all = family(entities, shape, first, places);
    assert(all.contains(all[k]));
    assert(all[0] == all[0] && ids_rise(entities, all));
}

proof fn lemma_family(
    entities: Seq<EntityView>,
    shape: Map<u64, u64>,
    first: int,
    places: Seq<usize>,
    x: usize,
)
    ensures
        ids_rise(entities, family(entities, shape, first, places)),
        family(entities, shape, first, places).contains(x) ==> places.contains(x) && are_alike(
            entities,
            shape,
            first,
            x as int,
        ),
    decreases places.len(),
{
    if places.len() > 0 {
        let front = places.drop_last();
        lemma_family(entities, shape, first, front, x);
        assert(places[places.len() - 1] == places.last());
        if front.contains(x) {
            let k = choose|k: int| 0 <= k < front.len() && front[k] == x;
            assert(places[k] == x);
        }
        if same_family(entities, shape, first, places.last() as int) {
            lemma_same_family(entities, shape, first, places.last() as int);
            lemma_put_place(
                entities,
                family(entities, shape, first, front),
                places.last(),
                x,
            );
        }
    }
}

/// Whether an entity is of a type, and something refers to it, and all that does is of another
/// type.
pub open spec fn serves_only(
    entities: Seq<EntityView>,
    entity: EntityView,
    name: Seq<char>,
    user: Seq<char>,
) -> bool {
    &&& simple_record(entity) matches Some(record)
    &&& record.name == name
    &&& exists|parent: u64| #[trigger] refers(entities, parent, entity.id())
    &&& forall|parent: u64| #[trigger]
        refers(entities, parent, entity.id()) ==> typed_record(entities, parent, user) is Some
}

/// One more entity gives up its place to another one only where it is a plane or a cylinder that
/// faces alone use, or a line that edges alone use, and it counts as what it is. What stood for
/// others goes on doing so.
pub proof fn law_supports_serve_faces_or_edges(
    entities: Seq<EntityView>,
    place: Map<u64, u64>,
    found: SupportView,
    entity: EntityView,
)
    ensures
        ({
            let next = with_support(entities, place, found, entity);
            let plane = serves_only(entities, entity, "PLANE"@, "ADVANCED_FACE"@);
            let cylinder = serves_only(
                entities,
                entity,
                "CYLINDRICAL_SURFACE"@,
                "ADVANCED_FACE"@,
            );
            let line = serves_only(entities, entity, "LINE"@, "EDGE_CURVE"@);
            &&& next.alias == found.alias ==> next.planes == found.planes && next.lines
                == found.lines && next.cylinders == found.cylinders || found.alias.contains_key(
                entity.id(),
            )
            &&& next.alias != found.alias ==> {
                &&& next.alias == found.alias.insert(entity.id(), found.seen[place[entity.id()]])
                &&& plane || cylinder || line
                &&& next.planes == found.planes + if plane {
                    1int
                } else {
                    0
                }
                &&& next.cylinders == found.cylinders + if cylinder {
                    1int
                } else {
                    0
                }
                &&& next.lines == found.lines + if line {
                    1int
                } else {
                    0
                }
            }
        }),
{
    reveal_strlit("PLANE");
    reveal_strlit("CYLINDRICAL_SURFACE");
    reveal_strlit("LINE");
    assert("PLANE"@.len() == 5);
    assert("CYLINDRICAL_SURFACE"@.len() == 19);
    assert("LINE"@.len() == 4);
    let id = entity.id();
    if support_kind(entities, entity) is Some && place.contains_key(id) && found.seen.contains_key(
        place[id],
    ) && found.seen[place[id]] != id {
        let next = with_support(entities, place, found, entity);
        if next.alias == found.alias {
            assert(next.alias.contains_key(id));
        }
    }
}

proof fn lemma_outer(oes: Seq<(u64, u64)>, inner: Seq<u64>, oe: (u64, u64))
    ensures
        outer(oes, inner).contains(oe) == (oes.contains(oe) && !inner.contains(oe.1)),
    decreases oes.len(),
{
    if oes.len() > 0 {
        let front = oes.drop_last();
        let rest = outer(front, inner);
        let all = outer(oes, inner);
        lemma_outer(front, inner, oe);
        assert(oes[oes.len() - 1] == oes.last());
        if front.contains(oe) {
            let k = choose|k: int| 0 <= k < front.len() && front[k] == oe;
            assert(oes[k] == oe);
        }
        if oes.contains(oe) {
            let k = choose|k: int| 0 <= k < oes.len() && oes[k] == oe;
            if k < front.len() {
                assert(front[k] == oe);
            }
        }
        if rest.contains(oe) {
            let k = choose|k: int| 0 <= k < rest.len() && rest[k] == oe;
            assert(all[k] == oe);
        }
        if all.contains(oe) {
            let k = choose|k: int| 0 <= k < all.len() && all[k] == oe;
            if k < rest.len() {
                assert(rest[k] == oe);
            }
        }
        if !inner.contains(oes.last().1) {
            assert(all[rest.len() as int] == oes.last());
        }
    }
}

/// The outline of some faces has the oriented edges of the faces that are on none of the inner
/// edges, and no others.
pub proof fn law_outline_is_what_is_not_inside(
    entities: Seq<EntityView>,
    faces: Seq<u64>,
    inner: Seq<u64>,
    oe: (u64, u64),
)
    ensures
        boundary(entities, faces, inner).contains(oe) == (!inner.contains(oe.1) && exists|i: int|
            0 <= i < faces.len() && face_info(
                entities,
                #[trigger] faces[i],
            )->Some_0.oes.contains(oe)),
    decreases faces.len(),
{
    if faces.len() > 0 {
        let front = faces.drop_last();
        law_outline_is_what_is_not_inside(entities, front, inner, oe);
        let oes = face_info(entities, faces.last())->Some_0.oes;
        lemma_outer(oes, inner, oe);
        let a = boundary(entities, front, inner);
        let b = outer(oes, inner);
        let all = boundary(entities, faces, inner);
        assert(all == a + b);
        assert(faces[faces.len() - 1] == faces.last());
        assert forall|i: int| 0 <= i < front.len() implies #[trigger] front[i] == faces[i] by {}
        if a.contains(oe) {
            let k = choose|k: int| 0 <= k < a.len() && a[k] == oe;
            assert(all[k] == oe);
            let i = choose|i: int|
                0 <= i < front.len() && face_info(
                    entities,
                    #[trigger] front[i],
                )->Some_0.oes.contains(oe);
            assert(faces[i] == front[i]);
        }
        if b.contains(oe) {
            let k = choose|k: int| 0 <= k < b.len() && b[k] == oe;
            assert(all[a.len() + k] == oe);
        }
        if all.contains(oe) {
            let k = choose|k: int| 0 <= k < all.len() && all[k] == oe;
            if k < a.len() {
                assert(a[k] == oe);
            } else {
                assert(b[k - a.len()] == oe);
            }
        }
        if exists|i: int|
            0 <= i < faces.len() && face_info(
                entities,
                #[trigger] faces[i],
            )->Some_0.oes.contains(oe) {
            let i = choose|i: int|
                0 <= i < faces.len() && face_info(
                    entities,
                    #[trigger] faces[i],
                )->Some_0.oes.contains(oe);
            if i < front.len() {
                assert(front[i] == faces[i]);
            }
        }
    }
}

/// Sites stand one pitch apart, from the start of their window on.
pub proof fn law_sites_are_a_pitch_apart(start: i64, pitch: i64, k: int)
    ensures
        site_place(start, pitch, 0) == start,
        site_place(start, pitch, k + 1) - site_place(start, pitch, k) == pitch,
{
    assert((k + 1) * pitch == k * pitch + pitch) by (nonlinear_arith);
    assert(0 * pitch == 0) by (nonlinear_arith);
}

/// Whether a text makes one solid of another by words around some numbers, which are listed in
/// their order.
pub open spec fn lists_numbers(
    text: Seq<char>,
    made: int,
    of: int,
    before: Seq<char>,
    x: Seq<char>,
    y: Seq<char>,
    z: Seq<char>,
    behind: Seq<char>,
) -> bool {
    text == solid(made) + " = "@ + solid(of) + before + x + ", "@ + y + ", "@ + z + behind
}

/// A movement is written with its three numbers in their order, between words that do not depend
/// on them, and names the solid that it makes and the one that it moves.
pub proof fn law_movement_lists_its_numbers(
    transform: RigidTransform,
    child: NodeId,
    id: int,
    a: Vec<String>,
    b: Vec<String>,
)
    requires
        node_text(CadNode::Transform { transform, child }, id, Some(a)) is Ok,
    ensures
        exists|before: Seq<char>, behind: Seq<char>|
            #[trigger] lists_numbers(
                node_text(CadNode::Transform { transform, child }, id, Some(a))->Ok_0,
                id,
                child.0 as int,
                before,
                a@[0]@,
                a@[1]@,
                a@[2]@,
                behind,
            ) && lists_numbers(
                node_text(CadNode::Transform { transform, child }, id, Some(b))->Ok_0,
                id,
                child.0 as int,
                before,
                b@[0]@,
                b@[1]@,
                b@[2]@,
                behind,
            ),
{
    let before = " |> translate(xyz = ["@;
    let behind = "], global = true)\n\n"@;
    assert(lists_numbers(
        node_text(CadNode::Transform { transform, child }, id, Some(a))->Ok_0,
        id,
        child.0 as int,
        before,
        a@[0]@,
        a@[1]@,
        a@[2]@,
        behind,
    ));
}

/// A row is written with how many instances it has, their distance, and its axis with the three
/// numbers in their order, and names the solid that it makes and the one that it repeats.
pub proof fn law_row_lists_its_numbers(
    count: usize,
    step: [Scalar; 3],
    child: NodeId,
    id: int,
    list: Vec<String>,
)
    requires
        count > 0,
    ensures
        ({
            let node = CadNode::Pattern { pattern: PatternSpec::Linear { count, step }, child };
            &&& node_text(node, id, Some(list)) is Ok
            &&& exists|before: Seq<char>, between: Seq<char>, behind: Seq<char>|
                #[trigger] lists_numbers(
                    node_text(node, id, Some(list))->Ok_0,
                    id,
                    child.0 as int,
                    before + decimal(count as nat) + ", distance = "@ + list@[0]@ + between,
                    list@[1]@,
                    list@[2]@,
                    list@[3]@,
                    behind,
                )
        }),
{
    let node = CadNode::Pattern { pattern: PatternSpec::Linear { count, step }, child };
    let before = " |> patternLinear3d(instances = "@;
    let between = ", axis = ["@;
    let behind = "])\n\n"@;
    assert(node_text(node, id, Some(list))->Ok_0 =~= solid(id) + " = "@ + solid(child.0 as int) + (
    before + decimal(count as nat) + ", distance = "@ + list@[0]@ + between) + list@[1]@ + ", "@
        + list@[2]@ + ", "@ + list@[3]@ + behind);
    assert(lists_numbers(
        node_text(node, id, Some(list))->Ok_0,
        id,
        child.0 as int,
        before + decimal(count as nat) + ", distance = "@ + list@[0]@ + between,
        list@[1]@,
        list@[2]@,
        list@[3]@,
        behind,
    ));
}

} // verus!
