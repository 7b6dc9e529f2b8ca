//! Which edges and vertices become one where solids are joined.

use std::collections::HashMap;
use vstd::prelude::*;

use crate::ast::{entities_view, EntityInstance, EntityView};
use crate::face_info::{edge_of, edge_vertices, edge_vertices_of, oriented_edge_element};
use crate::graph::{
    find_record, indexes, lemma_position, nth_entity_ref_list, nth_ref_list, record_at, refs_of,
};
use crate::partition_plan::{direct_refs_of_type, of_type, Interface};
use crate::union_find::{are_joined, UnionFind};

verus! {

broadcast use vstd::std_specs::hash::group_hash_axioms;

/// The oriented edges of a bound, which must have one loop.
pub open spec fn bound_uses(entities: Seq<EntityView>, bound: u64) -> Option<Seq<u64>> {
    let loops = of_type(entities, refs_of(entities, bound), "EDGE_LOOP"@);
    if loops.len() == 1 {
        match record_at(entities, loops[0]) {
            Some(record) => nth_ref_list(record, 1),
            None => None,
        }
    } else {
        None
    }
}

pub open spec fn bounds_uses(entities: Seq<EntityView>, bounds: Seq<u64>) -> Option<Seq<u64>>
    decreases bounds.len(),
{
    if bounds.len() == 0 {
        Some(Seq::empty())
    } else {
        match (bounds_uses(entities, bounds.drop_last()), bound_uses(entities, bounds.last())) {
            (Some(a), Some(b)) => Some(a + b),
            _ => None,
        }
    }
}

/// The oriented edges of a face.
pub open spec fn face_uses(entities: Seq<EntityView>, face: u64) -> Option<Seq<u64>> {
    match record_at(entities, face) {
        Some(record) => match nth_ref_list(record, 1) {
            Some(bounds) => bounds_uses(entities, bounds),
            None => None,
        },
        None => None,
    }
}

/// The oriented edges of faces.
pub open spec fn faces_uses(entities: Seq<EntityView>, faces: Seq<u64>) -> Option<Seq<u64>>
    decreases faces.len(),
{
    if faces.len() == 0 {
        Some(Seq::empty())
    } else {
        match (faces_uses(entities, faces.drop_last()), face_uses(entities, faces.last())) {
            (Some(a), Some(b)) => Some(a + b),
            _ => None,
        }
    }
}

/// The edge of a class in a list.
pub open spec fn edge_with(keyed: Seq<(u64, u64)>, class: u64) -> Option<u64>
    decreases keyed.len(),
{
    if keyed.len() == 0 {
        None
    } else if keyed.last().0 == class {
        Some(keyed.last().1)
    } else {
        edge_with(keyed.drop_last(), class)
    }
}

/// The edges of oriented edges with their classes. Each must have one, and no two the same.
pub open spec fn keyed_edges(
    entities: Seq<EntityView>,
    class: Map<u64, u64>,
    oes: Seq<u64>,
) -> Option<Seq<(u64, u64)>>
    decreases oes.len(),
{
    if oes.len() == 0 {
        Some(Seq::empty())
    } else {
        match (keyed_edges(entities, class, oes.drop_last()), edge_of(entities, oes.last())) {
            (Some(rest), Some(edge)) => if class.contains_key(edge) && edge_with(
                rest,
                class[edge],
            ) is None {
                Some(rest.push((class[edge], edge)))
            } else {
                None
            },
            _ => None,
        }
    }
}

/// The edges of a face with their classes.
pub open spec fn keyed_face_edges(
    entities: Seq<EntityView>,
    class: Map<u64, u64>,
    face: u64,
) -> Option<Seq<(u64, u64)>> {
    match face_uses(entities, face) {
        Some(oes) => keyed_edges(entities, class, oes),
        None => None,
    }
}

/// Edges of one list with those of the same classes in another.
pub open spec fn matched(a: Seq<(u64, u64)>, b: Seq<(u64, u64)>) -> Option<Seq<(u64, u64)>>
    decreases a.len(),
{
    if a.len() == 0 {
        Some(Seq::empty())
    } else {
        match (matched(a.drop_last(), b), edge_with(b, a.last().0)) {
            (Some(rest), Some(edge)) => Some(rest.push((a.last().1, edge))),
            _ => None,
        }
    }
}

/// The edges of two faces that become one.
pub open spec fn face_joins(
    entities: Seq<EntityView>,
    class: Map<u64, u64>,
    pair: Interface,
) -> Option<Seq<(u64, u64)>> {
    match (
        keyed_face_edges(entities, class, pair.a_face),
        keyed_face_edges(entities, class, pair.b_face),
    ) {
        (Some(a), Some(b)) if a.len() == b.len() => matched(a, b),
        _ => None,
    }
}

/// The edges that become one at pairs of faces.
pub open spec fn edge_joins(
    entities: Seq<EntityView>,
    class: Map<u64, u64>,
    pairs: Seq<Interface>,
) -> Option<Seq<(u64, u64)>>
    decreases pairs.len(),
{
    if pairs.len() == 0 {
        Some(Seq::empty())
    } else {
        match (
            edge_joins(entities, class, pairs.drop_last()),
            face_joins(entities, class, pairs.last()),
        ) {
            (Some(a), Some(b)) => Some(a + b),
            _ => None,
        }
    }
}

/// The vertices of two edges that become one: those at the same points. Where both ends of an
/// edge lie at one point, the second counts.
pub open spec fn end_joins(
    entities: Seq<EntityView>,
    point: Map<u64, u64>,
    a_edge: u64,
    b_edge: u64,
) -> Option<Seq<(u64, u64)>> {
    match (edge_vertices_of(entities, a_edge), edge_vertices_of(entities, b_edge)) {
        (Some((a0, a1)), Some((b0, b1))) => if point.contains_key(a0) && point.contains_key(a1)
            && point.contains_key(b0) && point.contains_key(b1) {
            if point[a0] == point[a1] {
                if point[b0] == point[a0] && point[b1] == point[a0] {
                    Some(seq![(a1, b1)])
                } else {
                    None
                }
            } else if point[b0] == point[a0] && point[b1] == point[a1] {
                Some(seq![(a0, b0), (a1, b1)])
            } else if point[b0] == point[a1] && point[b1] == point[a0] {
                Some(seq![(a0, b1), (a1, b0)])
            } else {
                None
            }
        } else {
            None
        },
        _ => None,
    }
}

/// The vertices that become one with edges.
pub open spec fn vertex_joins(
    entities: Seq<EntityView>,
    point: Map<u64, u64>,
    joins: Seq<(u64, u64)>,
) -> Option<Seq<(u64, u64)>>
    decreases joins.len(),
{
    if joins.len() == 0 {
        Some(Seq::empty())
    } else {
        match (
            vertex_joins(entities, point, joins.drop_last()),
            end_joins(entities, point, joins.last().0, joins.last().1),
        ) {
            (Some(a), Some(b)) => Some(a + b),
            _ => None,
        }
    }
}

fn append_pairs(out: &mut Vec<(u64, u64)>, more: &Vec<(u64, u64)>)
    ensures
        final(out)@ == old(out)@ + more@,
{
    let mut i: usize = 0;
    assert(old(out)@ + more@.take(0) =~= old(out)@);
    while i < more.len()
        invariant
            i <= more.len(),
            out@ == old(out)@ + more@.take(i as int),
        decreases more.len() - i,
    {
        out.push(more[i]);
        i = i + 1;
        assert(old(out)@ + more@.take(i as int) =~= (old(out)@ + more@.take(i - 1)).push(
            more@[i - 1],
        ));
    }
    assert(more@.take(more@.len() as int) =~= more@);
}

proof fn lemma_bounds_stop(entities: Seq<EntityView>, bounds: Seq<u64>, n: int)
    requires
        0 <= n <= bounds.len(),
        bounds_uses(entities, bounds.take(n)) is None,
    ensures
        bounds_uses(entities, bounds) is None,
    decreases bounds.len(),
{
    if n < bounds.len() {
        assert(bounds.drop_last().take(n) =~= bounds.take(n));
        lemma_bounds_stop(entities, bounds.drop_last(), n);
    } else {
        assert(bounds.take(n) =~= bounds);
    }
}

/// The oriented edges of a face.
pub fn face_oriented_edges(
    face: u64,
    entities: &Vec<EntityInstance>,
    index: &HashMap<u64, usize>,
) -> (out: Option<Vec<u64>>)
    requires
        indexes(index@, entities_view(entities@)),
    ensures
        out is Some == face_uses(entities_view(entities@), face) is Some,
        out matches Some(oes) ==> face_uses(entities_view(entities@), face) == Some(oes@),
{
    let ghost views = entities_view(entities@);
    let bounds = match find_record(entities, index, face) {
        Some(record) => match nth_entity_ref_list(record, 1) {
            Some(bounds) => bounds,
            None => {
                return None;
            },
        },
        None => {
            return None;
        },
    };
    let mut out: Vec<u64> = Vec::new();
    let mut i: usize = 0;
    assert(bounds@.take(0) =~= Seq::empty());
    while i < bounds.len()
        invariant
            i <= bounds.len(),
            views == entities_view(entities@),
            indexes(index@, views),
            bounds_uses(views, bounds@.take(i as int)) == Some(out@),
            face_uses(views, face) == bounds_uses(views, bounds@),
        decreases bounds.len() - i,
    {
        assert(bounds@.take(i + 1).drop_last() =~= bounds@.take(i as int));
        match bound_oriented_edges(bounds[i], entities, index) {
            Some(oes) => {
                crate::face_coalesce::append_ids(&mut out, &oes);
            },
            None => {
                proof {
                    lemma_bounds_stop(views, bounds@, i + 1);
                }
                return None;
            },
        }
        i = i + 1;
    }
    assert(bounds@.take(bounds@.len() as int) =~= bounds@);
    Some(out)
}

fn bound_oriented_edges(
    bound: u64,
    entities: &Vec<EntityInstance>,
    index: &HashMap<u64, usize>,
) -> (out: Option<Vec<u64>>)
    requires
        indexes(index@, entities_view(entities@)),
    ensures
        out is Some == bound_uses(entities_view(entities@), bound) is Some,
        out matches Some(oes) ==> bound_uses(entities_view(entities@), bound) == Some(oes@),
{
    let ghost views = entities_view(entities@);
    proof {
        lemma_position(views, bound);
    }
    match index.get(&bound) {
        None => {
            assert(of_type(views, Seq::empty(), "EDGE_LOOP"@) =~= Seq::empty());
            None
        },
        Some(at) => {
            assert(views[*at as int] == entities@[*at as int]@);
            let loops = direct_refs_of_type(&entities[*at], entities, index, "EDGE_LOOP");
            if loops.len() != 1 {
                return None;
            }
            match find_record(entities, index, loops[0]) {
                Some(record) => nth_entity_ref_list(record, 1),
                None => None,
            }
        },
    }
}

proof fn lemma_faces_stop(entities: Seq<EntityView>, faces: Seq<u64>, n: int)
    requires
        0 <= n <= faces.len(),
        faces_uses(entities, faces.take(n)) is None,
    ensures
        faces_uses(entities, faces) is None,
    decreases faces.len(),
{
    if n < faces.len() {
        assert(faces.drop_last().take(n) =~= faces.take(n));
        lemma_faces_stop(entities, faces.drop_last(), n);
    } else {
        assert(faces.take(n) =~= faces);
    }
}

/// The oriented edges of faces.
pub fn faces_oriented_edges(
    faces: &Vec<u64>,
    entities: &Vec<EntityInstance>,
    index: &HashMap<u64, usize>,
) -> (out: Option<Vec<u64>>)
    requires
        indexes(index@, entities_view(entities@)),
    ensures
        out is Some == faces_uses(entities_view(entities@), faces@) is Some,
        out matches Some(oes) ==> faces_uses(entities_view(entities@), faces@) == Some(oes@),
{
    let ghost views = entities_view(entities@);
    let mut out: Vec<u64> = Vec::new();
    let mut i: usize = 0;
    assert(faces@.take(0) =~= Seq::empty());
    while i < faces.len()
        invariant
            i <= faces.len(),
            views == entities_view(entities@),
            indexes(index@, views),
            faces_uses(views, faces@.take(i as int)) == Some(out@),
        decreases faces.len() - i,
    {
        assert(faces@.take(i + 1).drop_last() =~= faces@.take(i as int));
        match face_oriented_edges(faces[i], entities, index) {
            Some(oes) => {
                crate::face_coalesce::append_ids(&mut out, &oes);
            },
            None => {
                proof {
                    lemma_faces_stop(views, faces@, i + 1);
                }
                return None;
            },
        }
        i = i + 1;
    }
    assert(faces@.take(faces@.len() as int) =~= faces@);
    Some(out)
}

fn find_edge_with(keyed: &Vec<(u64, u64)>, class: u64) -> (out: Option<u64>)
    ensures
        out == edge_with(keyed@, class),
{
    let mut i: usize = keyed.len();
    assert(keyed@.take(keyed@.len() as int) =~= keyed@);
    while i > 0
        invariant
            i <= keyed.len(),
            edge_with(keyed@, class) == edge_with(keyed@.take(i as int), class),
        decreases i,
    {
        i = i - 1;
        assert(keyed@.take(i + 1).drop_last() =~= keyed@.take(i as int));
        if keyed[i].0 == class {
            return Some(keyed[i].1);
        }
    }
    None
}

proof fn lemma_keyed_stop(
    entities: Seq<EntityView>,
    class: Map<u64, u64>,
    oes: Seq<u64>,
    n: int,
)
    requires
        0 <= n <= oes.len(),
        keyed_edges(entities, class, oes.take(n)) is None,
    ensures
        keyed_edges(entities, class, oes) is None,
    decreases oes.len(),
{
    if n < oes.len() {
        assert(oes.drop_last().take(n) =~= oes.take(n));
        lemma_keyed_stop(entities, class, oes.drop_last(), n);
    } else {
        assert(oes.take(n) =~= oes);
    }
}

/// The edges of a face with their classes.
fn find_keyed_edges(
    face: u64,
    class: &HashMap<u64, u64>,
    entities: &Vec<EntityInstance>,
    index: &HashMap<u64, usize>,
) -> (out: Option<Vec<(u64, u64)>>)
    requires
        indexes(index@, entities_view(entities@)),
    ensures
        out is Some == keyed_face_edges(entities_view(entities@), class@, face) is Some,
        out matches Some(keyed) ==> keyed_face_edges(entities_view(entities@), class@, face)
            == Some(keyed@),
{
    let ghost views = entities_view(entities@);
    let oes = match face_oriented_edges(face, entities, index) {
        Some(oes) => oes,
        None => {
            return None;
        },
    };
    let mut out: Vec<(u64, u64)> = Vec::new();
    let mut i: usize = 0;
    assert(oes@.take(0) =~= Seq::empty());
    while i < oes.len()
        invariant
            i <= oes.len(),
            views == entities_view(entities@),
            indexes(index@, views),
            keyed_edges(views, class@, oes@.take(i as int)) == Some(out@),
            keyed_face_edges(views, class@, face) == keyed_edges(views, class@, oes@),
        decreases oes.len() - i,
    {
        assert(oes@.take(i + 1).drop_last() =~= oes@.take(i as int));
        let mut done = false;
        if let Some(edge) = oriented_edge_element(entities, index, oes[i]) {
            if let Some(key) = class.get(&edge) {
                if find_edge_with(&out, *key).is_none() {
                    out.push((*key, edge));
                    done = true;
                }
            }
        }
        if !done {
            proof {
                lemma_keyed_stop(views, class@, oes@, i + 1);
            }
            return None;
        }
        i = i + 1;
    }
    assert(oes@.take(oes@.len() as int) =~= oes@);
    Some(out)
}

proof fn lemma_matched_stop(a: Seq<(u64, u64)>, b: Seq<(u64, u64)>, n: int)
    requires
        0 <= n <= a.len(),
        matched(a.take(n), b) is None,
    ensures
        matched(a, b) is None,
    decreases a.len(),
{
    if n < a.len() {
        assert(a.drop_last().take(n) =~= a.take(n));
        lemma_matched_stop(a.drop_last(), b, n);
    } else {
        assert(a.take(n) =~= a);
    }
}

/// The edges of two faces that become one.
fn find_face_joins(
    pair: &Interface,
    class: &HashMap<u64, u64>,
    entities: &Vec<EntityInstance>,
    index: &HashMap<u64, usize>,
) -> (out: Option<Vec<(u64, u64)>>)
    requires
        indexes(index@, entities_view(entities@)),
    ensures
        out is Some == face_joins(entities_view(entities@), class@, *pair) is Some,
        out matches Some(joins) ==> face_joins(entities_view(entities@), class@, *pair) == Some(
            joins@,
        ),
{
    let a = match find_keyed_edges(pair.a_face, class, entities, index) {
        Some(a) => a,
        None => {
            return None;
        },
    };
    let b = match find_keyed_edges(pair.b_face, class, entities, index) {
        Some(b) => b,
        None => {
            return None;
        },
    };
    if a.len() != b.len() {
        return None;
    }
    let mut out: Vec<(u64, u64)> = Vec::new();
    let mut i: usize = 0;
    assert(a@.take(0) =~= Seq::empty());
    while i < a.len()
        invariant
            i <= a.len(),
            matched(a@.take(i as int), b@) == Some(out@),
            face_joins(entities_view(entities@), class@, *pair) == matched(a@, b@),
        decreases a.len() - i,
    {
        assert(a@.take(i + 1).drop_last() =~= a@.take(i as int));
        match find_edge_with(&b, a[i].0) {
            Some(edge) => out.push((a[i].1, edge)),
            None => {
                proof {
                    lemma_matched_stop(a@, b@, i + 1);
                }
                return None;
            },
        }
        i = i + 1;
    }
    assert(a@.take(a@.len() as int) =~= a@);
    Some(out)
}

proof fn lemma_edge_joins_stop(
    entities: Seq<EntityView>,
    class: Map<u64, u64>,
    pairs: Seq<Interface>,
    n: int,
)
    requires
        0 <= n <= pairs.len(),
        edge_joins(entities, class, pairs.take(n)) is None,
    ensures
        edge_joins(entities, class, pairs) is None,
    decreases pairs.len(),
{
    if n < pairs.len() {
        assert(pairs.drop_last().take(n) =~= pairs.take(n));
        lemma_edge_joins_stop(entities, class, pairs.drop_last(), n);
    } else {
        assert(pairs.take(n) =~= pairs);
    }
}

/// The edges that become one at pairs of faces.
pub fn find_edge_joins(
    pairs: &Vec<Interface>,
    class: &HashMap<u64, u64>,
    entities: &Vec<EntityInstance>,
    index: &HashMap<u64, usize>,
) -> (out: Option<Vec<(u64, u64)>>)
    requires
        indexes(index@, entities_view(entities@)),
    ensures
        out is Some == edge_joins(entities_view(entities@), class@, pairs@) is Some,
        out matches Some(joins) ==> edge_joins(entities_view(entities@), class@, pairs@) == Some(
            joins@,
        ),
{
    let ghost views = entities_view(entities@);
    let mut out: Vec<(u64, u64)> = Vec::new();
    let mut i: usize = 0;
    assert(pairs@.take(0) =~= Seq::empty());
    while i < pairs.len()
        invariant
            i <= pairs.len(),
            views == entities_view(entities@),
            indexes(index@, views),
            edge_joins(views, class@, pairs@.take(i as int)) == Some(out@),
        decreases pairs.len() - i,
    {
        assert(pairs@.take(i + 1).drop_last() =~= pairs@.take(i as int));
        match find_face_joins(&pairs[i], class, entities, index) {
            Some(joins) => append_pairs(&mut out, &joins),
            None => {
                proof {
                    lemma_edge_joins_stop(views, class@, pairs@, i + 1);
                }
                return None;
            },
        }
        i = i + 1;
    }
    assert(pairs@.take(pairs@.len() as int) =~= pairs@);
    Some(out)
}

/// The vertices of two edges that become one.
fn find_end_joins(
    a_edge: u64,
    b_edge: u64,
    point: &HashMap<u64, u64>,
    entities: &Vec<EntityInstance>,
    index: &HashMap<u64, usize>,
) -> (out: Option<Vec<(u64, u64)>>)
    requires
        indexes(index@, entities_view(entities@)),
    ensures
        out is Some == end_joins(entities_view(entities@), point@, a_edge, b_edge) is Some,
        out matches Some(joins) ==> end_joins(entities_view(entities@), point@, a_edge, b_edge)
            == Some(joins@),
{
    let (a0, a1) = match edge_vertices(a_edge, entities, index) {
        Some(ends) => ends,
        None => {
            return None;
        },
    };
    let (b0, b1) = match edge_vertices(b_edge, entities, index) {
        Some(ends) => ends,
        None => {
            return None;
        },
    };
    match (point.get(&a0), point.get(&a1), point.get(&b0), point.get(&b1)) {
        (Some(p0), Some(p1), Some(q0), Some(q1)) => {
            let mut out: Vec<(u64, u64)> = Vec::new();
            if *p0 == *p1 {
                if *q0 == *p0 && *q1 == *p0 {
                    out.push((a1, b1));
                    assert(out@ =~= seq![(a1, b1)]);
                    Some(out)
                } else {
                    None
                }
            } else if *q0 == *p0 && *q1 == *p1 {
                out.push((a0, b0));
                out.push((a1, b1));
                assert(out@ =~= seq![(a0, b0), (a1, b1)]);
                Some(out)
            } else if *q0 == *p1 && *q1 == *p0 {
                out.push((a0, b1));
                out.push((a1, b0));
                assert(out@ =~= seq![(a0, b1), (a1, b0)]);
                Some(out)
            } else {
                None
            }
        },
        _ => None,
    }
}

proof fn lemma_vertex_joins_stop(
    entities: Seq<EntityView>,
    point: Map<u64, u64>,
    joins: Seq<(u64, u64)>,
    n: int,
)
    requires
        0 <= n <= joins.len(),
        vertex_joins(entities, point, joins.take(n)) is None,
    ensures
        vertex_joins(entities, point, joins) is None,
    decreases joins.len(),
{
    if n < joins.len() {
        assert(joins.drop_last().take(n) =~= joins.take(n));
        lemma_vertex_joins_stop(entities, point, joins.drop_last(), n);
    } else {
        assert(joins.take(n) =~= joins);
    }
}

/// The vertices that become one with edges.
pub fn find_vertex_joins(
    joins: &Vec<(u64, u64)>,
    point: &HashMap<u64, u64>,
    entities: &Vec<EntityInstance>,
    index: &HashMap<u64, usize>,
) -> (out: Option<Vec<(u64, u64)>>)
    requires
        indexes(index@, entities_view(entities@)),
    ensures
        out is Some == vertex_joins(entities_view(entities@), point@, joins@) is Some,
        out matches Some(ends) ==> vertex_joins(entities_view(entities@), point@, joins@) == Some(
            ends@,
        ),
{
    let ghost views = entities_view(entities@);
    let mut out: Vec<(u64, u64)> = Vec::new();
    let mut i: usize = 0;
    assert(joins@.take(0) =~= Seq::empty());
    while i < joins.len()
        invariant
            i <= joins.len(),
            views == entities_view(entities@),
            indexes(index@, views),
            vertex_joins(views, point@, joins@.take(i as int)) == Some(out@),
        decreases joins.len() - i,
    {
        assert(joins@.take(i + 1).drop_last() =~= joins@.take(i as int));
        match find_end_joins(joins[i].0, joins[i].1, point, entities, index) {
            Some(ends) => append_pairs(&mut out, &ends),
            None => {
                proof {
                    lemma_vertex_joins_stop(views, point@, joins@, i + 1);
                }
                return None;
            },
        }
        i = i + 1;
    }
    assert(joins@.take(joins@.len() as int) =~= joins@);
    Some(out)
}

/// Sets in which the numbers of each pair are together.
pub fn join_all(joins: &Vec<(u64, u64)>) -> (out: UnionFind)
    ensures
        are_joined(out, joins@),
{
    let mut out = UnionFind::new();
    let mut i: usize = 0;
    assert(joins@.take(0) =~= Seq::empty());
    while i < joins.len()
        invariant
            i <= joins.len(),
            are_joined(out, joins@.take(i as int)),
        decreases joins.len() - i,
    {
        let (a, b) = joins[i];
        out.union(a, b);
        i = i + 1;
        assert(joins@.take(i as int) =~= joins@.take(i - 1).push((a, b)));
    }
    assert(joins@.take(joins@.len() as int) =~= joins@);
    out
}

} // verus!
