//! The loops that edges form around a face.

use std::collections::HashMap;
use vstd::prelude::*;

use crate::ast::{entities_view, EntityInstance, EntityView};
use crate::body_graph::{all_ends, edge_vertices, ends, find_all_ends, BodyError};
use crate::graph::indexes;

verus! {

/// A step along an edge, from one vertex to another.
#[derive(Debug, Clone, Copy, PartialEq, Eq, Structural)]
pub struct Traversal {
    pub edge: u64,
    pub start: u64,
    pub end: u64,
}

/// How often an id occurs.
pub open spec fn count_of(ids: Seq<u64>, id: u64) -> nat
    decreases ids.len(),
{
    if ids.len() == 0 {
        0
    } else {
        count_of(ids.drop_last(), id) + if ids.last() == id {
            1nat
        } else {
            0
        }
    }
}

/// Every vertex ends two edges.
pub open spec fn all_twice(vertices: Seq<u64>) -> bool {
    forall|i: int| 0 <= i < vertices.len() ==> count_of(vertices, #[trigger] vertices[i]) == 2
}

/// Whether an edge ends at a vertex.
pub open spec fn meets_at(entities: Seq<EntityView>, edge: u64, vertex: u64) -> bool {
    ends(entities, edge) matches Some((a, b)) && (a == vertex || b == vertex)
}

/// The edges that end at a vertex.
pub open spec fn edges_at(entities: Seq<EntityView>, edges: Seq<u64>, vertex: u64) -> Seq<u64>
    decreases edges.len(),
{
    if edges.len() == 0 {
        Seq::empty()
    } else {
        let rest = edges_at(entities, edges.drop_last(), vertex);
        if meets_at(entities, edges.last(), vertex) {
            rest.push(edges.last())
        } else {
            rest
        }
    }
}

/// A list without the first place that holds an id.
pub open spec fn dropped(ids: Seq<u64>, id: u64) -> Seq<u64>
    decreases ids.len(),
{
    if ids.len() == 0 {
        ids
    } else if ids[0] == id {
        ids.drop_first()
    } else {
        seq![ids[0]] + dropped(ids.drop_first(), id)
    }
}

pub proof fn lemma_dropped(ids: Seq<u64>, id: u64)
    ensures
        ids.contains(id) ==> dropped(ids, id).len() == ids.len() - 1,
        !ids.contains(id) ==> dropped(ids, id) == ids,
    decreases ids.len(),
{
    if ids.len() > 0 && ids[0] != id {
        lemma_dropped(ids.drop_first(), id);
        if ids.contains(id) {
            let k = choose|k: int| 0 <= k < ids.len() && ids[k] == id;
            assert(ids.drop_first()[k - 1] == id);
        } else {
            assert forall|k: int| 0 <= k < ids.len() - 1 implies ids.drop_first()[k] != id by {
                assert(ids.drop_first()[k] == ids[k + 1]);
            }
            assert(seq![ids[0]] + ids.drop_first() =~= ids);
        }
    }
}

/// The way from a vertex along an edge and on along edges that are left, until it is back at
/// its start, and the edges that are left after it. Wherever it goes on, one edge must be left
/// to take.
pub open spec fn walk(
    entities: Seq<EntityView>,
    left: Seq<u64>,
    start: u64,
    at: u64,
    edge: u64,
) -> Option<(Seq<Traversal>, Seq<u64>)>
    decreases left.len(),
{
    proof {
        lemma_dropped(left, edge);
    }
    if !left.contains(edge) || !meets_at(entities, edge, at) {
        None
    } else {
        let rest = dropped(left, edge);
        let (a, b) = ends(entities, edge)->Some_0;
        let end = if at == a {
            b
        } else {
            a
        };
        let step = Traversal { edge, start: at, end };
        let next = edges_at(entities, rest, end);
        if end == start {
            Some((seq![step], rest))
        } else if next.len() != 1 {
            None
        } else {
            match walk(entities, rest, start, end, next[0]) {
                Some((steps, after)) => Some((seq![step] + steps, after)),
                None => None,
            }
        }
    }
}

pub proof fn lemma_walk_shrinks(
    entities: Seq<EntityView>,
    left: Seq<u64>,
    start: u64,
    at: u64,
    edge: u64,
)
    ensures
        walk(entities, left, start, at, edge) matches Some((steps, after)) ==> after.len()
            < left.len(),
    decreases left.len(),
{
    lemma_dropped(left, edge);
    if left.contains(edge) && meets_at(entities, edge, at) {
        let rest = dropped(left, edge);
        let (a, b) = ends(entities, edge)->Some_0;
        let end = if at == a {
            b
        } else {
            a
        };
        let next = edges_at(entities, rest, end);
        if end != start && next.len() == 1 {
            lemma_walk_shrinks(entities, rest, start, end, next[0]);
        }
    }
}

/// The loops that edges form, each from the first edge that is left.
pub open spec fn loops_of(entities: Seq<EntityView>, left: Seq<u64>) -> Option<
    Seq<Seq<Traversal>>,
>
    decreases left.len(),
{
    if left.len() == 0 {
        Some(Seq::empty())
    } else {
        match ends(entities, left[0]) {
            None => None,
            Some((a, _)) => {
                proof {
                    lemma_walk_shrinks(entities, left, a, a, left[0]);
                }
                match walk(entities, left, a, a, left[0]) {
                    None => None,
                    Some((steps, after)) => match loops_of(entities, after) {
                        None => None,
                        Some(more) => Some(seq![steps] + more),
                    },
                }
            },
        }
    }
}

/// The loops that edges form where every vertex ends two of them.
pub open spec fn cycles(entities: Seq<EntityView>, edges: Seq<u64>) -> Result<
    Seq<Seq<Traversal>>,
    BodyError,
> {
    match all_ends(entities, edges) {
        None => Err(BodyError::BadTopology),
        Some(vertices) => if !all_twice(vertices) {
            Err(BodyError::OpenBoundary)
        } else {
            match loops_of(entities, edges) {
                Some(loops) => Ok(loops),
                None => Err(BodyError::OpenBoundary),
            }
        },
    }
}

/// Whether steps follow one another and each goes along its edge.
pub open spec fn is_chain(entities: Seq<EntityView>, steps: Seq<Traversal>) -> bool {
    &&& forall|i: int|
        0 <= i < steps.len() ==> ends(entities, (#[trigger] steps[i]).edge) == Some(
            (steps[i].start, steps[i].end),
        ) || ends(entities, steps[i].edge) == Some((steps[i].end, steps[i].start))
    &&& forall|i: int| 0 < i < steps.len() ==> (#[trigger] steps[i]).start == steps[i - 1].end
}

proof fn lemma_walk_is_chain(
    entities: Seq<EntityView>,
    left: Seq<u64>,
    start: u64,
    at: u64,
    edge: u64,
)
    ensures
        walk(entities, left, start, at, edge) matches Some((steps, after)) ==> steps.len() > 0
            && is_chain(entities, steps) && steps[0].start == at && steps.last().end == start,
    decreases left.len(),
{
    lemma_dropped(left, edge);
    if left.contains(edge) && meets_at(entities, edge, at) {
        let rest = dropped(left, edge);
        let (a, b) = ends(entities, edge)->Some_0;
        let end = if at == a {
            b
        } else {
            a
        };
        let next = edges_at(entities, rest, end);
        if end != start && next.len() == 1 {
            lemma_walk_is_chain(entities, rest, start, end, next[0]);
            if let Some((steps, after)) = walk(entities, rest, start, end, next[0]) {
                let step = Traversal { edge, start: at, end };
                let all = seq![step] + steps;
                assert forall|i: int| 0 < i < all.len() implies (#[trigger] all[i]).start
                    == all[i - 1].end by {
                    assert(all[i] == steps[i - 1]);
                    if i > 1 {
                        assert(all[i - 1] == steps[i - 2]);
                        assert(steps[i - 1].start == steps[i - 1 - 1].end);
                    }
                }
                assert forall|i: int| 0 <= i < all.len() implies ends(
                    entities,
                    (#[trigger] all[i]).edge,
                ) == Some((all[i].start, all[i].end)) || ends(entities, all[i].edge) == Some(
                    (all[i].end, all[i].start),
                ) by {
                    if i > 0 {
                        assert(all[i] == steps[i - 1]);
                    }
                }
                assert(all.last() == steps.last());
            }
        }
    }
}

/// Every loop is closed: its steps follow one another, each goes along its edge, and the last
/// ends where the first starts.
pub proof fn law_loops_are_closed(entities: Seq<EntityView>, edges: Seq<u64>, n: int)
    requires
        loops_of(entities, edges) is Some,
        0 <= n < loops_of(entities, edges)->Some_0.len(),
    ensures
        ({
            let steps = loops_of(entities, edges)->Some_0[n];
            steps.len() > 0 && is_chain(entities, steps) && steps.last().end == steps[0].start
        }),
    decreases edges.len(),
{
    let (a, b) = ends(entities, edges[0])->Some_0;
    lemma_walk_shrinks(entities, edges, a, a, edges[0]);
    lemma_walk_is_chain(entities, edges, a, a, edges[0]);
    let (steps, after) = walk(entities, edges, a, a, edges[0])->Some_0;
    if n > 0 {
        law_loops_are_closed(entities, after, n - 1);
    }
}

fn find_count(ids: &Vec<u64>, id: u64) -> (n: usize)
    ensures
        n == count_of(ids@, id),
{
    let mut n: usize = 0;
    let mut i: usize = 0;
    assert(ids@.take(0) =~= Seq::<u64>::empty());
    while i < ids.len()
        invariant
            i <= ids.len(),
            n <= i,
            n == count_of(ids@.take(i as int), id),
        decreases ids.len() - i,
    {
        assert(ids@.take(i + 1).drop_last() =~= ids@.take(i as int));
        assert(ids@.take(i + 1).last() == ids@[i as int]);
        if ids[i] == id {
            n = n + 1;
        }
        i = i + 1;
    }
    assert(ids@.take(ids@.len() as int) =~= ids@);
    n
}

fn find_all_twice(vertices: &Vec<u64>) -> (out: bool)
    ensures
        out == all_twice(vertices@),
{
    let mut i: usize = 0;
    while i < vertices.len()
        invariant
            i <= vertices.len(),
            forall|k: int| 0 <= k < i ==> count_of(vertices@, #[trigger] vertices@[k]) == 2,
        decreases vertices.len() - i,
    {
        if find_count(vertices, vertices[i]) != 2 {
            return false;
        }
        i = i + 1;
    }
    true
}

fn find_edges_at(
    edges: &Vec<u64>,
    vertex: u64,
    entities: &Vec<EntityInstance>,
    index: &HashMap<u64, usize>,
) -> (out: Vec<u64>)
    requires
        indexes(index@, entities_view(entities@)),
    ensures
        out@ == edges_at(entities_view(entities@), edges@, vertex),
{
    let ghost views = entities_view(entities@);
    let mut out: Vec<u64> = Vec::new();
    let mut i: usize = 0;
    assert(edges@.take(0) =~= Seq::<u64>::empty());
    while i < edges.len()
        invariant
            i <= edges.len(),
            views == entities_view(entities@),
            indexes(index@, views),
            out@ == edges_at(views, edges@.take(i as int), vertex),
        decreases edges.len() - i,
    {
        assert(edges@.take(i + 1).drop_last() =~= edges@.take(i as int));
        assert(edges@.take(i + 1).last() == edges@[i as int]);
        if let Some((a, b)) = edge_vertices(edges[i], entities, index) {
            if a == vertex || b == vertex {
                out.push(edges[i]);
            }
        }
        i = i + 1;
    }
    assert(edges@.take(edges@.len() as int) =~= edges@);
    out
}

/// A list without the first place that holds an id.
fn drop_id(ids: &Vec<u64>, id: u64) -> (out: Option<Vec<u64>>)
    ensures
        out is Some == ids@.contains(id),
        out matches Some(rest) ==> rest@ == dropped(ids@, id),
{
    let mut rest: Vec<u64> = Vec::new();
    let mut i: usize = 0;
    assert(ids@.skip(0) =~= ids@);
    assert(rest@ + dropped(ids@.skip(0), id) =~= dropped(ids@, id));
    while i < ids.len()
        invariant
            i <= ids.len(),
            rest@ + dropped(ids@.skip(i as int), id) == dropped(ids@, id),
            forall|k: int| 0 <= k < i ==> ids@[k] != id,
        decreases ids.len() - i,
    {
        let ghost tail = ids@.skip(i as int);
        assert(tail[0] == ids@[i as int]);
        assert(tail.drop_first() =~= ids@.skip(i + 1));
        if ids[i] == id {
            let mut k: usize = i + 1;
            let ghost before = rest@;
            assert(before + ids@.subrange(i + 1, i + 1) =~= before);
            while k < ids.len()
                invariant
                    i + 1 <= k <= ids.len(),
                    rest@ == before + ids@.subrange(i + 1, k as int),
                decreases ids.len() - k,
            {
                rest.push(ids[k]);
                k = k + 1;
                assert(rest@ =~= before + ids@.subrange(i + 1, k as int));
            }
            assert(ids@.subrange(i + 1, ids@.len() as int) =~= tail.drop_first());
            assert(ids@[i as int] == id);
            return Some(rest);
        }
        let ghost before = rest@;
        rest.push(ids[i]);
        assert(rest@ + dropped(ids@.skip(i + 1), id) =~= before + (seq![ids@[i as int]] + dropped(
            ids@.skip(i + 1),
            id,
        )));
        i = i + 1;
    }
    None
}

/// One loop, from the first edge that is left, and the edges that are left after it.
fn trace_loop(
    left: &Vec<u64>,
    start: u64,
    first: u64,
    entities: &Vec<EntityInstance>,
    index: &HashMap<u64, usize>,
) -> (out: Option<(Vec<Traversal>, Vec<u64>)>)
    requires
        indexes(index@, entities_view(entities@)),
    ensures
        out is Some == walk(entities_view(entities@), left@, start, start, first) is Some,
        out matches Some((steps, after)) ==> walk(
            entities_view(entities@),
            left@,
            start,
            start,
            first,
        ) == Some((steps@, after@)),
{
    let ghost views = entities_view(entities@);
    let ghost whole = walk(views, left@, start, start, first);
    let mut steps: Vec<Traversal> = Vec::new();
    let mut rest: Vec<u64> = Vec::new();
    let mut n: usize = 0;
    while n < left.len()
        invariant
            n <= left.len(),
            rest@ == left@.take(n as int),
        decreases left.len() - n,
    {
        rest.push(left[n]);
        n = n + 1;
        assert(left@.take(n as int) =~= left@.take(n - 1).push(left@[n - 1]));
    }
    assert(rest@ =~= left@);
    let mut at: u64 = start;
    let mut edge: u64 = first;
    proof {
        if let Some((s, after)) = whole {
            assert(steps@ + s =~= s);
        }
    }
    loop
        invariant
            views == entities_view(entities@),
            indexes(index@, views),
            whole == walk(views, left@, start, start, first),
            match walk(views, rest@, start, at, edge) {
                Some((s, after)) => whole == Some((steps@ + s, after)),
                None => whole is None,
            },
        decreases rest.len(),
    {
        let ghost so_far = steps@;
        let ghost was = rest@;
        proof {
            lemma_dropped(rest@, edge);
        }
        let after = match drop_id(&rest, edge) {
            Some(after) => after,
            None => {
                return None;
            },
        };
        let (a, b) = match edge_vertices(edge, entities, index) {
            Some(pair) => pair,
            None => {
                return None;
            },
        };
        if at != a && at != b {
            return None;
        }
        let end: u64 = if at == a {
            b
        } else {
            a
        };
        let step = Traversal { edge, start: at, end };
        steps.push(step);
        assert(steps@ =~= so_far + seq![step]);
        if end == start {
            return Some((steps, after));
        }
        let next = find_edges_at(&after, end, entities, index);
        if next.len() != 1 {
            return None;
        }
        proof {
            if let Some((s, behind)) = walk(views, after@, start, end, next@[0]) {
                assert(so_far + (seq![step] + s) =~= steps@ + s);
            }
        }
        rest = after;
        at = end;
        edge = next[0];
    }
}

pub open spec fn loops_view(loops: Seq<Vec<Traversal>>) -> Seq<Seq<Traversal>> {
    Seq::new(loops.len(), |i: int| loops[i]@)
}

/// The loops that edges form. Every vertex must end two of them.
pub fn trace_cycles(
    edges: &Vec<u64>,
    entities: &Vec<EntityInstance>,
    index: &HashMap<u64, usize>,
) -> (out: Result<Vec<Vec<Traversal>>, BodyError>)
    requires
        indexes(index@, entities_view(entities@)),
    ensures
        match (out, cycles(entities_view(entities@), edges@)) {
            (Ok(loops), Ok(views)) => loops_view(loops@) == views,
            (Err(a), Err(b)) => a == b,
            _ => false,
        },
{
    let ghost views = entities_view(entities@);
    match find_all_ends(edges, entities, index) {
        None => {
            return Err(BodyError::BadTopology);
        },
        Some(vertices) => {
            if !find_all_twice(&vertices) {
                return Err(BodyError::OpenBoundary);
            }
        },
    }
    let ghost whole = loops_of(views, edges@);
    let mut loops: Vec<Vec<Traversal>> = Vec::new();
    let mut left: Vec<u64> = Vec::new();
    let mut n: usize = 0;
    while n < edges.len()
        invariant
            n <= edges.len(),
            left@ == edges@.take(n as int),
        decreases edges.len() - n,
    {
        left.push(edges[n]);
        n = n + 1;
        assert(edges@.take(n as int) =~= edges@.take(n - 1).push(edges@[n - 1]));
    }
    assert(left@ =~= edges@);
    proof {
        if let Some(more) = whole {
            assert(loops_view(loops@) + more =~= more);
        }
    }
    while left.len() > 0
        invariant
            views == entities_view(entities@),
            indexes(index@, views),
            whole == loops_of(views, edges@),
            match all_ends(views, edges@) {
                Some(vertices) => all_twice(vertices),
                None => false,
            },
            match loops_of(views, left@) {
                Some(more) => whole == Some(loops_view(loops@) + more),
                None => whole is None,
            },
        decreases left.len(),
    {
        let first: u64 = left[0];
        let (a, _) = match edge_vertices(first, entities, index) {
            Some(pair) => pair,
            None => {
                return Err(BodyError::OpenBoundary);
            },
        };
        proof {
            lemma_walk_shrinks(views, left@, a, a, first);
        }
        match trace_loop(&left, a, first, entities, index) {
            Some((steps, after)) => {
                let ghost so_far = loops_view(loops@);
                let ghost view = steps@;
                loops.push(steps);
                assert(loops_view(loops@) =~= so_far.push(view));
                proof {
                    if let Some(more) = loops_of(views, after@) {
                        assert(so_far + (seq![view] + more) =~= loops_view(loops@) + more);
                    }
                }
                left = after;
            },
            None => {
                return Err(BodyError::OpenBoundary);
            },
        }
    }
    assert(left@ =~= Seq::<u64>::empty());
    assert(loops_view(loops@) + Seq::<Seq<Traversal>>::empty() =~= loops_view(loops@));
    Ok(loops)
}

} // verus!
