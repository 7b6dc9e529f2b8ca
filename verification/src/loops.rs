//! Tracing the boundary of a group of faces.

use std::collections::HashMap;
use vstd::prelude::*;

use crate::ast::{entities_view, EntityInstance, EntityView};
use crate::face_info::{oriented_ends, oriented_vertices};
use crate::graph::indexes;

verus! {

broadcast use vstd::std_specs::hash::group_hash_axioms;

/// Where the oriented edge at a position starts.
pub open spec fn start_of(entities: Seq<EntityView>, edges: Seq<(u64, u64)>, i: int) -> u64 {
    oriented_ends(entities, edges[i].0, edges[i].1)->Some_0.0
}

/// Where the oriented edge at a position ends.
pub open spec fn end_of(entities: Seq<EntityView>, edges: Seq<(u64, u64)>, i: int) -> u64 {
    oriented_ends(entities, edges[i].0, edges[i].1)->Some_0.1
}

/// Whether oriented edges can be traced: each has its vertices, none occurs twice, and no two
/// start at the same vertex.
pub open spec fn traceable(entities: Seq<EntityView>, edges: Seq<(u64, u64)>) -> bool {
    &&& edges.len() > 0
    &&& forall|i: int|
        0 <= i < edges.len() ==> oriented_ends(
            entities,
            (#[trigger] edges[i]).0,
            edges[i].1,
        ) is Some
    &&& forall|i: int, j: int|
        #![trigger edges[i], edges[j]]
        0 <= i < j < edges.len() ==> edges[i].0 != edges[j].0 && start_of(entities, edges, i)
            != start_of(entities, edges, j)
}

/// Whether an order of the positions is one closed loop through all of them. It begins with
/// the smallest oriented edge and first closes at its end.
pub open spec fn is_loop(
    entities: Seq<EntityView>,
    edges: Seq<(u64, u64)>,
    order: Seq<int>,
) -> bool {
    &&& order.len() == edges.len()
    &&& order.len() > 0
    &&& order.no_duplicates()
    &&& forall|i: int| 0 <= i < order.len() ==> 0 <= #[trigger] order[i] < edges.len()
    &&& forall|j: int| 0 <= j < edges.len() ==> edges[order[0]].0 <= (#[trigger] edges[j]).0
    &&& forall|i: int|
        0 <= i < order.len() - 1 ==> end_of(entities, edges, #[trigger] order[i]) == start_of(
            entities,
            edges,
            order[i + 1],
        ) && end_of(entities, edges, order[i]) != start_of(entities, edges, order[0])
    &&& end_of(entities, edges, order.last()) == start_of(entities, edges, order[0])
}

/// Whether a sequence of oriented edges is the one loop that the edges form.
pub open spec fn single_loop(
    entities: Seq<EntityView>,
    edges: Seq<(u64, u64)>,
    sequence: Seq<u64>,
) -> bool {
    &&& traceable(entities, edges)
    &&& exists|order: Seq<int>| #[trigger]
        is_loop(entities, edges, order) && sequence == order.map_values(|i: int| edges[i].0)
}

/// Traces the one loop that oriented edges form. Edges that form no loop, or more than one,
/// have none.
pub fn trace_single_loop(
    surviving: &Vec<(u64, u64)>,
    entities: &Vec<EntityInstance>,
    index: &HashMap<u64, usize>,
) -> (out: Option<Vec<u64>>)
    requires
        indexes(index@, entities_view(entities@)),
    ensures
        match out {
            Some(sequence) => single_loop(entities_view(entities@), surviving@, sequence@),
            None => forall|sequence: Seq<u64>|
                !#[trigger] single_loop(entities_view(entities@), surviving@, sequence),
        },
{
    let ghost views = entities_view(entities@);
    if surviving.len() == 0 {
        return None;
    }
    let mut starts: HashMap<u64, usize> = HashMap::new();
    let mut by_edge: HashMap<u64, usize> = HashMap::new();
    let mut ends: Vec<(u64, u64)> = Vec::new();
    let mut first: usize = 0;
    let mut i: usize = 0;
    while i < surviving.len()
        invariant
            i <= surviving.len(),
            ends.len() == i,
            views == entities_view(entities@),
            indexes(index@, views),
            first < surviving.len(),
            forall|j: int|
                0 <= j < i ==> oriented_ends(
                    views,
                    (#[trigger] surviving@[j]).0,
                    surviving@[j].1,
                ) == Some(ends@[j]),
            forall|j: int, k: int|
                #![trigger surviving@[j], surviving@[k]]
                0 <= j < k < i ==> surviving@[j].0 != surviving@[k].0 && start_of(
                    views,
                    surviving@,
                    j,
                ) != start_of(views, surviving@, k),
            forall|j: int|
                0 <= j < i ==> starts@.contains_key((#[trigger] ends@[j]).0)
                    && starts@[ends@[j].0] == j,
            forall|v: u64| #[trigger]
                starts@.contains_key(v) ==> starts@[v] < i && ends@[starts@[v] as int].0 == v,
            forall|j: int|
                0 <= j < i ==> by_edge@.contains_key((#[trigger] surviving@[j]).0)
                    && by_edge@[surviving@[j].0] == j,
            forall|v: u64| #[trigger]
                by_edge@.contains_key(v) ==> by_edge@[v] < i && surviving@[by_edge@[v] as int].0
                    == v,
            forall|j: int| 0 <= j < i ==> surviving@[first as int].0 <= (#[trigger] surviving@[j]).0,
        decreases surviving.len() - i,
    {
        let (oe, edge) = surviving[i];
        match oriented_vertices(oe, edge, entities, index) {
            None => {
                return None;
            },
            Some(pair) => {
                if starts.contains_key(&pair.0) {
                    proof {
                        let j = starts@[pair.0] as int;
                        assert(surviving@[j].0 == surviving@[j].0 && surviving@[i as int].0 == oe);
                        assert(start_of(views, surviving@, j) == start_of(
                            views,
                            surviving@,
                            i as int,
                        ));
                    }
                    return None;
                }
                if by_edge.contains_key(&oe) {
                    proof {
                        let j = by_edge@[oe] as int;
                        assert(surviving@[j].0 == surviving@[i as int].0);
                    }
                    return None;
                }
                starts.insert(pair.0, i);
                by_edge.insert(oe, i);
                ends.push(pair);
            },
        }
        if oe < surviving[first].0 {
            first = i;
        }
        i = i + 1;
    }
    assert(traceable(views, surviving@));
    let loop_start: u64 = ends[first].0;
    let mut used: Vec<bool> = Vec::new();
    let mut u: usize = 0;
    while u < surviving.len()
        invariant
            u <= surviving.len(),
            used.len() == u,
            forall|j: int| 0 <= j < u ==> !#[trigger] used@[j],
        decreases surviving.len() - u,
    {
        used.push(false);
        u = u + 1;
    }
    let mut sequence: Vec<u64> = Vec::new();
    let ghost mut prefix: Seq<int> = Seq::empty();
    let mut current: usize = first;
    let mut closed = false;
    proof {
        assert forall|order: Seq<int>| #[trigger] is_loop(views, surviving@, order) implies order[0]
            == first by {
            let a = order[0];
            assert(surviving@[a].0 <= surviving@[first as int].0);
            assert(surviving@[first as int].0 <= surviving@[a].0);
        }
    }
    while !closed
        invariant
            views == entities_view(entities@),
            traceable(views, surviving@),
            ends.len() == surviving.len(),
            used.len() == surviving.len(),
            first < surviving.len(),
            current < surviving.len(),
            loop_start == ends@[first as int].0,
            forall|j: int|
                0 <= j < surviving@.len() ==> oriented_ends(
                    views,
                    (#[trigger] surviving@[j]).0,
                    surviving@[j].1,
                ) == Some(ends@[j]),
            forall|j: int|
                0 <= j < surviving@.len() ==> starts@.contains_key((#[trigger] ends@[j]).0)
                    && starts@[ends@[j].0] == j,
            forall|v: u64| #[trigger]
                starts@.contains_key(v) ==> starts@[v] < surviving@.len() && ends@[starts@[v] as int].0
                    == v,
            forall|j: int|
                0 <= j < surviving@.len() ==> surviving@[first as int].0 <= (
                #[trigger] surviving@[j]).0,
            prefix.len() <= surviving@.len(),
            sequence@ == prefix.map_values(|i: int| surviving@[i].0),
            prefix.no_duplicates(),
            forall|j: int| 0 <= j < prefix.len() ==> 0 <= #[trigger] prefix[j] < surviving@.len(),
            forall|j: int| 0 <= j < used@.len() ==> #[trigger] used@[j] == prefix.contains(j),
            prefix.len() > 0 ==> prefix[0] == first,
            prefix.len() == 0 ==> current == first,
            forall|j: int|
                0 <= j < prefix.len() - 1 ==> ends@[#[trigger] prefix[j]].1 == ends@[prefix[j
                    + 1]].0 && ends@[prefix[j]].1 != loop_start,
            !closed ==> (prefix.len() > 0 ==> ends@[prefix.last()].1 == ends@[current as int].0
                && ends@[prefix.last()].1 != loop_start),
            !closed ==> forall|order: Seq<int>| #[trigger]
                is_loop(views, surviving@, order) ==> prefix.len() < order.len() && order.take(
                    prefix.len() as int,
                ) == prefix && order[prefix.len() as int] == current,
            closed ==> prefix.len() > 0 && ends@[prefix.last()].1 == loop_start,
            closed ==> forall|order: Seq<int>| #[trigger]
                is_loop(views, surviving@, order) ==> order == prefix,
        decreases
            surviving.len() + 1 - prefix.len(),
            if closed {
                0int
            } else {
                1int
            },
    {
        let ghost before = prefix;
        if used[current] || sequence.len() >= surviving.len() {
            proof {
                assert forall|sequence: Seq<u64>| !#[trigger] single_loop(
                    views,
                    surviving@,
                    sequence,
                ) by {
                    if single_loop(views, surviving@, sequence) {
                        let order = choose|order: Seq<int>| #[trigger]
                            is_loop(views, surviving@, order) && sequence == order.map_values(
                                |i: int| surviving@[i].0,
                            );
                        assert(is_loop(views, surviving@, order));
                        if before.contains(current as int) {
                            let k = choose|k: int| 0 <= k < before.len() && before[k] == current;
                            assert(order.take(before.len() as int)[k] == order[k]);
                            assert(order[k] == order[before.len() as int]);
                        }
                    }
                }
            }
            return None;
        }
        used.set(current, true);
        sequence.push(surviving[current].0);
        proof {
            prefix = before.push(current as int);
            assert(sequence@ =~= prefix.map_values(|i: int| surviving@[i].0));
            assert forall|j: int| 0 <= j < used@.len() implies #[trigger] used@[j]
                == prefix.contains(j) by {
                if j == current {
                    assert(prefix[before.len() as int] == j);
                }
                if before.contains(j) {
                    let k = choose|k: int| 0 <= k < before.len() && before[k] == j;
                    assert(prefix[k] == j);
                }
            }
            assert forall|order: Seq<int>| #[trigger] is_loop(views, surviving@, order) implies
                order.take(prefix.len() as int) == prefix by {
                assert(order.take(prefix.len() as int) =~= order.take(before.len() as int).push(
                    order[before.len() as int],
                ));
            }
        }
        let end: u64 = ends[current].1;
        if end == loop_start {
            closed = true;
            proof {
                assert forall|order: Seq<int>| #[trigger]
                    is_loop(views, surviving@, order) implies order == prefix by {
                    let k = before.len() as int;
                    assert(order[k] == current);
                    assert(order[0] == prefix[0]) by {
                        assert(order.take(prefix.len() as int)[0] == order[0]);
                    }
                    if k < order.len() - 1 {
                        assert(end_of(views, surviving@, order[k]) != start_of(
                            views,
                            surviving@,
                            order[0],
                        ));
                    }
                    assert(order.take(prefix.len() as int) =~= order);
                }
            }
        } else {
            match starts.get(&end) {
                None => {
                    proof {
                        assert forall|sequence: Seq<u64>| !#[trigger] single_loop(
                            views,
                            surviving@,
                            sequence,
                        ) by {
                            if single_loop(views, surviving@, sequence) {
                                let order = choose|order: Seq<int>| #[trigger]
                                    is_loop(views, surviving@, order) && sequence
                                        == order.map_values(|i: int| surviving@[i].0);
                                assert(is_loop(views, surviving@, order));
                                let k = before.len() as int;
                                assert(order[k] == current);
                                assert(order.take(prefix.len() as int)[0] == order[0]);
                                assert(k < order.len() - 1);
                                assert(end_of(views, surviving@, order[k]) == start_of(
                                    views,
                                    surviving@,
                                    order[k + 1],
                                ));
                                let n = order[k + 1];
                                assert(ends@[n].0 == end);
                            }
                        }
                    }
                    return None;
                },
                Some(next) => {
                    let next: usize = *next;
                    proof {
                        assert forall|order: Seq<int>| #[trigger]
                            is_loop(views, surviving@, order) implies prefix.len() < order.len()
                            && order[prefix.len() as int] == next by {
                            let k = before.len() as int;
                            assert(order[k] == current);
                            assert(order.take(prefix.len() as int)[0] == order[0]);
                            assert(k < order.len() - 1);
                            assert(end_of(views, surviving@, order[k]) == start_of(
                                views,
                                surviving@,
                                order[k + 1],
                            ));
                            let n = order[k + 1];
                            assert(ends@[n].0 == end);
                        }
                    }
                    current = next;
                },
            }
        }
    }
    if sequence.len() != surviving.len() {
        proof {
            assert forall|sequence: Seq<u64>| !#[trigger] single_loop(
                views,
                surviving@,
                sequence,
            ) by {
                if single_loop(views, surviving@, sequence) {
                    let order = choose|order: Seq<int>| #[trigger]
                        is_loop(views, surviving@, order) && sequence == order.map_values(
                            |i: int| surviving@[i].0,
                        );
                    assert(is_loop(views, surviving@, order));
                }
            }
        }
        return None;
    }
    assert(is_loop(views, surviving@, prefix));
    Some(sequence)
}

/// Oriented edges form at most one loop.
pub proof fn law_loop_is_unique(
    entities: Seq<EntityView>,
    edges: Seq<(u64, u64)>,
    first: Seq<u64>,
    second: Seq<u64>,
)
    requires
        single_loop(entities, edges, first),
        single_loop(entities, edges, second),
    ensures
        first == second,
{
    let a = choose|order: Seq<int>| #[trigger]
        is_loop(entities, edges, order) && first == order.map_values(|i: int| edges[i].0);
    let b = choose|order: Seq<int>| #[trigger]
        is_loop(entities, edges, order) && second == order.map_values(|i: int| edges[i].0);
    assert forall|k: int| 0 <= k < a.len() implies a[k] == b[k] by {
        lemma_same_position(entities, edges, a, b, k);
    }
    assert(a =~= b);
}

proof fn lemma_same_position(
    entities: Seq<EntityView>,
    edges: Seq<(u64, u64)>,
    a: Seq<int>,
    b: Seq<int>,
    k: int,
)
    requires
        traceable(entities, edges),
        is_loop(entities, edges, a),
        is_loop(entities, edges, b),
        0 <= k < a.len(),
    ensures
        a[k] == b[k],
    decreases k,
{
    if k == 0 {
        assert(edges[a[0]].0 <= edges[b[0]].0);
        assert(edges[b[0]].0 <= edges[a[0]].0);
    } else {
        lemma_same_position(entities, edges, a, b, k - 1);
        assert(end_of(entities, edges, a[k - 1]) == start_of(entities, edges, a[k - 1 + 1]));
        assert(end_of(entities, edges, b[k - 1]) == start_of(entities, edges, b[k - 1 + 1]));
        let x = edges[a[k]];
        let y = edges[b[k]];
    }
}

} // verus!
