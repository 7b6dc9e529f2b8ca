//! Groups of faces that stand on a host face.

use std::collections::HashMap;
use vstd::prelude::*;

use crate::sets::list_contains;

verus! {

/// Whether the two faces at an edge are the host or in the group, and not both the host.
pub open spec fn edge_is_closed(component: Seq<u64>, host: u64, attached: Seq<u64>) -> bool {
    &&& attached.len() == 2
    &&& forall|i: int|
        0 <= i < 2 ==> #[trigger] attached[i] == host || component.contains(attached[i])
    &&& !(attached[0] == host && attached[1] == host)
}

/// Whether each edge of a group of faces lies between two faces of the group, or between one
/// of them and the host.
pub open spec fn is_two_manifold(
    component: Seq<u64>,
    host: u64,
    face_edges: Map<u64, Vec<u64>>,
    edge_faces: Map<u64, Vec<u64>>,
) -> bool {
    forall|f: int|
        0 <= f < component.len() ==> face_edges.contains_key(#[trigger] component[f])
            && edges_closed(component, host, face_edges[component[f]]@, edge_faces)
}

/// Whether each edge of a list is known and closed.
pub open spec fn edges_closed(
    component: Seq<u64>,
    host: u64,
    edges: Seq<u64>,
    edge_faces: Map<u64, Vec<u64>>,
) -> bool {
    forall|e: int|
        0 <= e < edges.len() ==> edge_faces.contains_key(#[trigger] edges[e]) && edge_is_closed(
            component,
            host,
            edge_faces[edges[e]]@,
        )
}

fn all_edges_closed(
    component: &Vec<u64>,
    host: u64,
    edges: &Vec<u64>,
    edge_faces: &HashMap<u64, Vec<u64>>,
) -> (out: bool)
    ensures
        out == edges_closed(component@, host, edges@, edge_faces@),
{
    broadcast use vstd::std_specs::hash::group_hash_axioms;

    let mut e: usize = 0;
    while e < edges.len()
        invariant
            e <= edges@.len(),
            forall|j: int|
                0 <= j < e ==> edge_faces@.contains_key(#[trigger] edges@[j]) && edge_is_closed(
                    component@,
                    host,
                    edge_faces@[edges@[j]]@,
                ),
        decreases edges.len() - e,
    {
        match edge_faces.get(&edges[e]) {
            None => {
                assert(!edge_faces@.contains_key(edges@[e as int]));
                return false;
            },
            Some(attached) => {
                if attached.len() != 2 {
                    assert(!edge_is_closed(component@, host, edge_faces@[edges@[e as int]]@));
                    return false;
                }
                let a: u64 = attached[0];
                let b: u64 = attached[1];
                let a_fits = a == host || list_contains(component, a);
                let b_fits = b == host || list_contains(component, b);
                if !a_fits || !b_fits || (a == host && b == host) {
                    assert(attached@[0] == a && attached@[1] == b);
                    assert(!edge_is_closed(component@, host, edge_faces@[edges@[e as int]]@));
                    return false;
                }
                assert(edge_is_closed(component@, host, attached@));
            },
        }
        e = e + 1;
    }
    true
}

/// Whether each edge of a group of faces lies between two faces of the group, or between one
/// of them and the host.
pub fn component_is_two_manifold_with_host(
    component: &Vec<u64>,
    host: u64,
    face_edges: &HashMap<u64, Vec<u64>>,
    edge_faces: &HashMap<u64, Vec<u64>>,
) -> (out: bool)
    ensures
        out == is_two_manifold(component@, host, face_edges@, edge_faces@),
{
    broadcast use vstd::std_specs::hash::group_hash_axioms;

    let mut f: usize = 0;
    while f < component.len()
        invariant
            f <= component@.len(),
            forall|j: int|
                0 <= j < f ==> face_edges@.contains_key(#[trigger] component@[j]) && edges_closed(
                    component@,
                    host,
                    face_edges@[component@[j]]@,
                    edge_faces@,
                ),
        decreases component.len() - f,
    {
        match face_edges.get(&component[f]) {
            None => {
                assert(!face_edges@.contains_key(component@[f as int]));
                return false;
            },
            Some(edges) => {
                if !all_edges_closed(component, host, edges, edge_faces) {
                    assert(!edges_closed(
                        component@,
                        host,
                        face_edges@[component@[f as int]]@,
                        edge_faces@,
                    ));
                    return false;
                }
            },
        }
        f = f + 1;
    }
    true
}

} // verus!
