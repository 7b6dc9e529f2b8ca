use std::collections::HashMap;
use step_redox::brep::toggle_tf;
use step_redox::features::component_is_two_manifold_with_host;
use step_redox::intern::compress_aliases;
use step_redox::periodic_chains::symmetric_abs_difference;
use step_redox::union_find::UnionFind;

#[test]
fn toggles_step_boolean_enumerations() {
    assert_eq!(toggle_tf("T"), "F");
    assert_eq!(toggle_tf("F"), "T");
}

#[test]
fn union_find_uses_stable_smallest_root() {
    let mut uf = UnionFind::new();
    uf.union(20, 10);
    uf.union(30, 20);
    assert_eq!(uf.find(30), 10);
    assert_eq!(uf.find(20), 10);
}

#[test]
fn symmetry_metric_is_zero_for_palindrome() {
    assert_eq!(symmetric_abs_difference(&[74, 71, 70, 71, 74]), 0);
}

#[test]
fn symmetry_metric_detects_shifted_origin() {
    assert!(symmetric_abs_difference(&[78, 71, 70, 71, 74]) > 0);
    assert_eq!(symmetric_abs_difference(&[78, 71, 70, 71, 74]), 4);
}

#[test]
fn feature_edges_must_be_exactly_two_manifold_with_host() {
    let component = vec![1_u64, 2_u64];
    let face_edges = HashMap::from([
        (1_u64, vec![10_u64, 11_u64]),
        (2_u64, vec![10_u64, 12_u64]),
    ]);
    let mut edge_faces = HashMap::from([
        (10_u64, vec![1_u64, 2_u64]),
        (11_u64, vec![1_u64, 9_u64]),
        (12_u64, vec![2_u64, 9_u64]),
    ]);

    assert!(component_is_two_manifold_with_host(
        &component,
        9,
        &face_edges,
        &edge_faces,
    ));

    edge_faces.get_mut(&11).unwrap().push(99);
    assert!(!component_is_two_manifold_with_host(
        &component,
        9,
        &face_edges,
        &edge_faces,
    ));
}

#[test]
fn numbers_share_a_root_where_pairs_link_them() {
    let mut uf = UnionFind::default();
    for (a, b) in [(9, 4), (7, 8), (4, 6), (3, 8), (9, 6)] {
        uf.union(a, b);
    }
    for (id, root) in [(9, 4), (4, 4), (6, 4), (7, 3), (8, 3), (3, 3), (5, 5)] {
        assert_eq!(uf.find(id), root);
        assert_eq!(uf.mapped(id), root);
    }
    uf.union(6, 7);
    assert_eq!(uf.find(9), 3);
    assert_eq!(uf.find(5), 5);
}

#[test]
fn aliases_lead_straight_to_their_ends() {
    let alias = HashMap::from([(5_u64, 4_u64), (4, 3), (3, 1), (8, 7)]);
    let short = compress_aliases(&alias, &vec![5, 4, 3, 8]);
    assert_eq!(short, HashMap::from([(5, 1), (4, 1), (3, 1), (8, 7)]));
    assert_eq!(compress_aliases(&short, &vec![3, 4, 5, 8]), short);
}
