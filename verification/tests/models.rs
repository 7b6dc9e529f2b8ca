use std::collections::{HashMap, HashSet};
use step_redox::ast::{EntityInstance, Name, Parameter, Record};
use step_redox::cad_ir::{
    BrepFallback, CadNode, NodeId, PatternSpec, Primitive, Profile2d, ProofStatus, Provenance,
    RigidTransform, Scalar,
};
use step_redox::cad_model::CadModel;
use step_redox::chain_pattern::{
    best_score, infer_lattice, judge_chain, mode_frequency, mode_value, other_axes,
    partition_score, row_pitch, ChainPartition, FaceEdges, FaceRow,
};
use step_redox::cycles::{canonical_cycle, covers_full_grid};
use step_redox::graph::build_index;
use step_redox::kcl::{emit_kcl, KclError, KclNumbers};
use step_redox::loops::trace_single_loop;
use step_redox::parameters::canonical_axis;

fn scalar(value: f64) -> Scalar {
    Scalar(value.to_bits())
}

fn texts(values: &[&str]) -> Option<Vec<String>> {
    Some(values.iter().map(|v| v.to_string()).collect())
}

#[test]
fn extrude_pattern_emits_compact_kcl_from_one_dag() {
    let mut model = CadModel::new();
    let corners = [[0.0, 0.0], [10.0, 0.0], [10.0, 6.0], [0.0, 6.0]];
    let points = corners.iter().map(|p| [scalar(p[0]), scalar(p[1])]).collect();
    let profile = Profile2d::polygon(&points).unwrap();
    let body = model.add_node(CadNode::Extrude {
        profile,
        vector: [scalar(0.0), scalar(0.0), scalar(2.0)],
    });
    let array = model.add_node(CadNode::Pattern {
        pattern: PatternSpec::Linear {
            count: 20,
            step: [scalar(2.54), scalar(0.0), scalar(0.0)],
        },
        child: body,
    });
    model.add_root(array).unwrap();
    model
        .set_provenance(
            body,
            Provenance {
                source_entity_ids: vec![10, 11, 12],
                proof: ProofStatus::Exact,
                max_residual: Some(scalar(0.0)),
            },
        )
        .unwrap();
    let numbers = KclNumbers {
        of: vec![
            texts(&["0", "0", "10", "0", "0", "6", "-10", "0", "2"]),
            texts(&["2.54", "1", "0", "0"]),
        ],
    };

    let kcl = emit_kcl(&model, &numbers).unwrap();
    let sketch = "s0 = startSketchOn(XY)\np0 = startProfile(s0, at = [0, 0])\n";
    let lines = "  |> line(end = [10, 0])\n  |> line(end = [0, 6])\n  |> line(end = [-10, 0])\n";
    assert!(kcl.starts_with(&format!("{sketch}{lines}  |> close()\n")));
    assert!(kcl.contains("extrude(p0, length = 2)"));
    assert!(kcl.contains("patternLinear3d(instances = 20, distance = 2.54, axis = [1, 0, 0])"));
    assert!(model.complexity_score(array).unwrap() < 20);

    let inexact = KclNumbers {
        of: vec![None, texts(&["2.54", "1", "0", "0"])],
    };
    assert_eq!(emit_kcl(&model, &inexact).unwrap_err(), KclError::Inexact);
    let stepless = KclNumbers {
        of: vec![texts(&["0", "0", "10", "0", "0", "6", "-10", "0", "2"]), None],
    };
    assert_eq!(emit_kcl(&model, &stepless).unwrap_err(), KclError::BadStep);
}

#[test]
fn complexity_counts_shared_dag_nodes_once() {
    let mut model = CadModel::new();
    let primitive = model.add_node(CadNode::Primitive(Primitive::Box {
        size: [scalar(1.0), scalar(1.0), scalar(1.0)],
    }));
    let root = model.add_node(CadNode::Assembly {
        children: vec![primitive, primitive],
    });
    model.add_root(root).unwrap();
    assert_eq!(model.complexity_score(root).unwrap(), 4);
}

#[test]
fn fallback_is_deliberately_expensive() {
    let mut model = CadModel::new();
    let fallback = model.add_node(CadNode::BrepFallback(BrepFallback {
        source_entity_ids: vec![1, 2, 3],
        estimated_faces: 100,
        estimated_edges: 300,
        estimated_control_points: 1_000,
    }));
    model.add_root(fallback).unwrap();
    assert!(model.complexity_score(fallback).unwrap() > 2_000);
}

#[test]
fn model_rejects_cycles() {
    let model = CadModel {
        nodes: vec![
            CadNode::Transform {
                transform: RigidTransform::identity(),
                child: NodeId(1),
            },
            CadNode::Transform {
                transform: RigidTransform::identity(),
                child: NodeId(0),
            },
        ],
        roots: vec![NodeId(0)],
        provenance: HashMap::new(),
    };
    assert!(model.validate().is_err());
}

#[test]
fn models_refuse_unknown_roots() {
    let mut model = CadModel::new();
    assert!(model.add_root(NodeId(3)).is_err());
    assert!(model.node(NodeId(0)).is_err());
    assert!(model.validate().is_ok());
}

fn axis(values: [f64; 3]) -> [u64; 3] {
    [values[0].to_bits(), values[1].to_bits(), values[2].to_bits()]
}

#[test]
fn canonical_axis_is_sign_stable() {
    let numbers = |bits: [u64; 3]| bits.map(f64::from_bits);
    assert_eq!(numbers(canonical_axis(axis([-1.0, 0.0, 0.0]))), [1.0, 0.0, 0.0]);
    assert_eq!(numbers(canonical_axis(axis([0.0, -1.0, 0.0]))), [0.0, 1.0, 0.0]);
}

fn r(id: u64) -> Parameter {
    Parameter::Ref(Name::Entity(id))
}

fn simple(id: u64, name: &str, params: Vec<Parameter>) -> EntityInstance {
    EntityInstance::Simple {
        id,
        record: Record {
            name: name.to_string(),
            parameter: Parameter::List(params),
        },
    }
}

fn edge(id: u64, a: u64, b: u64) -> EntityInstance {
    simple(
        id,
        "EDGE_CURVE",
        vec![
            Parameter::String(String::new()),
            r(a),
            r(b),
            r(999),
            Parameter::Enumeration("T".to_string()),
        ],
    )
}

fn oe(id: u64, edge: u64) -> EntityInstance {
    simple(
        id,
        "ORIENTED_EDGE",
        vec![
            Parameter::String(String::new()),
            Parameter::Omitted,
            Parameter::Omitted,
            r(edge),
            Parameter::Enumeration("T".to_string()),
        ],
    )
}

#[test]
fn traces_one_exact_topological_loop() {
    let entities = vec![
        edge(10, 1, 2),
        edge(11, 2, 3),
        edge(12, 3, 1),
        oe(20, 10),
        oe(21, 11),
        oe(22, 12),
    ];
    let index = build_index(&entities);
    let loop_oes =
        trace_single_loop(&vec![(20, 10), (21, 11), (22, 12)], &entities, &index).unwrap();
    assert_eq!(loop_oes.len(), 3);
    assert_eq!(
        loop_oes.iter().copied().collect::<HashSet<_>>(),
        HashSet::from([20, 21, 22])
    );
}

#[test]
fn rejects_two_disjoint_boundary_loops() {
    let entities = vec![
        edge(10, 1, 2),
        edge(11, 2, 3),
        edge(12, 3, 1),
        edge(13, 4, 5),
        edge(14, 5, 6),
        edge(15, 6, 4),
        oe(20, 10),
        oe(21, 11),
        oe(22, 12),
        oe(23, 13),
        oe(24, 14),
        oe(25, 15),
    ];
    let index = build_index(&entities);
    assert!(trace_single_loop(
        &vec![(20, 10), (21, 11), (22, 12), (23, 13), (24, 14), (25, 15)],
        &entities,
        &index,
    )
    .is_none());
}

#[test]
fn cycles_have_one_start() {
    let list = |items: &[&str]| items.iter().map(|item| item.to_string()).collect::<Vec<_>>();
    assert_eq!(canonical_cycle(&list(&["c", "a", "b"])), list(&["a", "b", "c"]));
    assert_eq!(canonical_cycle(&list(&["b", "c", "a"])), list(&["a", "b", "c"]));
    assert_eq!(canonical_cycle(&list(&["a", "b", "a", "a"])), list(&["a", "a", "a", "b"]));
    assert_eq!(canonical_cycle(&list(&["ab", "a"])), list(&["a", "ab"]));
    assert_eq!(canonical_cycle(&Vec::new()), Vec::<String>::new());
}

#[test]
fn full_grids_hold_every_cell() {
    assert!(covers_full_grid(&vec![[1, 0], [0, 0], [1, 1], [0, 1]], 2, 2));
    assert!(!covers_full_grid(&vec![[1, 0], [0, 0], [1, 1], [1, 1]], 2, 2));
    assert!(!covers_full_grid(&vec![[0, 0]], 2, 2));
    assert!(covers_full_grid(&Vec::new(), 0, 5));
}

#[test]
fn modes_prefer_the_largest_value() {
    assert_eq!(mode_value(&vec![1, 2, 2, 1, 5]), Some(2));
    assert_eq!(mode_value(&Vec::new()), None);
    assert_eq!(mode_frequency(&vec![1, 2, 2, 1, 5]), 2);
    assert_eq!(mode_frequency(&Vec::new()), 0);
    assert_eq!(other_axes(1), [0, 2]);
    assert_eq!(other_axes(2), [0, 1]);
}

#[test]
fn rows_vote_for_their_lattice() {
    assert_eq!(row_pitch(&vec![0, 5, 10, 15]), Some(5));
    assert_eq!(row_pitch(&vec![0, 5, 10, 16]), None);
    assert_eq!(row_pitch(&vec![0, 5, 10]), None);
    assert_eq!(row_pitch(&vec![i64::MIN, i64::MAX, 0, 0]), None);
    let row = |axis: usize, ticks: Vec<i64>| FaceRow { axis, ticks };
    let rows = vec![
        row(0, vec![0, 5, 10, 15]),
        row(1, vec![0, 7, 14, 21]),
        row(1, vec![1, 8, 15, 22]),
        row(2, vec![0, 1]),
    ];
    let best = infer_lattice(&rows).unwrap();
    assert_eq!(best.axis_index, 1);
    assert_eq!(best.pitch_ticks, 7);
    assert_eq!(best.sites, 4);
    assert_eq!(best.votes, 2);
    assert!(infer_lattice(&vec![row(0, vec![3])]).is_none());
}

fn chain() -> ChainPartition {
    ChainPartition {
        sites: vec![vec![1], vec![2], vec![3], vec![4]],
        gaps: vec![vec![5], vec![6], vec![7]],
        stretch: vec![8],
        negative: vec![9],
        middle: Vec::new(),
        positive: vec![10],
    }
}

fn pairs(list: &[(u64, u64)]) -> Vec<FaceEdges> {
    let mut out: Vec<FaceEdges> = Vec::new();
    for face in 1..=10 {
        let mut edges = Vec::new();
        for (edge, (a, b)) in list.iter().enumerate() {
            if *a == face || *b == face {
                edges.push(edge as u64);
            }
        }
        out.push(FaceEdges { face, edges });
    }
    out
}

#[test]
fn chains_are_proven_by_their_faces_and_edges() {
    let faces = pairs(&[(1, 5), (5, 2), (2, 6), (6, 3), (3, 7), (7, 4), (9, 1), (4, 10), (8, 1)]);
    let verdict = judge_chain(&chain(), &faces, 4, 10, 0);
    assert_eq!(verdict.nonmanifold_edges, 0);
    assert_eq!(verdict.cross_site_edges, 0);
    assert_eq!(verdict.interior_site_face_count, 1);
    assert!(verdict.complete_partition);
    assert!(verdict.read_only_proven);
    assert!(!judge_chain(&chain(), &faces, 3, 10, 0).read_only_proven);
    assert!(!judge_chain(&chain(), &faces, 4, 11, 0).complete_partition);
    assert!(!judge_chain(&chain(), &faces, 4, 10, 1).complete_partition);
    let crossing = judge_chain(&chain(), &pairs(&[(1, 2)]), 4, 10, 0);
    assert_eq!(crossing.cross_site_edges, 1);
    assert!(!crossing.read_only_proven);
}

#[test]
fn the_best_score_is_the_first_of_several() {
    let even = partition_score(&chain(), 3);
    assert_eq!(even.uneven_ends, 0);
    assert_eq!(even.fixed, 2);
    assert_eq!(even.like_sites, 4);
    assert_eq!(even.observations, 3);
    let mut other = chain();
    other.positive.clear();
    let uneven = partition_score(&other, 9);
    assert_eq!(uneven.uneven_ends, 1);
    assert_eq!(best_score(&vec![uneven, even, even]), Some(1));
    assert_eq!(best_score(&Vec::new()), None);
}
