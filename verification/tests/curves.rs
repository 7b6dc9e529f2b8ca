use std::collections::HashMap;
use step_redox::ast::{EntityInstance, Name, Parameter, Record};
use step_redox::bezier_recovery::recover_exact_bezier_curves;
use step_redox::curve_replicas::{instance_translated_bspline_curves, CurveEvidence, CurveShift};
use step_redox::geometric_intern::intern_geometric_supports;
use step_redox::graph::build_index;
use step_redox::line_recovery::{
    recover_straight_bspline_lines, LineEvidence, LineFit, StraightCurve,
};

fn r(id: u64) -> Parameter {
    Parameter::Ref(Name::Entity(id))
}

fn float(value: f64) -> Parameter {
    Parameter::Real(format!("{value}"))
}

fn name() -> Parameter {
    Parameter::String(String::new())
}

fn word(text: &str) -> Parameter {
    Parameter::Enumeration(text.to_string())
}

fn simple(id: u64, name: &str, params: Vec<Parameter>) -> EntityInstance {
    EntityInstance::Simple {
        id,
        record: Record {
            name: name.to_string(),
            parameter: Parameter::List(params),
        },
    }
}

fn spline_with(id: u64, poles: Vec<u64>, mult: Vec<i64>, knots: Vec<f64>) -> EntityInstance {
    simple(
        id,
        "B_SPLINE_CURVE_WITH_KNOTS",
        vec![
            name(),
            Parameter::Integer(3),
            Parameter::List(poles.into_iter().map(r).collect()),
            word("UNSPECIFIED"),
            word("F"),
            word("F"),
            Parameter::List(mult.into_iter().map(Parameter::Integer).collect()),
            Parameter::List(knots.into_iter().map(float).collect()),
            word("UNSPECIFIED"),
        ],
    )
}

fn bezier(id: u64, mult: Vec<i64>, knots: Vec<f64>) -> EntityInstance {
    spline_with(id, vec![10, 11, 12, 13], mult, knots)
}

fn edge(id: u64, a: u64, b: u64, curve: u64) -> EntityInstance {
    simple(id, "EDGE_CURVE", vec![name(), r(a), r(b), r(curve), word("T")])
}

fn point(id: u64, xyz: [f64; 3]) -> EntityInstance {
    simple(
        id,
        "CARTESIAN_POINT",
        vec![name(), Parameter::List(xyz.into_iter().map(float).collect())],
    )
}

fn vertex(id: u64, point: u64) -> EntityInstance {
    simple(id, "VERTEX_POINT", vec![name(), r(point)])
}

fn spline(id: u64, poles: &[u64]) -> EntityInstance {
    spline_with(id, poles.to_vec(), vec![4, 4], vec![0.0, 1.0])
}

fn record_of(entities: &Vec<EntityInstance>, id: u64) -> &Record {
    let index = build_index(entities);
    match &entities[index[&id]] {
        EntityInstance::Simple { record, .. } => record,
        EntityInstance::Complex { .. } => panic!("#{id} is complex"),
    }
}

fn params_of(entities: &Vec<EntityInstance>, id: u64) -> &Vec<Parameter> {
    match &record_of(entities, id).parameter {
        Parameter::List(params) => params,
        _ => panic!("#{id} has no parameters"),
    }
}

#[test]
fn recovers_exact_clamped_single_span() {
    let mut e = vec![bezier(1, vec![4, 4], vec![3.0, 4.0]), edge(2, 20, 21, 1)];
    let s = recover_exact_bezier_curves(&mut e);
    assert_eq!(s.curves_recovered, 1);
    assert_eq!(record_of(&e, 1).name, "BEZIER_CURVE");
    assert_eq!(params_of(&e, 1).len(), 6);
}

#[test]
fn rejects_multispan_curve() {
    let mut e = vec![
        bezier(1, vec![4, 1, 4], vec![0.0, 0.5, 1.0]),
        edge(2, 20, 21, 1),
    ];
    assert_eq!(recover_exact_bezier_curves(&mut e).curves_recovered, 0);
}

#[test]
fn rejects_parameter_trimmed_curve_usage() {
    let mut e = vec![
        bezier(1, vec![4, 4], vec![0.0, 1.0]),
        simple(2, "TRIMMED_CURVE", vec![name(), r(1)]),
    ];
    assert_eq!(recover_exact_bezier_curves(&mut e).curves_recovered, 0);
}

#[test]
fn accepts_topological_only_extrusion_usage() {
    let mut e = vec![
        bezier(1, vec![4, 4], vec![0.0, 1.0]),
        simple(2, "SURFACE_OF_LINEAR_EXTRUSION", vec![name(), r(1), r(30)]),
        simple(
            3,
            "ADVANCED_FACE",
            vec![name(), Parameter::List(Vec::new()), r(2), word("T")],
        ),
    ];
    assert_eq!(recover_exact_bezier_curves(&mut e).curves_recovered, 1);
}

#[test]
fn rejects_parameterized_surface_consumer() {
    let mut e = vec![
        bezier(1, vec![4, 4], vec![0.0, 1.0]),
        simple(2, "SURFACE_OF_LINEAR_EXTRUSION", vec![name(), r(1), r(30)]),
        simple(3, "RECTANGULAR_TRIMMED_SURFACE", vec![name(), r(2)]),
    ];
    assert_eq!(recover_exact_bezier_curves(&mut e).curves_recovered, 0);
}

fn distance(a: [f64; 3], b: [f64; 3]) -> f64 {
    (0..3).map(|k| (a[k] - b[k]) * (a[k] - b[k])).sum::<f64>().sqrt()
}

/// How poles lie to the x axis, and an edge to the first and the last of them.
fn fit(poles: &[[f64; 3]], start: [f64; 3], end: [f64; 3]) -> LineFit {
    let (first, last) = (poles[0], poles[poles.len() - 1]);
    let near = |a, b| distance(a, b) <= 1.0e-12;
    LineFit {
        collinear: poles.iter().all(|p| p[1].abs() <= 1.0e-12 && p[2].abs() <= 1.0e-12),
        monotonic: poles.windows(2).all(|pair| pair[0][0] <= pair[1][0]),
        start_at_first: near(start, first),
        end_at_last: near(end, last),
        start_at_last: near(start, last),
        end_at_first: near(end, first),
    }
}

const POLES: [[f64; 3]; 4] = [[0.0, 0.0, 0.0], [1.0, 0.0, 0.0], [2.0, 0.0, 0.0], [3.0, 0.0, 0.0]];

fn along_x(curve: u64) -> StraightCurve {
    fitted(curve, fit(&POLES, POLES[0], POLES[3]))
}

fn fitted(curve: u64, fit: LineFit) -> StraightCurve {
    StraightCurve {
        curve,
        fit,
        bucket: 0,
        x: "1".to_string(),
        y: "0".to_string(),
        z: "0".to_string(),
    }
}

#[test]
fn recovers_strict_straight_clamped_spline_and_only_orphan_poles() {
    let mut entities = vec![
        point(1, [0.0, 0.0, 0.0]),
        point(2, [1.0, 0.0, 0.0]),
        point(3, [2.0, 0.0, 0.0]),
        point(4, [3.0, 0.0, 0.0]),
        vertex(5, 1),
        vertex(6, 4),
        spline(7, &[1, 2, 3, 4]),
        edge(8, 5, 6, 7),
    ];
    let evidence = LineEvidence {
        straight: vec![along_x(7)],
        accepted: HashMap::from([(7, vec![7])]),
    };

    let stats = recover_straight_bspline_lines(&mut entities, &evidence);
    assert_eq!(stats.curves_recovered, 1);
    assert_eq!(stats.direction_groups, 1);
    assert_eq!(stats.orphan_points_removed, 2);

    let index = build_index(&entities);
    assert_eq!(record_of(&entities, 7).name, "LINE");
    assert!(index.contains_key(&1));
    assert!(index.contains_key(&4));
    assert!(!index.contains_key(&2));
    assert!(!index.contains_key(&3));
}

#[test]
fn does_not_recover_curved_or_multiply_referenced_splines() {
    let mut curved = vec![
        point(1, [0.0, 0.0, 0.0]),
        point(2, [1.0, 0.1, 0.0]),
        point(3, [2.0, 0.0, 0.0]),
        point(4, [3.0, 0.0, 0.0]),
        vertex(5, 1),
        vertex(6, 4),
        spline(7, &[1, 2, 3, 4]),
        edge(8, 5, 6, 7),
    ];
    let poles = [[0.0, 0.0, 0.0], [1.0, 0.1, 0.0], [2.0, 0.0, 0.0], [3.0, 0.0, 0.0]];
    let evidence = LineEvidence {
        straight: vec![fitted(7, fit(&poles, poles[0], poles[3]))],
        accepted: HashMap::from([(7, vec![7])]),
    };
    assert_eq!(
        recover_straight_bspline_lines(&mut curved, &evidence).curves_recovered,
        0
    );

    let mut shared = vec![
        point(1, [0.0, 0.0, 0.0]),
        point(2, [1.0, 0.0, 0.0]),
        point(3, [2.0, 0.0, 0.0]),
        point(4, [3.0, 0.0, 0.0]),
        vertex(5, 1),
        vertex(6, 4),
        spline(7, &[1, 2, 3, 4]),
        edge(8, 5, 6, 7),
        edge(9, 5, 6, 7),
    ];
    let evidence = LineEvidence {
        straight: vec![along_x(7)],
        accepted: HashMap::from([(7, vec![7])]),
    };
    assert_eq!(
        recover_straight_bspline_lines(&mut shared, &evidence).curves_recovered,
        0
    );
}

#[test]
fn rejects_straight_support_when_edge_vertices_trim_different_endpoints() {
    let mut entities = vec![
        point(1, [0.0, 0.0, 0.0]),
        point(2, [1.0, 0.0, 0.0]),
        point(3, [2.0, 0.0, 0.0]),
        point(4, [3.0, 0.0, 0.0]),
        point(9, [0.25, 0.0, 0.0]),
        point(10, [2.75, 0.0, 0.0]),
        vertex(5, 9),
        vertex(6, 10),
        spline(7, &[1, 2, 3, 4]),
        edge(8, 5, 6, 7),
    ];

    let evidence = LineEvidence {
        straight: vec![fitted(7, fit(&POLES, [0.25, 0.0, 0.0], [2.75, 0.0, 0.0]))],
        accepted: HashMap::from([(7, vec![7])]),
    };
    let stats = recover_straight_bspline_lines(&mut entities, &evidence);
    assert_eq!(stats.curves_recovered, 0);
    assert_eq!(record_of(&entities, 7).name, "B_SPLINE_CURVE_WITH_KNOTS");

    let backward = LineEvidence {
        straight: vec![fitted(7, fit(&POLES, POLES[3], POLES[0]))],
        accepted: HashMap::from([(7, vec![7])]),
    };
    let stats = recover_straight_bspline_lines(&mut entities, &backward);
    assert_eq!(stats.curves_recovered, 1);
}

#[test]
fn shares_proven_parallel_direction_support() {
    let mut entities = vec![
        point(1, [0.0, 0.0, 0.0]),
        point(2, [1.0, 0.0, 0.0]),
        point(3, [2.0, 0.0, 0.0]),
        point(4, [3.0, 0.0, 0.0]),
        point(11, [0.0, 2.0, 0.0]),
        point(12, [1.0, 2.0, 0.0]),
        point(13, [2.0, 2.0, 0.0]),
        point(14, [3.0, 2.0, 0.0]),
        vertex(5, 1),
        vertex(6, 4),
        vertex(15, 11),
        vertex(16, 14),
        spline(7, &[1, 2, 3, 4]),
        spline(17, &[11, 12, 13, 14]),
        edge(8, 5, 6, 7),
        edge(18, 15, 16, 17),
    ];
    let evidence = LineEvidence {
        straight: vec![along_x(7), along_x(17)],
        accepted: HashMap::from([(7, vec![7, 17]), (17, vec![7, 17])]),
    };

    let stats = recover_straight_bspline_lines(&mut entities, &evidence);
    assert_eq!(stats.curves_recovered, 2);
    assert_eq!(stats.direction_groups, 1);
    let vectors = entities
        .iter()
        .filter(|entity| {
            matches!(entity, EntityInstance::Simple { record, .. } if record.name == "VECTOR")
        })
        .count();
    assert_eq!(vectors, 1);
}

#[test]
fn curves_that_nobody_groups_keep_their_own_directions() {
    let mut entities = vec![
        point(1, [0.0, 0.0, 0.0]),
        point(2, [1.0, 0.0, 0.0]),
        point(3, [2.0, 0.0, 0.0]),
        point(4, [3.0, 0.0, 0.0]),
        vertex(5, 1),
        vertex(6, 4),
        spline(7, &[1, 2, 3, 4]),
        edge(8, 5, 6, 7),
        spline(17, &[1, 2, 3, 4]),
        edge(18, 5, 6, 17),
    ];
    let evidence = LineEvidence {
        straight: vec![along_x(7), along_x(17)],
        accepted: HashMap::new(),
    };
    let stats = recover_straight_bspline_lines(&mut entities, &evidence);
    assert_eq!(stats.direction_groups, 2);
    assert_eq!(stats.curves_recovered, 2);
    match &params_of(&entities, 17)[2] {
        Parameter::Ref(Name::Entity(vector)) => assert_eq!(*vector, 22),
        other => panic!("{other:?}"),
    }
}

fn line_curve(id: u64, points: [u64; 2]) -> EntityInstance {
    simple(
        id,
        "B_SPLINE_CURVE_WITH_KNOTS",
        vec![
            name(),
            Parameter::Integer(1),
            Parameter::List(points.into_iter().map(r).collect()),
            word("UNSPECIFIED"),
            word("F"),
            word("F"),
            Parameter::List(vec![Parameter::Integer(2), Parameter::Integer(2)]),
            Parameter::List(vec![float(0.0), float(1.0)]),
            word("UNSPECIFIED"),
        ],
    )
}

fn shift(xyz: [f64; 3]) -> CurveShift {
    CurveShift {
        fits: true,
        still: xyz == [0.0, 0.0, 0.0],
        translation: 1,
        x: format!("{}", xyz[0]),
        y: format!("{}", xyz[1]),
        z: format!("{}", xyz[2]),
    }
}

fn ref_at(params: &Vec<Parameter>, n: usize) -> u64 {
    match &params[n] {
        Parameter::Ref(Name::Entity(id)) => *id,
        other => panic!("{other:?}"),
    }
}

fn replica_origin(entities: &Vec<EntityInstance>, curve_id: u64) -> [f64; 3] {
    assert_eq!(record_of(entities, curve_id).name, "CURVE_REPLICA");
    let transform = ref_at(params_of(entities, curve_id), 2);
    assert_eq!(
        record_of(entities, transform).name,
        "CARTESIAN_TRANSFORMATION_OPERATOR_3D"
    );
    let origin = ref_at(params_of(entities, transform), 5);
    match &params_of(entities, origin)[1] {
        Parameter::List(coords) => {
            let mut out = [0.0; 3];
            for (k, coord) in coords.iter().enumerate() {
                match coord {
                    Parameter::Real(text) => out[k] = text.parse::<f64>().unwrap(),
                    other => panic!("{other:?}"),
                }
            }
            out
        }
        other => panic!("{other:?}"),
    }
}

#[test]
fn replica_transform_uses_parent_to_target_translation() {
    let mut entities = vec![
        point(1, [0.0, 0.0, 0.0]),
        point(2, [1.0, 0.0, 0.0]),
        point(3, [3.0, -2.0, 1.0]),
        point(4, [4.0, -2.0, 1.0]),
        line_curve(10, [1, 2]),
        line_curve(20, [3, 4]),
    ];
    let evidence = CurveEvidence {
        shape: HashMap::from([(10, 0), (20, 0)]),
        shifts: HashMap::from([(20, shift([3.0, -2.0, 1.0]))]),
    };
    let stats = instance_translated_bspline_curves(&mut entities, &evidence);
    assert_eq!(stats.replicas, 1);
    assert_eq!(stats.direct_aliases, 0);
    assert_eq!(replica_origin(&entities, 20), [3.0, -2.0, 1.0]);
}

#[test]
fn sub_geometry_tolerance_translation_is_not_discarded() {
    let delta = 1.0e-8;
    let mut entities = vec![
        point(1, [0.0, 0.0, 0.0]),
        point(2, [1.0, 0.0, 0.0]),
        point(3, [delta, 0.0, 0.0]),
        point(4, [1.0 + delta, 0.0, 0.0]),
        line_curve(10, [1, 2]),
        line_curve(20, [3, 4]),
    ];
    let evidence = CurveEvidence {
        shape: HashMap::from([(10, 0), (20, 0)]),
        shifts: HashMap::from([(20, shift([delta, 0.0, 0.0]))]),
    };
    let stats = instance_translated_bspline_curves(&mut entities, &evidence);
    assert_eq!(stats.direct_aliases, 0);
    assert_eq!(stats.replicas, 1);
    let got = replica_origin(&entities, 20);
    assert!((got[0] - delta).abs() <= 1.0e-15, "{got:?}");
}

#[test]
fn a_curve_in_the_same_place_stands_for_the_other() {
    let mut entities = vec![
        point(1, [0.0, 0.0, 0.0]),
        point(2, [1.0, 0.0, 0.0]),
        point(3, [0.0, 0.0, 0.0]),
        point(4, [1.0, 0.0, 0.0]),
        line_curve(10, [1, 2]),
        line_curve(20, [3, 4]),
        edge(30, 50, 51, 20),
    ];
    let evidence = CurveEvidence {
        shape: HashMap::from([(10, 0), (20, 0)]),
        shifts: HashMap::from([(20, shift([0.0, 0.0, 0.0]))]),
    };
    let stats = instance_translated_bspline_curves(&mut entities, &evidence);
    assert_eq!(stats.families, 1);
    assert_eq!(stats.direct_aliases, 1);
    assert_eq!(stats.replicas, 0);
    assert_eq!(stats.entities_removed, 3);
    assert_eq!(ref_at(params_of(&entities, 30), 3), 10);
    assert!(!build_index(&entities).contains_key(&20));
}

#[test]
fn curves_with_other_knots_are_no_family() {
    let mut entities = vec![
        point(1, [0.0, 0.0, 0.0]),
        point(2, [1.0, 0.0, 0.0]),
        spline_with(10, vec![1, 2], vec![2, 2], vec![0.0, 1.0]),
        spline_with(20, vec![1, 2], vec![2, 2], vec![0.0, 2.0]),
    ];
    let evidence = CurveEvidence {
        shape: HashMap::from([(10, 0), (20, 0)]),
        shifts: HashMap::from([(20, shift([0.0, 0.0, 0.0]))]),
    };
    let stats = instance_translated_bspline_curves(&mut entities, &evidence);
    assert_eq!(stats.families, 0);
    assert_eq!(entities.len(), 4);
}

fn face(id: u64, surface: u64) -> EntityInstance {
    simple(
        id,
        "ADVANCED_FACE",
        vec![name(), Parameter::List(Vec::new()), r(surface), word("T")],
    )
}

#[test]
fn planes_in_one_place_are_shared_by_faces() {
    let plane = |id: u64, axis: u64| simple(id, "PLANE", vec![name(), r(axis)]);
    let axis = |id: u64| simple(id, "AXIS2_PLACEMENT_3D", vec![name(), r(60)]);
    let mut entities = vec![
        point(60, [0.0, 0.0, 0.0]),
        axis(1),
        axis(2),
        axis(3),
        plane(11, 1),
        plane(12, 2),
        plane(13, 3),
        face(21, 11),
        face(22, 12),
        face(23, 13),
        simple(24, "PCURVE", vec![name(), r(13)]),
    ];
    let place = HashMap::from([(11, 7), (12, 7), (13, 7)]);
    let stats = intern_geometric_supports(&mut entities, &place);
    assert_eq!(stats.supports_merged, 1);
    assert_eq!(stats.planes_merged, 1);
    assert_eq!(stats.lines_merged, 0);
    assert_eq!(stats.entities_removed, 2);
    assert_eq!(ref_at(params_of(&entities, 22), 2), 11);
    assert_eq!(ref_at(params_of(&entities, 23), 2), 13);
    let index = build_index(&entities);
    assert!(!index.contains_key(&12));
    assert!(!index.contains_key(&2));
    assert!(index.contains_key(&60));
}
