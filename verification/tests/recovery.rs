use step_redox::cad_ir::{
    CadFragmentSource, CadNode, Curve2d, NodeId, PatternSpec, Profile2d, ProfileLoop, ProofStatus,
    RigidTransform, Scalar,
};
use step_redox::cad_kernel::{check_curve, check_profile, plan_node, KernelError};
use step_redox::cad_model::{CadModel, ModelError};
use step_redox::cad_recovery::{
    recover_instance_pattern_fragment, recover_instance_pattern_fragments,
    recover_solid_extrusion_fragment, recover_solid_extrusion_fragments,
    recover_solid_revolution_fragment, recover_solid_revolution_fragments, FrameCheck,
    LatticeCheck, MeridianCheck, RecoveredSolidExtrusion, RecoveredSolidRevolution, RecoveryError,
    RevolutionCheck,
};
use step_redox::patterns::InstancePattern;
use step_redox::profile_curves::{CurveError, RecoveredProfileCurve};

const SUPPORT_TOLERANCE: f64 = 1.0e-6;

fn scalar(value: f64) -> Scalar {
    Scalar(value.to_bits())
}

fn pair(values: [f64; 2]) -> [Scalar; 2] {
    [scalar(values[0]), scalar(values[1])]
}

fn vector(values: [f64; 3]) -> [Scalar; 3] {
    [scalar(values[0]), scalar(values[1]), scalar(values[2])]
}

fn line(source: &[u64], start: [f64; 2], end: [f64; 2]) -> RecoveredProfileCurve {
    RecoveredProfileCurve::Line {
        source_edge_ids: source.to_vec(),
        start: pair(start),
        end: pair(end),
    }
}

fn rectangle(first: u64, low: [f64; 2], high: [f64; 2]) -> Vec<RecoveredProfileCurve> {
    vec![
        line(&[first], low, [high[0], low[1]]),
        line(&[first + 1], [high[0], low[1]], high),
        line(&[first + 2], high, [low[0], high[1]]),
        line(&[first + 3], [low[0], high[1]], low),
    ]
}

fn good_frame() -> FrameCheck {
    FrameCheck {
        unit: true,
        orthogonal: true,
        right_handed: true,
    }
}

fn extrusion() -> RecoveredSolidExtrusion {
    RecoveredSolidExtrusion {
        solid_id: 10,
        cap_face_ids: [20, 21],
        side_face_ids: vec![30, 31, 32, 33],
        profile_curves: rectangle(100, [0.0, 0.0], [4.0, 2.0]),
        inner_profile_loops: Vec::new(),
        origin: vector([12.0, -3.0, 7.0]),
        x_axis: vector([0.0, 1.0, 0.0]),
        y_axis: vector([0.0, 0.0, 1.0]),
        z_axis: vector([1.0, 0.0, 0.0]),
        height: scalar(5.0),
        max_residual: scalar(2.0e-12),
    }
}

fn rows(matrix: &[[Scalar; 4]; 4]) -> Vec<Vec<f64>> {
    matrix
        .iter()
        .map(|row| row.iter().map(|value| f64::from_bits(value.0)).collect())
        .collect()
}

#[test]
fn solid_extrusion_becomes_local_extrude_plus_world_frame() {
    let fragment = recover_solid_extrusion_fragment(&extrusion(), &good_frame()).unwrap();
    let CadNode::Transform { transform, child } = fragment.model.node(fragment.root).unwrap()
    else {
        panic!("expected transform root");
    };
    assert_eq!(
        rows(&transform.matrix),
        vec![
            vec![0.0, 0.0, 1.0, 12.0],
            vec![1.0, 0.0, 0.0, -3.0],
            vec![0.0, 1.0, 0.0, 7.0],
            vec![0.0, 0.0, 0.0, 1.0],
        ]
    );
    let CadNode::Extrude { profile, vector: along } = fragment.model.node(*child).unwrap() else {
        panic!("expected local extrusion child");
    };
    assert_eq!(*along, vector([0.0, 0.0, 5.0]));
    assert_eq!(
        profile.single_polygon_points(),
        Some(vec![
            pair([0.0, 0.0]),
            pair([4.0, 0.0]),
            pair([4.0, 2.0]),
            pair([0.0, 2.0])
        ])
    );
    let about = &fragment.model.provenance[&(fragment.root.0 as u64)];
    assert_eq!(about.proof, ProofStatus::WithinTolerance);
    assert_eq!(about.max_residual, Some(scalar(2.0e-12)));
    assert_eq!(
        about.source_entity_ids,
        vec![10, 20, 21, 30, 31, 32, 33, 100, 101, 102, 103]
    );
    assert!(fragment.model.validate().is_ok());

    let mut holed = extrusion();
    holed.inner_profile_loops = vec![vec![
        line(&[200], [1.0, 0.5], [1.0, 1.5]),
        line(&[201], [1.0, 1.5], [3.0, 1.5]),
        line(&[202], [3.0, 1.5], [3.0, 0.5]),
        line(&[203], [3.0, 0.5], [1.0, 0.5]),
    ]];
    let fragment = recover_solid_extrusion_fragment(&holed, &good_frame()).unwrap();
    let CadNode::Transform { child, .. } = fragment.model.node(fragment.root).unwrap() else {
        panic!("expected transform root");
    };
    let CadNode::Extrude { profile, .. } = fragment.model.node(*child).unwrap() else {
        panic!("expected local extrusion child");
    };
    assert_eq!(profile.loops.len(), 2);
    for source_id in 200..=203 {
        assert!(fragment.model.provenance[&(fragment.root.0 as u64)]
            .source_entity_ids
            .contains(&source_id));
    }
    assert!(matches!(
        fragment.source,
        CadFragmentSource::SolidExtrusion { solid_id: 10, .. }
    ));
}

fn revolution() -> RecoveredSolidRevolution {
    RecoveredSolidRevolution {
        solid_id: 50,
        face_ids: vec![60, 61, 62],
        profile_curves: vec![
            line(&[], [0.0, 0.0], [2.0, 0.0]),
            line(&[], [2.0, 0.0], [2.0, 3.0]),
            line(&[], [2.0, 3.0], [0.0, 3.0]),
            line(&[], [0.0, 3.0], [0.0, 0.0]),
        ],
        axis_origin: vector([10.0, 20.0, 30.0]),
        axis_direction: vector([0.0, 1.0, 0.0]),
        radial_direction: vector([1.0, 0.0, 0.0]),
        max_residual: scalar(0.5 * SUPPORT_TOLERANCE),
        source_tolerance: scalar(SUPPORT_TOLERANCE),
    }
}

fn revolution_check(revolution: &RecoveredSolidRevolution) -> RevolutionCheck {
    let residual = f64::from_bits(revolution.max_residual.0);
    let tolerance = f64::from_bits(revolution.source_tolerance.0);
    RevolutionCheck {
        curves: revolution
            .profile_curves
            .iter()
            .map(|_| MeridianCheck {
                sweeps: true,
                beside_axis: true,
                joined: true,
            })
            .collect(),
        orthonormal: true,
        unit_normal: true,
        tolerance_fits: (SUPPORT_TOLERANCE..=10.0 * SUPPORT_TOLERANCE).contains(&tolerance),
        residual_fits: residual >= 0.0 && residual <= tolerance + 1.0e-15,
        z_axis: vector([0.0, 0.0, 1.0]),
    }
}

#[test]
fn solid_revolution_becomes_local_full_revolve_plus_world_frame() {
    let revolved = revolution();
    let check = revolution_check(&revolved);
    let fragment = recover_solid_revolution_fragment(&revolved, &check).unwrap();
    let CadNode::Transform { transform, child } = fragment.model.node(fragment.root).unwrap()
    else {
        panic!("expected transform root");
    };
    assert_eq!(
        rows(&transform.matrix),
        vec![
            vec![1.0, 0.0, 0.0, 10.0],
            vec![0.0, 1.0, 0.0, 20.0],
            vec![0.0, 0.0, 1.0, 30.0],
            vec![0.0, 0.0, 0.0, 1.0],
        ]
    );
    let CadNode::Revolve {
        profile,
        axis,
        angle,
    } = fragment.model.node(*child).unwrap()
    else {
        panic!("expected local revolution child");
    };
    assert_eq!(
        profile.single_polygon_points(),
        Some(vec![
            pair([0.0, 0.0]),
            pair([2.0, 0.0]),
            pair([2.0, 3.0]),
            pair([0.0, 3.0])
        ])
    );
    assert_eq!(axis.origin, vector([0.0, 0.0, 0.0]));
    assert_eq!(axis.direction, vector([0.0, 1.0, 0.0]));
    assert_eq!(*angle, scalar(std::f64::consts::TAU));
    assert_eq!(
        fragment.model.provenance[&(fragment.root.0 as u64)].max_residual,
        Some(scalar(0.5 * SUPPORT_TOLERANCE))
    );

    let mut excessive_residual = revolution();
    excessive_residual.max_residual = scalar(2.0 * SUPPORT_TOLERANCE);
    let check = revolution_check(&excessive_residual);
    assert!(matches!(
        recover_solid_revolution_fragment(&excessive_residual, &check),
        Err(RecoveryError::BadResidual)
    ));
    let mut excessive_tolerance = revolution();
    excessive_tolerance.source_tolerance = scalar(20.0 * SUPPORT_TOLERANCE);
    let check = revolution_check(&excessive_tolerance);
    assert!(matches!(
        recover_solid_revolution_fragment(&excessive_tolerance, &check),
        Err(RecoveryError::BadTolerance)
    ));
    let mut too_strict_tolerance = revolution();
    too_strict_tolerance.source_tolerance = scalar(0.5 * SUPPORT_TOLERANCE);
    let check = revolution_check(&too_strict_tolerance);
    assert!(recover_solid_revolution_fragment(&too_strict_tolerance, &check).is_err());
}

#[test]
fn meridians_beside_the_axis_are_needed() {
    let mut revolved = revolution();
    revolved.profile_curves[0] = line(&[], [-1.0, 0.0], [2.0, 0.0]);
    let check = revolution_check(&revolved);
    assert!(matches!(
        recover_solid_revolution_fragment(&revolved, &check),
        Err(RecoveryError::NegativeRadius)
    ));
    let arc = || RecoveredProfileCurve::CircleArc {
        source_edge_ids: Vec::new(),
        center: pair([1.0, 0.0]),
        radius: scalar(1.0),
        start_angle: scalar(0.0),
        end_angle: scalar(1.0),
    };
    let fault = |change: fn(&mut RevolutionCheck), curve: RecoveredProfileCurve| {
        let mut revolved = revolution();
        revolved.profile_curves[1] = curve;
        let mut check = revolution_check(&revolved);
        change(&mut check);
        recover_solid_revolution_fragment(&revolved, &check).err()
    };
    assert_eq!(fault(|_| (), arc()), None);
    assert_eq!(
        fault(|c| c.curves[1].sweeps = false, arc()),
        Some(RecoveryError::BadSweep)
    );
    assert_eq!(
        fault(|c| c.curves[1].beside_axis = false, arc()),
        Some(RecoveryError::CrossesAxis)
    );
    assert_eq!(
        fault(|c| c.curves[3].joined = false, arc()),
        Some(RecoveryError::NotContinuous)
    );
    assert_eq!(
        fault(|c| c.orthonormal = false, arc()),
        Some(RecoveryError::FrameNotOrthogonal)
    );
    assert_eq!(
        fault(|c| c.unit_normal = false, arc()),
        Some(RecoveryError::FrameNotUnit)
    );
    let bezier = RecoveredProfileCurve::Bezier {
        source_edge_ids: Vec::new(),
        control_points: vec![pair([0.0, 0.0]), pair([1.0, 1.0])],
    };
    assert_eq!(fault(|_| (), bezier), Some(RecoveryError::SplineMeridian));
    let both = vec![revolution(), revolution()];
    let checks = both.iter().map(revolution_check).collect();
    assert_eq!(recover_solid_revolution_fragments(&both, &checks).unwrap().len(), 2);
}

fn with_curves(curves: Vec<RecoveredProfileCurve>) -> RecoveredSolidExtrusion {
    RecoveredSolidExtrusion {
        solid_id: 10,
        cap_face_ids: [20, 21],
        side_face_ids: vec![30],
        profile_curves: curves,
        inner_profile_loops: Vec::new(),
        origin: vector([0.0, 0.0, 0.0]),
        x_axis: vector([1.0, 0.0, 0.0]),
        y_axis: vector([0.0, 1.0, 0.0]),
        z_axis: vector([0.0, 0.0, 1.0]),
        height: scalar(1.0),
        max_residual: scalar(0.0),
    }
}

fn spline(source: u64, degree: usize, points: &[[f64; 2]], knots: &[f64], weights: Option<&[f64]>) -> RecoveredProfileCurve {
    RecoveredProfileCurve::BSpline {
        source_edge_ids: vec![source],
        degree,
        control_points: points.iter().map(|p| pair(*p)).collect(),
        knots: knots.iter().map(|k| scalar(*k)).collect(),
        weights: weights.map(|w| w.iter().map(|x| scalar(*x)).collect()),
    }
}

fn extrusion_error(extrusion: &RecoveredSolidExtrusion) -> RecoveryError {
    recover_solid_extrusion_fragment(extrusion, &good_frame()).unwrap_err()
}

#[test]
fn malformed_spline_extrusions_fail_closed() {
    let base = with_curves(vec![RecoveredProfileCurve::Bezier {
        source_edge_ids: vec![100],
        control_points: Vec::new(),
    }]);
    assert_eq!(extrusion_error(&base), RecoveryError::Curve(CurveError::BadBezier));

    let mut empty_inner_loop = with_curves(vec![
        line(&[104], [0.0, 0.0], [1.0, 0.0]),
        line(&[105], [1.0, 0.0], [0.0, 0.0]),
    ]);
    empty_inner_loop.inner_profile_loops = vec![Vec::new()];
    assert_eq!(extrusion_error(&empty_inner_loop), RecoveryError::EmptyLoop(1));

    let points = [[0.0, 0.0], [1.0, 1.0], [2.0, 0.0]];
    let invalid = with_curves(vec![spline(
        101,
        2,
        &points,
        &[0.0, 0.0, 1.0],
        Some(&[1.0, -1.0, 1.0]),
    )]);
    assert_eq!(extrusion_error(&invalid), RecoveryError::Curve(CurveError::BadSpline));

    let overflowing = with_curves(vec![spline(
        102,
        usize::MAX,
        &[[0.0, 0.0], [1.0, 1.0]],
        &[],
        None,
    )]);
    assert_eq!(
        extrusion_error(&overflowing),
        RecoveryError::Curve(CurveError::DegreeOverflow)
    );

    let unclamped = with_curves(vec![spline(
        103,
        2,
        &points,
        &[0.0, 0.1, 0.2, 0.8, 0.9, 1.0],
        None,
    )]);
    assert_eq!(extrusion_error(&unclamped), RecoveryError::Curve(CurveError::BadSpline));

    let weighted = with_curves(vec![spline(
        103,
        2,
        &points,
        &[0.0, 0.0, 0.0, 1.0, 1.0, 1.0],
        Some(&[1.0, -1.0, 1.0]),
    )]);
    assert_eq!(extrusion_error(&weighted), RecoveryError::Curve(CurveError::BadWeights));
    let good = with_curves(vec![spline(
        103,
        2,
        &points,
        &[0.0, 0.0, 0.0, 1.0, 1.0, 1.0],
        Some(&[1.0, 0.5, 1.0]),
    )]);
    assert!(recover_solid_extrusion_fragment(&good, &good_frame()).is_ok());
}

#[test]
fn malformed_extrusions_fail() {
    assert_eq!(extrusion_error(&with_curves(Vec::new())), RecoveryError::EmptyProfile);
    assert_eq!(
        extrusion_error(&with_curves(vec![line(&[], [0.0, 0.0], [1.0, 0.0])])),
        RecoveryError::Curve(CurveError::NoSourceEdges)
    );
    assert_eq!(
        extrusion_error(&with_curves(vec![line(&[1], [0.0, 0.0], [-0.0, 0.0])])),
        RecoveryError::Curve(CurveError::BadLine)
    );
    let arc = |radius: f64| RecoveredProfileCurve::CircleArc {
        source_edge_ids: vec![1],
        center: pair([0.0, 0.0]),
        radius: scalar(radius),
        start_angle: scalar(0.0),
        end_angle: scalar(1.0),
    };
    assert_eq!(
        extrusion_error(&with_curves(vec![arc(0.0)])),
        RecoveryError::Curve(CurveError::BadArc)
    );
    let fault = |change: fn(&mut RecoveredSolidExtrusion)| {
        let mut extrusion = extrusion();
        change(&mut extrusion);
        extrusion_error(&extrusion)
    };
    assert_eq!(fault(|e| e.height = scalar(0.0)), RecoveryError::BadHeight);
    assert_eq!(fault(|e| e.height = scalar(-1.0)), RecoveryError::BadHeight);
    assert_eq!(fault(|e| e.max_residual = scalar(1.1e-7)), RecoveryError::BadResidual);
    assert_eq!(fault(|e| e.max_residual = scalar(f64::NAN)), RecoveryError::BadResidual);
    assert_eq!(
        fault(|e| e.origin[1] = scalar(f64::INFINITY)),
        RecoveryError::FrameNotFinite
    );
    let mut exact = extrusion();
    exact.max_residual = scalar(1.0e-7 + 1.0e-15);
    assert!(recover_solid_extrusion_fragment(&exact, &good_frame()).is_ok());
    let mut frame = good_frame();
    frame.right_handed = false;
    assert_eq!(
        recover_solid_extrusion_fragment(&exact, &frame).unwrap_err(),
        RecoveryError::FrameNotRightHanded
    );
    frame.orthogonal = false;
    assert_eq!(
        recover_solid_extrusion_fragment(&exact, &frame).unwrap_err(),
        RecoveryError::FrameNotOrthogonal
    );
    frame.unit = false;
    assert_eq!(
        recover_solid_extrusion_fragment(&exact, &frame).unwrap_err(),
        RecoveryError::FrameNotUnit
    );
    let several = vec![extrusion(), with_curves(Vec::new())];
    assert_eq!(
        recover_solid_extrusion_fragments(&several, &vec![good_frame(), good_frame()]).unwrap_err(),
        RecoveryError::EmptyProfile
    );
}

fn linear_pattern(occupancy: Vec<[i64; 2]>, span: usize, residual: f64) -> InstancePattern {
    let fill_ratio = occupancy.len() as f64 / span as f64;
    InstancePattern {
        parent_representation: 100,
        representation_map: 200,
        item_ids: (0..occupancy.len()).map(|index| 300 + index as u64).collect(),
        style_signature: vec![vec![700]],
        dimension: 1,
        origin: [12.0f64.to_bits(), 3.0f64.to_bits(), (-1.0f64).to_bits()],
        basis: vec![[2.54f64.to_bits(), 0, 0]],
        pitch: vec![2.54f64.to_bits()],
        occupancy,
        grid_shape: vec![span],
        fill_ratio: fill_ratio.to_bits(),
        max_residual: residual.to_bits(),
    }
}

fn lattice_check(pattern: &InstancePattern) -> LatticeCheck {
    LatticeCheck {
        tolerance_fits: true,
        residual_fits: true,
        fill_agrees: true,
        lengths_agree: pattern.pitch.iter().map(|_| true).collect(),
        steps: pattern
            .basis
            .iter()
            .map(|b| [Scalar(b[0]), Scalar(b[1]), Scalar(b[2])])
            .collect(),
        residual: Scalar(pattern.max_residual),
    }
}

#[test]
fn full_linear_pattern_becomes_constructive_pattern_over_first_occurrence() {
    let pattern = linear_pattern(vec![[0, 0], [1, 0], [2, 0], [3, 0]], 4, 0.0);
    let fragment = recover_instance_pattern_fragment(&pattern, &lattice_check(&pattern)).unwrap();
    let CadNode::Pattern {
        pattern: PatternSpec::Linear { count, step },
        child,
    } = fragment.model.node(fragment.root).unwrap()
    else {
        panic!("expected linear pattern root");
    };
    assert_eq!(*count, 4);
    assert_eq!(*step, vector([2.54, 0.0, 0.0]));
    let CadNode::BrepFallback(fallback) = fragment.model.node(*child).unwrap() else {
        panic!("expected B-rep fallback child");
    };
    assert_eq!(fallback.source_entity_ids, vec![300]);
    assert_eq!(
        fragment.model.provenance[&(fragment.root.0 as u64)].proof,
        ProofStatus::WithinTolerance
    );
    assert_eq!(
        fragment.model.provenance[&(child.0 as u64)].source_entity_ids,
        vec![300, 200]
    );
}

#[test]
fn sparse_linear_pattern_preserves_holes_as_grid_occupancy() {
    let pattern = linear_pattern(vec![[0, 0], [2, 0], [4, 0]], 5, 3.0e-8);
    let fragment = recover_instance_pattern_fragment(&pattern, &lattice_check(&pattern)).unwrap();
    let CadNode::Pattern {
        pattern: PatternSpec::Grid {
            counts, occupancy, ..
        },
        ..
    } = fragment.model.node(fragment.root).unwrap()
    else {
        panic!("expected sparse grid pattern root");
    };
    assert_eq!(*counts, [5, 1, 1]);
    assert_eq!(
        occupancy.as_deref(),
        Some(&[[0, 0, 0], [2, 0, 0], [4, 0, 0]][..])
    );
    assert_eq!(
        fragment.model.provenance[&(fragment.root.0 as u64)].proof,
        ProofStatus::WithinTolerance
    );
    assert_eq!(
        fragment.model.provenance[&(fragment.root.0 as u64)].max_residual,
        Some(scalar(3.0e-8))
    );
}

fn grid_pattern() -> InstancePattern {
    let mut pattern = linear_pattern(vec![[0, 0], [0, 1], [1, 0], [1, 1]], 4, 0.0);
    pattern.parent_representation = 10;
    pattern.representation_map = 20;
    pattern.item_ids = vec![30, 31, 32, 33];
    pattern.dimension = 2;
    pattern.basis = vec![[1.0f64.to_bits(), 0, 0], [0, 2.0f64.to_bits(), 0]];
    pattern.pitch = vec![1.0f64.to_bits(), 2.0f64.to_bits()];
    pattern.grid_shape = vec![2, 2];
    pattern
}

#[test]
fn full_two_dimensional_pattern_becomes_grid() {
    let pattern = grid_pattern();
    let fragment = recover_instance_pattern_fragment(&pattern, &lattice_check(&pattern)).unwrap();
    let CadNode::Pattern {
        pattern: PatternSpec::Grid {
            counts, occupancy, ..
        },
        ..
    } = fragment.model.node(fragment.root).unwrap()
    else {
        panic!("expected grid pattern root");
    };
    assert_eq!(*counts, [2, 2, 1]);
    assert!(occupancy.is_none());
}

#[test]
fn malformed_pattern_fails_closed() {
    let mut pattern = linear_pattern(vec![[0, 0], [1, 0]], 2, 0.0);
    pattern.occupancy[0] = [1, 0];
    assert!(recover_instance_pattern_fragment(&pattern, &lattice_check(&pattern)).is_err());
}

#[test]
fn lattices_are_refused_for_each_fault() {
    let fault = |change: fn(&mut InstancePattern, &mut LatticeCheck)| {
        let mut pattern = grid_pattern();
        let mut check = lattice_check(&pattern);
        change(&mut pattern, &mut check);
        recover_instance_pattern_fragment(&pattern, &check).unwrap_err()
    };
    assert_eq!(fault(|p, _| p.item_ids.truncate(1)), RecoveryError::TooFewItems);
    assert_eq!(fault(|p, _| p.item_ids.truncate(3)), RecoveryError::OccupancyMismatch);
    assert_eq!(fault(|_, c| c.tolerance_fits = false), RecoveryError::BadTolerance);
    assert_eq!(fault(|_, c| c.residual_fits = false), RecoveryError::BadResidual);
    assert_eq!(
        fault(|p, _| p.origin[2] = f64::NAN.to_bits()),
        RecoveryError::OriginNotFinite
    );
    assert_eq!(fault(|p, _| p.occupancy[0] = [1, 1]), RecoveryError::NotAtOrigin);
    assert_eq!(fault(|p, _| p.dimension = 3), RecoveryError::BadDimension);
    assert_eq!(fault(|p, _| p.dimension = 1), RecoveryError::InconsistentDimensions);
    assert_eq!(fault(|p, _| p.grid_shape[1] = 0), RecoveryError::ZeroDimension);
    assert_eq!(fault(|_, c| c.fill_agrees = false), RecoveryError::BadFill);
    assert_eq!(fault(|p, _| p.pitch[1] = 0), RecoveryError::AxisNotPositive(1));
    assert_eq!(fault(|_, c| c.lengths_agree[0] = false), RecoveryError::LengthDisagrees(0));
    assert_eq!(fault(|p, _| p.occupancy[3] = [1, 0]), RecoveryError::DuplicateSite);
    assert_eq!(fault(|p, _| p.occupancy[3] = [1, 5]), RecoveryError::OutsideGrid);
    let patterns = vec![grid_pattern(), grid_pattern()];
    let checks = patterns.iter().map(lattice_check).collect();
    assert_eq!(recover_instance_pattern_fragments(&patterns, &checks).unwrap().len(), 2);
}

fn box_model() -> (CadModel, NodeId) {
    let mut model = CadModel::new();
    let corners = [[0.0, 0.0], [4.0, 0.0], [4.0, 2.0], [0.0, 2.0]];
    let points = corners.iter().map(|p| pair(*p)).collect();
    let body = model.add_node(CadNode::Extrude {
        profile: Profile2d::polygon(&points).unwrap(),
        vector: vector([0.0, 0.0, 3.0]),
    });
    model.add_root(body).unwrap();
    (model, body)
}

#[test]
fn refuses_unimplemented_pattern_execution() {
    let (mut model, body) = box_model();
    model.roots.clear();
    let patterned = model.add_node(CadNode::Pattern {
        pattern: PatternSpec::Linear {
            count: 4,
            step: vector([2.54, 0.0, 0.0]),
        },
        child: body,
    });
    model.add_root(patterned).unwrap();
    assert_eq!(
        plan_node(&model, patterned).unwrap_err(),
        KernelError::Unsupported(patterned)
    );
}

#[test]
fn malformed_bspline_profile_fails_closed() {
    let curve = Curve2d::BSpline {
        degree: usize::MAX,
        control_points: vec![pair([2.0, 0.0]), pair([1.0, 1.0]), pair([0.0, 0.0])],
        knots: Vec::new(),
        weights: None,
    };
    assert_eq!(check_curve(&curve), Some(KernelError::DegreeOverflow));
}

#[test]
fn kernels_build_bodies_under_frames() {
    let (mut model, body) = box_model();
    let near = model.add_node(CadNode::Transform {
        transform: RigidTransform::identity(),
        child: body,
    });
    let far = model.add_node(CadNode::Transform {
        transform: RigidTransform::translation_mm(vector([1.0, 2.0, 3.0])),
        child: near,
    });
    let plan = plan_node(&model, far).unwrap();
    assert_eq!(plan.body, body);
    assert_eq!(plan.frames, vec![far, near]);
    assert_eq!(
        plan_node(&model, NodeId(9)).unwrap_err(),
        KernelError::Model(ModelError::OutOfRange)
    );
    let points = vec![pair([0.0, 0.0]), pair([1.0, 0.0]), pair([0.0, 1.0])];
    let slanted = model.add_node(CadNode::Extrude {
        profile: Profile2d::polygon(&points).unwrap(),
        vector: vector([1.0, 0.0, 3.0]),
    });
    assert_eq!(plan_node(&model, slanted).unwrap_err(), KernelError::NotAlongZ);
    let around = NodeId(model.nodes.len());
    model.add_node(CadNode::Transform {
        transform: RigidTransform::identity(),
        child: around,
    });
    assert_eq!(
        plan_node(&model, around).unwrap_err(),
        KernelError::Model(ModelError::Cycle)
    );
}

#[test]
fn kernels_refuse_profiles_that_are_none() {
    let one = |curves: Vec<Curve2d>| Profile2d {
        loops: vec![ProfileLoop { curves }],
    };
    let side = || Curve2d::Line {
        start: pair([0.0, 0.0]),
        end: pair([1.0, 0.0]),
    };
    assert_eq!(check_profile(&one(vec![side()]), scalar(1.0)), None);
    assert_eq!(
        check_profile(&one(vec![side()]), scalar(0.0)),
        Some(KernelError::BadLength)
    );
    assert_eq!(
        check_profile(&one(Vec::new()), scalar(1.0)),
        Some(KernelError::EmptyLoop)
    );
    assert_eq!(
        check_profile(&Profile2d { loops: Vec::new() }, scalar(1.0)),
        Some(KernelError::SeveralLoops)
    );
    let bezier = |points: Vec<[Scalar; 2]>| Curve2d::Bezier {
        control_points: points,
    };
    assert_eq!(check_curve(&bezier(Vec::new())), Some(KernelError::NoControlPoints));
    assert_eq!(
        check_curve(&bezier(vec![pair([0.0, 0.0])])),
        Some(KernelError::TooFewControlPoints)
    );
    assert_eq!(check_curve(&side()), None);
}
