//! What models of solids and of lattices say, and how counts add up.

use vstd::prelude::*;

use crate::cad_ir::{CadNode, Curve2d, PatternSpec, RigidTransform, Scalar, ONE_BITS};
use crate::cad_recovery::{
    is_extrusion_model, is_loop_copy, is_on_grid, is_revolution_model, is_spec, lattice_fault,
    loops_of, sites_fault, CadFragment, LatticeCheck, RecoveredSolidExtrusion,
    RecoveredSolidRevolution, RevolutionCheck,
};
use crate::counts::summed;
use crate::patterns::InstancePattern;
use crate::periodic_resize::PeriodicChainResizeStats;
use crate::profile_curves::RecoveredProfileCurve;
use crate::resize::combined_chain_stats;
use crate::stats::{added, no_counts, PassCounters};

verus! {

/// Where a matrix takes the direction of an axis, or the origin.
pub open spec fn column(transform: RigidTransform, n: int) -> Seq<Scalar> {
    seq![
        transform.matrix@[0]@[n],
        transform.matrix@[1]@[n],
        transform.matrix@[2]@[n],
    ]
}

/// Whether a matrix is that of a map without perspective.
pub open spec fn is_affine(transform: RigidTransform) -> bool {
    &&& transform.matrix@[3]@[0] == Scalar(0)
    &&& transform.matrix@[3]@[1] == Scalar(0)
    &&& transform.matrix@[3]@[2] == Scalar(0)
    &&& transform.matrix@[3]@[3] == Scalar(ONE_BITS)
}

/// Adding nothing changes no count, and it does not matter what is added to what.
pub proof fn law_counts_add_up(a: PassCounters, b: PassCounters)
    ensures
        added(a, no_counts()) == a,
        added(no_counts(), a) == a,
        added(a, b) == added(b, a),
{
    reveal(added);
}

/// Adding no labels changes no count, and it does not matter what is added to what.
pub proof fn law_labels_add_up(a: Map<Seq<char>, usize>, b: Map<Seq<char>, usize>)
    ensures
        summed(a, Map::empty()) == a,
        summed(Map::empty(), a) == a,
        summed(a, b) == summed(b, a),
{
    assert(summed(a, Map::empty()) =~= a);
    assert(summed(Map::empty(), a) =~= a);
    assert(summed(a, b) =~= summed(b, a));
}

/// What two edits have changed together does not depend on their order, and where one of them
/// has changed nothing, it is what the other one has changed.
pub proof fn law_edits_add_up(
    a: PeriodicChainResizeStats,
    b: PeriodicChainResizeStats,
    old_sites: usize,
    new_sites: usize,
)
    ensures
        combined_chain_stats(a, b, old_sites, new_sites) == combined_chain_stats(
            b,
            a,
            old_sites,
            new_sites,
        ),
        combined_chain_stats(
            a,
            PeriodicChainResizeStats {
                old_sites: 0,
                new_sites: 0,
                inserted_units: 0,
                removed_units: 0,
                seam_edge_pairs: 0,
                welded_vertices: 0,
                welded_edges: 0,
                rebuilt_stretch_faces: 0,
                new_stretch_edges: 0,
                added_entities: 0,
                pruned_entities: 0,
                entity_delta: 0,
            },
            a.old_sites,
            a.new_sites,
        ) == a,
{
}

/// Whether a curve of a model goes where one that was found goes, from its start to its end.
pub open spec fn goes_along(found: RecoveredProfileCurve, curve: Curve2d) -> bool {
    match found {
        RecoveredProfileCurve::Line { start, end, .. } => {
            &&& curve is Line
            &&& curve->Line_start == start
            &&& curve->Line_end == end
        },
        RecoveredProfileCurve::CircleArc { center, radius, start_angle, end_angle, .. } => {
            &&& curve is CircleArc
            &&& curve->CircleArc_center == center
            &&& curve->CircleArc_radius == radius
            &&& curve->CircleArc_start_angle == start_angle
            &&& curve->CircleArc_end_angle == end_angle
        },
        RecoveredProfileCurve::Bezier { control_points, .. } => {
            &&& curve is Bezier
            &&& curve->Bezier_control_points@ == control_points@
        },
        RecoveredProfileCurve::BSpline { degree, control_points, knots, weights, .. } => {
            &&& curve is BSpline
            &&& curve->BSpline_degree == degree
            &&& curve->BSpline_control_points@ == control_points@
            &&& curve->BSpline_knots@ == knots@
            &&& (curve->BSpline_weights is Some) == (weights is Some)
            &&& weights is Some ==> curve->BSpline_weights->Some_0@ == weights->Some_0@
        },
    }
}

/// The model of an extrusion has the outer loop first and then the inner ones, curve by curve.
/// It is pushed straight up by the height, and placed so that the axes of its plane, the
/// direction that it is pushed in, and its origin come to lie where they were found.
pub proof fn law_extrusion_stands_where_found(
    extrusion: RecoveredSolidExtrusion,
    fragment: CadFragment,
    n: int,
)
    requires
        is_extrusion_model(extrusion, fragment),
    ensures
        ({
            &&& fragment.model.nodes@[0] matches CadNode::Extrude { profile, vector }
            &&& vector@[0] == Scalar(0) && vector@[1] == Scalar(0)
            &&& vector@[2] == extrusion.height
            &&& profile.loops@.len() == extrusion.inner_profile_loops@.len() + 1
            &&& profile.loops@[0].curves@.len() == extrusion.profile_curves@.len()
            &&& 0 <= n < extrusion.profile_curves@.len() ==> goes_along(
                extrusion.profile_curves@[n],
                profile.loops@[0].curves@[n],
            )
            &&& fragment.model.nodes@[1] matches CadNode::Transform { transform, .. }
            &&& is_affine(transform)
            &&& column(transform, 0) == extrusion.x_axis@
            &&& column(transform, 1) == extrusion.y_axis@
            &&& column(transform, 2) == extrusion.z_axis@
            &&& column(transform, 3) == extrusion.origin@
        }),
{
    let profile = fragment.model.nodes@[0]->Extrude_profile;
    let transform = fragment.model.nodes@[1]->Transform_transform;
    let loops = loops_of(extrusion);
    assert(loops[0] == extrusion.profile_curves@);
    assert(is_loop_copy(loops[0], profile.loops@[0]));
    if 0 <= n < extrusion.profile_curves@.len() {
        assert(crate::profile_curves::is_copy(
            extrusion.profile_curves@[n],
            profile.loops@[0].curves@[n],
        ));
    }
    lemma_columns(
        transform,
        extrusion.origin,
        extrusion.x_axis,
        extrusion.y_axis,
        extrusion.z_axis,
    );
}

proof fn lemma_columns(
    transform: RigidTransform,
    origin: [Scalar; 3],
    x: [Scalar; 3],
    y: [Scalar; 3],
    z: [Scalar; 3],
)
    requires
        crate::cad_recovery::is_frame(transform, origin, x, y, z),
    ensures
        is_affine(transform),
        column(transform, 0) == x@,
        column(transform, 1) == y@,
        column(transform, 2) == z@,
        column(transform, 3) == origin@,
{
    assert(transform.matrix@[0]@[0] == x@[0]);
    assert(transform.matrix@[1]@[0] == x@[1]);
    assert(transform.matrix@[2]@[0] == x@[2]);
    assert(column(transform, 0) =~= x@);
    assert(column(transform, 1) =~= y@);
    assert(column(transform, 2) =~= z@);
    assert(column(transform, 3) =~= origin@);
}

/// The model of a solid that is turned turns its profile around the axis that was found: the
/// second axis of its plane, which comes to lie on it, through the point that was found.
pub proof fn law_revolution_turns_where_found(
    revolution: RecoveredSolidRevolution,
    check: RevolutionCheck,
    fragment: CadFragment,
    n: int,
)
    requires
        is_revolution_model(revolution, check, fragment),
    ensures
        ({
            &&& fragment.model.nodes@[0] matches CadNode::Revolve { profile, axis, .. }
            &&& axis.origin@ == seq![Scalar(0), Scalar(0), Scalar(0)]
            &&& axis.direction@ == seq![Scalar(0), Scalar(ONE_BITS), Scalar(0)]
            &&& profile.loops@.len() == 1
            &&& profile.loops@[0].curves@.len() == revolution.profile_curves@.len()
            &&& 0 <= n < revolution.profile_curves@.len() ==> goes_along(
                revolution.profile_curves@[n],
                profile.loops@[0].curves@[n],
            )
            &&& fragment.model.nodes@[1] matches CadNode::Transform { transform, .. }
            &&& is_affine(transform)
            &&& column(transform, 0) == revolution.radial_direction@
            &&& column(transform, 1) == revolution.axis_direction@
            &&& column(transform, 2) == check.z_axis@
            &&& column(transform, 3) == revolution.axis_origin@
        }),
{
    let profile = fragment.model.nodes@[0]->Revolve_profile;
    let transform = fragment.model.nodes@[1]->Transform_transform;
    let loops = seq![revolution.profile_curves@];
    assert(loops[0] == revolution.profile_curves@);
    assert(is_loop_copy(loops[0], profile.loops@[0]));
    if 0 <= n < revolution.profile_curves@.len() {
        assert(crate::profile_curves::is_copy(
            revolution.profile_curves@[n],
            profile.loops@[0].curves@[n],
        ));
    }
    lemma_columns(
        transform,
        revolution.axis_origin,
        revolution.radial_direction,
        revolution.axis_direction,
        check.z_axis,
    );
}

/// How many instances a pattern has.
pub open spec fn instance_count(spec: PatternSpec) -> nat {
    match spec {
        PatternSpec::Linear { count, .. } => count as nat,
        PatternSpec::Grid { counts, occupancy, .. } => match occupancy {
            Some(cells) => cells@.len(),
            None => (counts@[0] * counts@[1] * counts@[2]) as nat,
        },
        PatternSpec::Polar { count, .. } => count as nat,
    }
}

proof fn lemma_sites(pattern: InstancePattern, n: nat, i: int)
    requires
        sites_fault(pattern, n) is None,
        0 <= i < n,
    ensures
        is_on_grid(pattern, pattern.occupancy@[i]),
        pattern.dimension == 1 ==> pattern.occupancy@[i]@[1] == 0,
    decreases n,
{
    if i < n - 1 {
        lemma_sites(pattern, (n - 1) as nat, i);
    }
}

/// A lattice becomes a pattern with as many instances as it has items. In a row each item is one
/// step behind the one before. In a grid whose cells are listed, each item is in its own cell,
/// and the cells are inside the grid and differ.
pub proof fn law_pattern_has_an_instance_for_each_item(
    pattern: InstancePattern,
    check: LatticeCheck,
    spec: PatternSpec,
)
    requires
        lattice_fault(pattern, check) is None,
        is_spec(pattern, check, spec),
    ensures
        instance_count(spec) == pattern.item_ids@.len(),
        match spec {
            PatternSpec::Linear { count, step } => {
                &&& pattern.dimension == 1
                &&& step == check.steps@[0]
                &&& forall|i: int|
                    0 <= i < pattern.item_ids@.len() ==> (#[trigger] pattern.occupancy@[i])@[0] == i
            },
            PatternSpec::Grid { counts, step_vectors, occupancy } => {
                &&& step_vectors@[0] == check.steps@[0]
                &&& pattern.dimension == 2 ==> step_vectors@[1] == check.steps@[1]
                &&& occupancy matches Some(cells) ==> {
                    &&& forall|i: int|
                        0 <= i < cells@.len() ==> {
                            let cell = #[trigger] cells@[i];
                            &&& cell@[0] == pattern.occupancy@[i]@[0] && cell@[0] < counts@[0]
                            &&& cell@[1] == pattern.occupancy@[i]@[1] && cell@[1] < counts@[1]
                            &&& cell@[2] < counts@[2]
                        }
                    &&& forall|i: int, j: int|
                        #![trigger cells@[i], cells@[j]]
                        0 <= i < j < cells@.len() ==> cells@[i]@[0] != cells@[j]@[0]
                            || cells@[i]@[1] != cells@[j]@[1]
                }
            },
            PatternSpec::Polar { .. } => false,
        },
{
    match spec {
        PatternSpec::Grid { counts, occupancy, .. } => {
            match occupancy {
                Some(cells) => {
                    assert forall|i: int| 0 <= i < cells@.len() implies ({
                        let cell = #[trigger] cells@[i];
                        &&& cell@[0] == pattern.occupancy@[i]@[0] && cell@[0] < counts@[0]
                        &&& cell@[1] == pattern.occupancy@[i]@[1] && cell@[1] < counts@[1]
                        &&& cell@[2] < counts@[2]
                    }) by {
                        lemma_sites(pattern, pattern.occupancy@.len(), i);
                    }
                    assert forall|i: int, j: int|
                        #![trigger cells@[i], cells@[j]]
                        0 <= i < j < cells@.len() implies cells@[i]@[0] != cells@[j]@[0]
                        || cells@[i]@[1] != cells@[j]@[1] by {
                        if cells@[i]@[0] == cells@[j]@[0] && cells@[i]@[1] == cells@[j]@[1] {
                            let a = pattern.occupancy@[i];
                            let b = pattern.occupancy@[j];
                            assert(a@ =~= b@);
                        }
                    }
                },
                None => {
                    assert(counts@[0] * counts@[1] * 1 == counts@[0] * counts@[1])
                        by (nonlinear_arith);
                },
            }
        },
        _ => {},
    }
}

} // verus!
