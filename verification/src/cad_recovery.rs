//! Models of what was found in a file: solids that are extruded or turned, and lattices of
//! instances.

use vstd::prelude::*;

use crate::cad_ir::{
    Axis3, BrepFallback, CadFragmentSource, CadNode, Curve2d, NodeId, PatternSpec, Profile2d,
    ProfileLoop, ProofStatus, Provenance, RigidTransform, Scalar, ONE_BITS,
};
use crate::cad_model::{
    all_exist, edge, is_cyclic, is_walk, lacks_residual, node_fault, CadModel,
};
use crate::cycles::{covers_full_grid, is_full_grid};
use crate::face_coalesce::append_ids;
use crate::patterns::InstancePattern;
use crate::profile_curves::{is_copy, to_curve, CurveError, RecoveredProfileCurve};
use crate::sets::{sorted_of, sorted_set};

verus! {

/// The bit pattern of the largest residual of an extrusion.
pub const MAX_RESIDUAL_BITS: u64 = 0x3e7ad7f29f3d9b30;

/// The bit pattern of the least radius that counts as none.
pub const LEAST_RADIUS_BITS: u64 = 0xbe7ad7f29abcaf48;

/// The bit pattern of a full turn.
pub const TURN_BITS: u64 = 0x401921fb54442d18;

/// A solid that is a profile pushed along the third axis of a frame.
#[derive(Debug)]
pub struct RecoveredSolidExtrusion {
    pub solid_id: u64,
    pub cap_face_ids: [u64; 2],
    pub side_face_ids: Vec<u64>,
    pub profile_curves: Vec<RecoveredProfileCurve>,
    pub inner_profile_loops: Vec<Vec<RecoveredProfileCurve>>,
    pub origin: [Scalar; 3],
    pub x_axis: [Scalar; 3],
    pub y_axis: [Scalar; 3],
    pub z_axis: [Scalar; 3],
    pub height: Scalar,
    pub max_residual: Scalar,
}

/// What was measured of the frame of an extrusion.
#[derive(Debug, Clone, Copy, PartialEq, Eq, Structural)]
pub struct FrameCheck {
    pub unit: bool,
    pub orthogonal: bool,
    pub right_handed: bool,
}

/// A solid that is a profile turned once around an axis.
#[derive(Debug)]
pub struct RecoveredSolidRevolution {
    pub solid_id: u64,
    pub face_ids: Vec<u64>,
    pub profile_curves: Vec<RecoveredProfileCurve>,
    pub axis_origin: [Scalar; 3],
    pub axis_direction: [Scalar; 3],
    pub radial_direction: [Scalar; 3],
    pub max_residual: Scalar,
    pub source_tolerance: Scalar,
}

/// What was measured of a curve of a profile that is turned: whether an arc sweeps neither
/// nothing nor more than a turn, whether it stays on one side of the axis, and whether the next
/// curve begins where the curve ends.
#[derive(Debug, Clone, Copy, PartialEq, Eq, Structural)]
pub struct MeridianCheck {
    pub sweeps: bool,
    pub beside_axis: bool,
    pub joined: bool,
}

/// What was measured of a solid that is turned, with the third axis of its frame.
#[derive(Debug)]
pub struct RevolutionCheck {
    pub curves: Vec<MeridianCheck>,
    pub orthonormal: bool,
    pub unit_normal: bool,
    pub tolerance_fits: bool,
    pub residual_fits: bool,
    pub z_axis: [Scalar; 3],
}

/// What was measured of a lattice: whether its tolerance and its residual make sense, whether
/// its fill ratio and the lengths of its axes agree with what is said of them, and its steps in
/// the fewest digits, with the residual that is left.
#[derive(Debug)]
pub struct LatticeCheck {
    pub tolerance_fits: bool,
    pub residual_fits: bool,
    pub fill_agrees: bool,
    pub lengths_agree: Vec<bool>,
    pub steps: Vec<[Scalar; 3]>,
    pub residual: Scalar,
}

/// Why there is no model.
#[derive(Debug, Clone, Copy, PartialEq, Eq, Structural)]
pub enum RecoveryError {
    EmptyProfile,
    EmptyLoop(usize),
    Curve(CurveError),
    BadHeight,
    BadResidual,
    FrameNotFinite,
    FrameNotUnit,
    FrameNotOrthogonal,
    FrameNotRightHanded,
    NegativeRadius,
    BadSweep,
    CrossesAxis,
    SplineMeridian,
    NotContinuous,
    BadTolerance,
    TooFewItems,
    OccupancyMismatch,
    OriginNotFinite,
    NotAtOrigin,
    BadDimension,
    InconsistentDimensions,
    ZeroDimension,
    BadFill,
    AxisNotPositive(usize),
    LengthDisagrees(usize),
    DuplicateSite,
    OutsideGrid,
    OffTheLine,
}

/// A model of something that was found, and what it was found in.
#[derive(Debug)]
pub struct CadFragment {
    pub source: CadFragmentSource,
    pub model: CadModel,
    pub root: NodeId,
}

pub open spec fn is_finite_vector(v: [Scalar; 3]) -> bool {
    v@[0].is_finite() && v@[1].is_finite() && v@[2].is_finite()
}

fn finite_vector(v: [Scalar; 3]) -> (out: bool)
    ensures
        out == is_finite_vector(v),
{
    v[0].finite() && v[1].finite() && v[2].finite()
}

/// What is wrong with a curve of a profile that is pushed.
pub open spec fn curve_fault(curve: RecoveredProfileCurve) -> Option<RecoveryError> {
    if curve.sources().len() == 0 {
        Some(RecoveryError::Curve(CurveError::NoSourceEdges))
    } else {
        match curve.fault() {
            Some(fault) => Some(RecoveryError::Curve(fault)),
            None => None,
        }
    }
}

/// The first fault of some curves.
pub open spec fn curves_fault(curves: Seq<RecoveredProfileCurve>) -> Option<RecoveryError>
    decreases curves.len(),
{
    if curves.len() == 0 {
        None
    } else {
        match curves_fault(curves.drop_last()) {
            Some(fault) => Some(fault),
            None => curve_fault(curves.last()),
        }
    }
}

/// The loops of the profile of an extrusion, the outer one first.
pub open spec fn loops_of(extrusion: RecoveredSolidExtrusion) -> Seq<Seq<RecoveredProfileCurve>> {
    seq![extrusion.profile_curves@] + Seq::new(
        extrusion.inner_profile_loops@.len(),
        |i: int| extrusion.inner_profile_loops@[i]@,
    )
}

/// The first fault of some loops.
pub open spec fn loops_fault(loops: Seq<Seq<RecoveredProfileCurve>>) -> Option<RecoveryError>
    decreases loops.len(),
{
    if loops.len() == 0 {
        None
    } else {
        match loops_fault(loops.drop_last()) {
            Some(fault) => Some(fault),
            None => if loops.last().len() == 0 {
                Some(RecoveryError::EmptyLoop((loops.len() - 1) as usize))
            } else {
                curves_fault(loops.last())
            },
        }
    }
}

pub open spec fn is_small_residual(residual: Scalar) -> bool {
    residual.is_finite() && residual.order() >= 0 && residual.order() <= MAX_RESIDUAL_BITS
}

/// Why there is no model of an extrusion.
pub open spec fn extrusion_fault(extrusion: RecoveredSolidExtrusion, frame: FrameCheck) -> Option<
    RecoveryError,
> {
    if extrusion.profile_curves@.len() == 0 {
        Some(RecoveryError::EmptyProfile)
    } else if loops_fault(loops_of(extrusion)) is Some {
        loops_fault(loops_of(extrusion))
    } else if !extrusion.height.is_positive() {
        Some(RecoveryError::BadHeight)
    } else if !is_small_residual(extrusion.max_residual) {
        Some(RecoveryError::BadResidual)
    } else if !is_finite_vector(extrusion.origin) || !is_finite_vector(extrusion.x_axis)
        || !is_finite_vector(extrusion.y_axis) || !is_finite_vector(extrusion.z_axis) {
        Some(RecoveryError::FrameNotFinite)
    } else if !frame.unit {
        Some(RecoveryError::FrameNotUnit)
    } else if !frame.orthogonal {
        Some(RecoveryError::FrameNotOrthogonal)
    } else if !frame.right_handed {
        Some(RecoveryError::FrameNotRightHanded)
    } else {
        None
    }
}

/// The edges that curves were found at.
pub open spec fn sources_of(curves: Seq<RecoveredProfileCurve>) -> Seq<u64>
    decreases curves.len(),
{
    if curves.len() == 0 {
        Seq::empty()
    } else {
        sources_of(curves.drop_last()) + curves.last().sources()
    }
}

/// The edges that loops were found at.
pub open spec fn loop_sources(loops: Seq<Seq<RecoveredProfileCurve>>) -> Seq<u64>
    decreases loops.len(),
{
    if loops.len() == 0 {
        Seq::empty()
    } else {
        loop_sources(loops.drop_last()) + sources_of(loops.last())
    }
}

/// Whether a loop of a model is made of curves that were found.
pub open spec fn is_loop_copy(curves: Seq<RecoveredProfileCurve>, one: ProfileLoop) -> bool {
    one.curves@.len() == curves.len() && forall|i: int|
        0 <= i < curves.len() ==> is_copy(curves[i], #[trigger] one.curves@[i])
}

/// Whether a profile is made of loops that were found.
pub open spec fn is_profile_copy(loops: Seq<Seq<RecoveredProfileCurve>>, profile: Profile2d) -> bool {
    profile.loops@.len() == loops.len() && forall|i: int|
        0 <= i < loops.len() ==> is_loop_copy(loops[i], #[trigger] profile.loops@[i])
}

/// Whether a matrix takes the axes of a frame to vectors and its origin to a point.
pub open spec fn is_frame(
    transform: RigidTransform,
    origin: [Scalar; 3],
    x: [Scalar; 3],
    y: [Scalar; 3],
    z: [Scalar; 3],
) -> bool {
    &&& forall|row: int|
        0 <= row < 3 ==> (#[trigger] transform.matrix@[row])@[0] == x@[row]
            && transform.matrix@[row]@[1] == y@[row] && transform.matrix@[row]@[2] == z@[row]
            && transform.matrix@[row]@[3] == origin@[row]
    &&& transform.matrix@[3]@[0] == Scalar(0)
    &&& transform.matrix@[3]@[1] == Scalar(0)
    &&& transform.matrix@[3]@[2] == Scalar(0)
    &&& transform.matrix@[3]@[3] == Scalar(ONE_BITS)
}

/// Whether a model says that a node holds up to a tolerance, and where it was found.
pub open spec fn is_found(model: CadModel, id: u64, ids: Seq<u64>, residual: Scalar) -> bool {
    &&& model.provenance@.contains_key(id)
    &&& model.provenance@[id].source_entity_ids@ == ids
    &&& model.provenance@[id].proof == ProofStatus::WithinTolerance
    &&& model.provenance@[id].max_residual == Some(residual)
}

/// Whether a model has two nodes, of which the second stands on the first and is the solid.
pub open spec fn has_two_nodes(fragment: CadFragment) -> bool {
    &&& fragment.root == NodeId(1)
    &&& fragment.model.nodes@.len() == 2
    &&& fragment.model.nodes@[0].parts().len() == 0
    &&& fragment.model.nodes@[1].parts() == seq![NodeId(0)]
    &&& fragment.model.roots@ == seq![NodeId(1)]
    &&& fragment.model.provenance@.dom() == set![0u64, 1u64]
}

/// Whether a fragment is the model of an extrusion: the profile pushed in its own plane, and
/// placed in the frame.
pub open spec fn is_extrusion_model(
    extrusion: RecoveredSolidExtrusion,
    fragment: CadFragment,
) -> bool {
    let ids = sorted_of(
        seq![extrusion.solid_id, extrusion.cap_face_ids@[0], extrusion.cap_face_ids@[1]]
            + extrusion.side_face_ids@ + loop_sources(loops_of(extrusion)),
    );
    &&& has_two_nodes(fragment)
    &&& fragment.model.nodes@[0] matches CadNode::Extrude { profile, vector } && is_profile_copy(
        loops_of(extrusion),
        profile,
    ) && vector@ == seq![Scalar(0), Scalar(0), extrusion.height]
    &&& fragment.model.nodes@[1] matches CadNode::Transform { transform, child } && is_frame(
        transform,
        extrusion.origin,
        extrusion.x_axis,
        extrusion.y_axis,
        extrusion.z_axis,
    )
    &&& is_found(fragment.model, 0, ids, extrusion.max_residual)
    &&& is_found(fragment.model, 1, ids, extrusion.max_residual)
    &&& fragment.source matches CadFragmentSource::SolidExtrusion {
        solid_id,
        cap_face_ids,
        side_face_ids,
    } && solid_id == extrusion.solid_id && cap_face_ids == extrusion.cap_face_ids
        && side_face_ids@ == extrusion.side_face_ids@
}

proof fn lemma_falling_walk(nodes: Seq<CadNode>, walk: Seq<int>, i: int)
    requires
        is_walk(nodes, walk),
        forall|a: int, b: int| #[trigger] edge(nodes, a, b) ==> b < a,
        1 <= i < walk.len(),
    ensures
        walk[i] < walk[0],
    decreases i,
{
    assert(edge(nodes, walk[i - 1], walk[i]));
    if i > 1 {
        lemma_falling_walk(nodes, walk, i - 1);
    }
}

proof fn lemma_two_nodes_are_sound(fragment: CadFragment)
    requires
        has_two_nodes(fragment),
        !lacks_residual(fragment.model.provenance@, 0),
        !lacks_residual(fragment.model.provenance@, 1),
    ensures
        fragment.model.fault() is None,
{
    let nodes = fragment.model.nodes@;
    assert forall|a: int, b: int| #[trigger] edge(nodes, a, b) implies b < a by {
        if a == 1 {
            assert(nodes[1].parts()[0] == NodeId(0));
        }
    }
    if is_cyclic(nodes) {
        let walk = choose|walk: Seq<int>|
            #[trigger] is_walk(nodes, walk) && walk.len() >= 2 && walk[0] == walk.last();
        lemma_falling_walk(nodes, walk, walk.len() - 1);
    }
    let provenance = fragment.model.provenance@;
    assert(node_fault(nodes, provenance, 0) is None);
    assert(all_exist(nodes[0].parts(), nodes.len()));
    assert(node_fault(nodes, provenance, 1) is None);
    assert(all_exist(nodes[1].parts(), nodes.len()));
    assert(node_fault(nodes, provenance, 2) is None);
}

proof fn lemma_curves_stop(curves: Seq<RecoveredProfileCurve>, n: int)
    requires
        0 <= n <= curves.len(),
        curves_fault(curves.take(n)) is Some,
    ensures
        curves_fault(curves) == curves_fault(curves.take(n)),
    decreases curves.len(),
{
    if n < curves.len() {
        assert(curves.drop_last().take(n) =~= curves.take(n));
        lemma_curves_stop(curves.drop_last(), n);
    } else {
        assert(curves.take(n) =~= curves);
    }
}

fn find_curves_fault(curves: &Vec<RecoveredProfileCurve>) -> (out: Option<RecoveryError>)
    ensures
        out == curves_fault(curves@),
{
    let mut i: usize = 0;
    assert(curves@.take(0) =~= Seq::empty());
    while i < curves.len()
        invariant
            i <= curves.len(),
            curves_fault(curves@.take(i as int)) is None,
        decreases curves.len() - i,
    {
        assert(curves@.take(i + 1).drop_last() =~= curves@.take(i as int));
        let fault: Option<RecoveryError> = if curves[i].source_edge_ids().len() == 0 {
            Some(RecoveryError::Curve(CurveError::NoSourceEdges))
        } else {
            match curves[i].geometry_fault() {
                Some(fault) => Some(RecoveryError::Curve(fault)),
                None => None,
            }
        };
        if fault.is_some() {
            proof {
                lemma_curves_stop(curves@, i + 1);
            }
            return fault;
        }
        i = i + 1;
    }
    assert(curves@.take(curves@.len() as int) =~= curves@);
    None
}

proof fn lemma_loops_stop(loops: Seq<Seq<RecoveredProfileCurve>>, n: int)
    requires
        0 <= n <= loops.len(),
        loops_fault(loops.take(n)) is Some,
    ensures
        loops_fault(loops) == loops_fault(loops.take(n)),
    decreases loops.len(),
{
    if n < loops.len() {
        assert(loops.drop_last().take(n) =~= loops.take(n));
        lemma_loops_stop(loops.drop_last(), n);
    } else {
        assert(loops.take(n) =~= loops);
    }
}

fn copy_loop(curves: &Vec<RecoveredProfileCurve>) -> (out: ProfileLoop)
    ensures
        is_loop_copy(curves@, out),
{
    let mut out: Vec<Curve2d> = Vec::new();
    let mut i: usize = 0;
    while i < curves.len()
        invariant
            i <= curves.len(),
            out@.len() == i,
            forall|k: int| 0 <= k < i ==> is_copy(curves@[k], #[trigger] out@[k]),
        decreases curves.len() - i,
    {
        out.push(to_curve(&curves[i]));
        i = i + 1;
    }
    ProfileLoop { curves: out }
}

fn find_sources(curves: &Vec<RecoveredProfileCurve>) -> (out: Vec<u64>)
    ensures
        out@ == sources_of(curves@),
{
    let mut out: Vec<u64> = Vec::new();
    let mut i: usize = 0;
    assert(curves@.take(0) =~= Seq::empty());
    while i < curves.len()
        invariant
            i <= curves.len(),
            out@ == sources_of(curves@.take(i as int)),
        decreases curves.len() - i,
    {
        assert(curves@.take(i + 1).drop_last() =~= curves@.take(i as int));
        append_ids(&mut out, curves[i].source_edge_ids());
        i = i + 1;
    }
    assert(curves@.take(curves@.len() as int) =~= curves@);
    out
}

/// The loop of an extrusion with a number.
fn one_loop(extrusion: &RecoveredSolidExtrusion, i: usize) -> (out: &Vec<RecoveredProfileCurve>)
    requires
        i <= extrusion.inner_profile_loops@.len(),
    ensures
        out@ == loops_of(*extrusion)[i as int],
{
    if i == 0 {
        &extrusion.profile_curves
    } else {
        &extrusion.inner_profile_loops[i - 1]
    }
}

fn find_extrusion_fault(extrusion: &RecoveredSolidExtrusion, frame: &FrameCheck) -> (out: Option<
    RecoveryError,
>)
    ensures
        out == extrusion_fault(*extrusion, *frame),
{
    if extrusion.profile_curves.len() == 0 {
        return Some(RecoveryError::EmptyProfile);
    }
    let ghost loops = loops_of(*extrusion);
    let mut i: usize = 0;
    let inner: usize = extrusion.inner_profile_loops.len();
    assert(loops.take(0) =~= Seq::empty());
    assert(loops.len() == inner + 1);
    loop
        invariant
            i <= inner,
            inner == extrusion.inner_profile_loops@.len(),
            loops == loops_of(*extrusion),
            loops.len() == inner + 1,
            extrusion.profile_curves@.len() > 0,
            loops_fault(loops.take(i as int)) is None,
        decreases inner - i,
    {
        assert(loops.take(i + 1).drop_last() =~= loops.take(i as int));
        assert(loops.take(i + 1).len() == i + 1);
        let curves = one_loop(extrusion, i);
        let fault: Option<RecoveryError> = if curves.len() == 0 {
            Some(RecoveryError::EmptyLoop(i))
        } else {
            find_curves_fault(curves)
        };
        if fault.is_some() {
            proof {
                lemma_loops_stop(loops, i + 1);
            }
            return fault;
        }
        if i == inner {
            assert(loops.take(i + 1) =~= loops);
            return find_frame_fault(extrusion, frame);
        }
        i = i + 1;
    }
}

/// What is wrong with the height, the residual or the frame.
fn find_frame_fault(extrusion: &RecoveredSolidExtrusion, frame: &FrameCheck) -> (out: Option<
    RecoveryError,
>)
    requires
        extrusion.profile_curves@.len() > 0,
        loops_fault(loops_of(*extrusion)) is None,
    ensures
        out == extrusion_fault(*extrusion, *frame),
{
    if !extrusion.height.positive() {
        Some(RecoveryError::BadHeight)
    } else if !extrusion.max_residual.finite() || extrusion.max_residual.less(Scalar(0))
        || Scalar(MAX_RESIDUAL_BITS).less(extrusion.max_residual) {
        Some(RecoveryError::BadResidual)
    } else if !finite_vector(extrusion.origin) || !finite_vector(extrusion.x_axis)
        || !finite_vector(extrusion.y_axis) || !finite_vector(extrusion.z_axis) {
        Some(RecoveryError::FrameNotFinite)
    } else if !frame.unit {
        Some(RecoveryError::FrameNotUnit)
    } else if !frame.orthogonal {
        Some(RecoveryError::FrameNotOrthogonal)
    } else if !frame.right_handed {
        Some(RecoveryError::FrameNotRightHanded)
    } else {
        None
    }
}

/// The transform that takes the axes of a frame to vectors and its origin to a point.
fn local_frame_transform(
    origin: [Scalar; 3],
    x: [Scalar; 3],
    y: [Scalar; 3],
    z: [Scalar; 3],
) -> (out: RigidTransform)
    ensures
        is_frame(out, origin, x, y, z),
{
    let none = Scalar(0);
    RigidTransform {
        matrix: [
            [x[0], y[0], z[0], origin[0]],
            [x[1], y[1], z[1], origin[1]],
            [x[2], y[2], z[2], origin[2]],
            [none, none, none, Scalar(ONE_BITS)],
        ],
    }
}

fn copy_ids(ids: &Vec<u64>) -> (out: Vec<u64>)
    ensures
        out@ == ids@,
{
    let mut out: Vec<u64> = Vec::new();
    append_ids(&mut out, ids);
    assert(out@ =~= ids@);
    out
}

/// A model of two nodes, of which the second stands on the first.
fn two_nodes(
    first: CadNode,
    second: CadNode,
    first_about: Provenance,
    second_about: Provenance,
    source: CadFragmentSource,
) -> (out: CadFragment)
    requires
        first.parts().len() == 0,
        second.parts() == seq![NodeId(0)],
        first_about.proof != ProofStatus::WithinTolerance || first_about.max_residual is Some,
        second_about.proof != ProofStatus::WithinTolerance || second_about.max_residual is Some,
    ensures
        has_two_nodes(out),
        out.model.nodes@[0] == first,
        out.model.nodes@[1] == second,
        out.model.provenance@[0] == first_about,
        out.model.provenance@[1] == second_about,
        out.model.fault() is None,
        out.source == source,
{
    let mut model = CadModel::new();
    let body = model.add_node(first);
    let set_body = model.set_provenance(body, first_about);
    let root = model.add_node(second);
    let set_root = model.set_provenance(root, second_about);
    let rooted = model.add_root(root);
    assert(set_body is Ok && set_root is Ok && rooted is Ok);
    let out = CadFragment { source, model, root };
    proof {
        assert(out.model.provenance@.dom() =~= set![0u64, 1u64]);
        assert(out.model.roots@ =~= seq![NodeId(1)]);
        lemma_two_nodes_are_sound(out);
    }
    out
}

/// The model of an extrusion. The profile stands in a plane of its own, and a frame places the
/// solid.
pub fn recover_solid_extrusion_fragment(
    extrusion: &RecoveredSolidExtrusion,
    frame: &FrameCheck,
) -> (out: Result<CadFragment, RecoveryError>)
    ensures
        match out {
            Ok(fragment) => extrusion_fault(*extrusion, *frame) is None && is_extrusion_model(
                *extrusion,
                fragment,
            ) && fragment.model.fault() is None,
            Err(error) => extrusion_fault(*extrusion, *frame) == Some(error),
        },
{
    if let Some(fault) = find_extrusion_fault(extrusion, frame) {
        return Err(fault);
    }
    let ghost loops = loops_of(*extrusion);
    let mut profile: Vec<ProfileLoop> = Vec::new();
    let mut edges: Vec<u64> = Vec::new();
    let inner: usize = extrusion.inner_profile_loops.len();
    profile.push(copy_loop(&extrusion.profile_curves));
    append_ids(&mut edges, &find_sources(&extrusion.profile_curves));
    assert(loops.take(1).drop_last() =~= Seq::empty());
    assert(loop_sources(loops.take(1).drop_last()) =~= Seq::empty());
    assert(edges@ =~= loop_sources(loops.take(1)));
    let mut i: usize = 0;
    while i < inner
        invariant
            i <= inner,
            inner == extrusion.inner_profile_loops@.len(),
            loops == loops_of(*extrusion),
            profile@.len() == i + 1,
            forall|k: int|
                0 <= k < profile@.len() ==> is_loop_copy(loops[k], #[trigger] profile@[k]),
            edges@ == loop_sources(loops.take(i + 1)),
        decreases inner - i,
    {
        assert(loops.take(i + 2).drop_last() =~= loops.take(i + 1));
        assert(loops[i + 1] == extrusion.inner_profile_loops@[i as int]@);
        profile.push(copy_loop(&extrusion.inner_profile_loops[i]));
        append_ids(&mut edges, &find_sources(&extrusion.inner_profile_loops[i]));
        i = i + 1;
    }
    assert(loops.take(inner + 1) =~= loops);
    let mut ids: Vec<u64> = vec![
        extrusion.solid_id,
        extrusion.cap_face_ids[0],
        extrusion.cap_face_ids[1],
    ];
    append_ids(&mut ids, &extrusion.side_face_ids);
    append_ids(&mut ids, &edges);
    let sources = sorted_set(&ids);
    assert(ids@ =~= seq![
        extrusion.solid_id,
        extrusion.cap_face_ids@[0],
        extrusion.cap_face_ids@[1],
    ] + extrusion.side_face_ids@ + loop_sources(loops));
    let vector = [Scalar(0), Scalar(0), extrusion.height];
    assert(vector@ =~= seq![Scalar(0), Scalar(0), extrusion.height]);
    let fragment = two_nodes(
        CadNode::Extrude { profile: Profile2d { loops: profile }, vector },
        CadNode::Transform {
            transform: local_frame_transform(
                extrusion.origin,
                extrusion.x_axis,
                extrusion.y_axis,
                extrusion.z_axis,
            ),
            child: NodeId(0),
        },
        Provenance {
            source_entity_ids: copy_ids(&sources),
            proof: ProofStatus::WithinTolerance,
            max_residual: Some(extrusion.max_residual),
        },
        Provenance {
            source_entity_ids: sources,
            proof: ProofStatus::WithinTolerance,
            max_residual: Some(extrusion.max_residual),
        },
        CadFragmentSource::SolidExtrusion {
            solid_id: extrusion.solid_id,
            cap_face_ids: extrusion.cap_face_ids,
            side_face_ids: copy_ids(&extrusion.side_face_ids),
        },
    );
    Ok(fragment)
}

/// The check of a curve. A curve without one passes none.
pub open spec fn meridian_check(check: RevolutionCheck, i: int) -> MeridianCheck {
    if 0 <= i < check.curves@.len() {
        check.curves@[i]
    } else {
        MeridianCheck { sweeps: false, beside_axis: false, joined: false }
    }
}

/// What is wrong with a curve of a profile that is turned.
pub open spec fn meridian_fault(curve: RecoveredProfileCurve, check: MeridianCheck) -> Option<
    RecoveryError,
> {
    match curve.fault() {
        Some(fault) => Some(RecoveryError::Curve(fault)),
        None => match curve {
            RecoveredProfileCurve::Line { start, end, .. } => if start@[0].order() < Scalar(
                LEAST_RADIUS_BITS,
            ).order() || end@[0].order() < Scalar(LEAST_RADIUS_BITS).order() {
                Some(RecoveryError::NegativeRadius)
            } else {
                None
            },
            RecoveredProfileCurve::CircleArc { .. } => if !check.sweeps {
                Some(RecoveryError::BadSweep)
            } else if !check.beside_axis {
                Some(RecoveryError::CrossesAxis)
            } else {
                None
            },
            _ => Some(RecoveryError::SplineMeridian),
        },
    }
}

/// The first fault of the first `n` curves.
pub open spec fn meridians_fault(
    curves: Seq<RecoveredProfileCurve>,
    check: RevolutionCheck,
    n: nat,
) -> Option<RecoveryError>
    decreases n,
{
    if n == 0 {
        None
    } else {
        match meridians_fault(curves, check, (n - 1) as nat) {
            Some(fault) => Some(fault),
            None => meridian_fault(curves[n - 1], meridian_check(check, n - 1)),
        }
    }
}

/// Why there is no model of a solid that is turned.
pub open spec fn revolution_fault(
    revolution: RecoveredSolidRevolution,
    check: RevolutionCheck,
) -> Option<RecoveryError> {
    let curves = revolution.profile_curves@;
    if curves.len() == 0 {
        Some(RecoveryError::EmptyProfile)
    } else if meridians_fault(curves, check, curves.len()) is Some {
        meridians_fault(curves, check, curves.len())
    } else if exists|i: int|
        0 <= i < curves.len() && !(#[trigger] meridian_check(check, i)).joined {
        Some(RecoveryError::NotContinuous)
    } else if !is_finite_vector(revolution.axis_origin) || !is_finite_vector(
        revolution.axis_direction,
    ) || !is_finite_vector(revolution.radial_direction) {
        Some(RecoveryError::FrameNotFinite)
    } else if !check.orthonormal {
        Some(RecoveryError::FrameNotOrthogonal)
    } else if !check.unit_normal {
        Some(RecoveryError::FrameNotUnit)
    } else if !check.tolerance_fits {
        Some(RecoveryError::BadTolerance)
    } else if !check.residual_fits {
        Some(RecoveryError::BadResidual)
    } else {
        None
    }
}

/// Whether a fragment is the model of a solid that is turned: the profile turned once around
/// the second axis of its own plane, and placed in the frame.
pub open spec fn is_revolution_model(
    revolution: RecoveredSolidRevolution,
    check: RevolutionCheck,
    fragment: CadFragment,
) -> bool {
    let ids = sorted_of(seq![revolution.solid_id] + revolution.face_ids@);
    &&& has_two_nodes(fragment)
    &&& fragment.model.nodes@[0] matches CadNode::Revolve { profile, axis, angle }
        && is_profile_copy(seq![revolution.profile_curves@], profile) && axis.origin@ == seq![
        Scalar(0),
        Scalar(0),
        Scalar(0),
    ] && axis.direction@ == seq![Scalar(0), Scalar(ONE_BITS), Scalar(0)] && angle == Scalar(
        TURN_BITS,
    )
    &&& fragment.model.nodes@[1] matches CadNode::Transform { transform, child } && is_frame(
        transform,
        revolution.axis_origin,
        revolution.radial_direction,
        revolution.axis_direction,
        check.z_axis,
    )
    &&& is_found(fragment.model, 0, ids, revolution.max_residual)
    &&& is_found(fragment.model, 1, ids, revolution.max_residual)
    &&& fragment.source matches CadFragmentSource::SolidRevolution { solid_id, face_ids }
        && solid_id == revolution.solid_id && face_ids@ == revolution.face_ids@
}

fn find_meridian_check(check: &RevolutionCheck, i: usize) -> (out: MeridianCheck)
    ensures
        out == meridian_check(*check, i as int),
{
    if i < check.curves.len() {
        check.curves[i]
    } else {
        MeridianCheck { sweeps: false, beside_axis: false, joined: false }
    }
}

fn find_meridian_fault(curve: &RecoveredProfileCurve, check: MeridianCheck) -> (out: Option<
    RecoveryError,
>)
    ensures
        out == meridian_fault(*curve, check),
{
    if let Some(fault) = curve.geometry_fault() {
        return Some(RecoveryError::Curve(fault));
    }
    match curve {
        RecoveredProfileCurve::Line { start, end, .. } => if start[0].less(
            Scalar(LEAST_RADIUS_BITS),
        ) || end[0].less(Scalar(LEAST_RADIUS_BITS)) {
            Some(RecoveryError::NegativeRadius)
        } else {
            None
        },
        RecoveredProfileCurve::CircleArc { .. } => if !check.sweeps {
            Some(RecoveryError::BadSweep)
        } else if !check.beside_axis {
            Some(RecoveryError::CrossesAxis)
        } else {
            None
        },
        _ => Some(RecoveryError::SplineMeridian),
    }
}

proof fn lemma_meridians_stop(
    curves: Seq<RecoveredProfileCurve>,
    check: RevolutionCheck,
    n: nat,
    m: nat,
)
    requires
        n <= m,
        meridians_fault(curves, check, n) is Some,
    ensures
        meridians_fault(curves, check, m) == meridians_fault(curves, check, n),
    decreases m,
{
    if n < m {
        lemma_meridians_stop(curves, check, n, (m - 1) as nat);
    }
}

fn find_revolution_fault(revolution: &RecoveredSolidRevolution, check: &RevolutionCheck) -> (out:
    Option<RecoveryError>)
    ensures
        out == revolution_fault(*revolution, *check),
{
    let curves = &revolution.profile_curves;
    if curves.len() == 0 {
        return Some(RecoveryError::EmptyProfile);
    }
    let mut i: usize = 0;
    while i < curves.len()
        invariant
            i <= curves.len(),
            *curves == revolution.profile_curves,
            curves@.len() > 0,
            meridians_fault(curves@, *check, i as nat) is None,
        decreases curves.len() - i,
    {
        let fault = find_meridian_fault(&curves[i], find_meridian_check(check, i));
        if fault.is_some() {
            proof {
                lemma_meridians_stop(curves@, *check, (i + 1) as nat, curves@.len());
            }
            return fault;
        }
        i = i + 1;
    }
    let mut k: usize = 0;
    while k < curves.len()
        invariant
            k <= curves.len(),
            *curves == revolution.profile_curves,
            curves@.len() > 0,
            meridians_fault(curves@, *check, curves@.len()) is None,
            forall|j: int| 0 <= j < k ==> (#[trigger] meridian_check(*check, j)).joined,
        decreases curves.len() - k,
    {
        if !find_meridian_check(check, k).joined {
            assert(!meridian_check(*check, k as int).joined);
            return Some(RecoveryError::NotContinuous);
        }
        k = k + 1;
    }
    if !finite_vector(revolution.axis_origin) || !finite_vector(revolution.axis_direction)
        || !finite_vector(revolution.radial_direction) {
        Some(RecoveryError::FrameNotFinite)
    } else if !check.orthonormal {
        Some(RecoveryError::FrameNotOrthogonal)
    } else if !check.unit_normal {
        Some(RecoveryError::FrameNotUnit)
    } else if !check.tolerance_fits {
        Some(RecoveryError::BadTolerance)
    } else if !check.residual_fits {
        Some(RecoveryError::BadResidual)
    } else {
        None
    }
}

/// The model of a solid that is a profile turned once around an axis.
pub fn recover_solid_revolution_fragment(
    revolution: &RecoveredSolidRevolution,
    check: &RevolutionCheck,
) -> (out: Result<CadFragment, RecoveryError>)
    ensures
        match out {
            Ok(fragment) => revolution_fault(*revolution, *check) is None && is_revolution_model(
                *revolution,
                *check,
                fragment,
            ) && fragment.model.fault() is None,
            Err(error) => revolution_fault(*revolution, *check) == Some(error),
        },
{
    if let Some(fault) = find_revolution_fault(revolution, check) {
        return Err(fault);
    }
    let mut ids: Vec<u64> = vec![revolution.solid_id];
    append_ids(&mut ids, &revolution.face_ids);
    let sources = sorted_set(&ids);
    assert(ids@ =~= seq![revolution.solid_id] + revolution.face_ids@);
    let none = Scalar(0);
    let axis = Axis3 { origin: [none, none, none], direction: [none, Scalar(ONE_BITS), none] };
    assert(axis.origin@ =~= seq![Scalar(0), Scalar(0), Scalar(0)]);
    assert(axis.direction@ =~= seq![Scalar(0), Scalar(ONE_BITS), Scalar(0)]);
    let profile = Profile2d { loops: vec![copy_loop(&revolution.profile_curves)] };
    assert(is_profile_copy(seq![revolution.profile_curves@], profile));
    let fragment = two_nodes(
        CadNode::Revolve { profile, axis, angle: Scalar(TURN_BITS) },
        CadNode::Transform {
            transform: local_frame_transform(
                revolution.axis_origin,
                revolution.radial_direction,
                revolution.axis_direction,
                check.z_axis,
            ),
            child: NodeId(0),
        },
        Provenance {
            source_entity_ids: copy_ids(&sources),
            proof: ProofStatus::WithinTolerance,
            max_residual: Some(revolution.max_residual),
        },
        Provenance {
            source_entity_ids: sources,
            proof: ProofStatus::WithinTolerance,
            max_residual: Some(revolution.max_residual),
        },
        CadFragmentSource::SolidRevolution {
            solid_id: revolution.solid_id,
            face_ids: copy_ids(&revolution.face_ids),
        },
    );
    Ok(fragment)
}

/// Whether an axis of a lattice is made of numbers.
pub open spec fn is_axis(pattern: InstancePattern, axis: int) -> bool {
    Scalar(pattern.basis@[axis]@[0]).is_finite() && Scalar(pattern.basis@[axis]@[1]).is_finite()
        && Scalar(pattern.basis@[axis]@[2]).is_finite() && Scalar(
        pattern.pitch@[axis],
    ).is_positive()
}

/// What is wrong with the first `n` axes of a lattice.
pub open spec fn axes_fault(pattern: InstancePattern, check: LatticeCheck, n: nat) -> Option<
    RecoveryError,
>
    decreases n,
{
    if n == 0 {
        None
    } else {
        match axes_fault(pattern, check, (n - 1) as nat) {
            Some(fault) => Some(fault),
            None => if !is_axis(pattern, n - 1) {
                Some(RecoveryError::AxisNotPositive((n - 1) as usize))
            } else if !(n - 1 < check.lengths_agree@.len() && check.lengths_agree@[n - 1]) {
                Some(RecoveryError::LengthDisagrees((n - 1) as usize))
            } else {
                None
            },
        }
    }
}

pub open spec fn has_duplicates(sites: Seq<[i64; 2]>) -> bool {
    exists|i: int, j: int|
        0 <= i < j < sites.len() && (#[trigger] sites[i])@ == (#[trigger] sites[j])@
}

/// Whether a site lies on a grid.
pub open spec fn is_on_grid(pattern: InstancePattern, site: [i64; 2]) -> bool {
    let wide = if pattern.dimension == 2 {
        pattern.grid_shape@[1] as int
    } else {
        1
    };
    0 <= site@[0] < pattern.grid_shape@[0] && pattern.grid_shape@[0] <= i64::MAX && 0 <= site@[1]
        < wide && wide <= i64::MAX
}

/// What is wrong with the first `n` sites of a lattice.
pub open spec fn sites_fault(pattern: InstancePattern, n: nat) -> Option<RecoveryError>
    decreases n,
{
    if n == 0 {
        None
    } else {
        match sites_fault(pattern, (n - 1) as nat) {
            Some(fault) => Some(fault),
            None => if !is_on_grid(pattern, pattern.occupancy@[n - 1]) {
                Some(RecoveryError::OutsideGrid)
            } else if pattern.dimension == 1 && pattern.occupancy@[n - 1]@[1] != 0 {
                Some(RecoveryError::OffTheLine)
            } else {
                None
            },
        }
    }
}

/// Why there is no model of a lattice.
pub open spec fn lattice_fault(pattern: InstancePattern, check: LatticeCheck) -> Option<
    RecoveryError,
> {
    if pattern.item_ids@.len() < 2 {
        Some(RecoveryError::TooFewItems)
    } else if pattern.occupancy@.len() != pattern.item_ids@.len() {
        Some(RecoveryError::OccupancyMismatch)
    } else if !check.tolerance_fits {
        Some(RecoveryError::BadTolerance)
    } else if !check.residual_fits {
        Some(RecoveryError::BadResidual)
    } else if !(Scalar(pattern.origin@[0]).is_finite() && Scalar(pattern.origin@[1]).is_finite()
        && Scalar(pattern.origin@[2]).is_finite()) {
        Some(RecoveryError::OriginNotFinite)
    } else if !(pattern.occupancy@[0]@[0] == 0 && pattern.occupancy@[0]@[1] == 0) {
        Some(RecoveryError::NotAtOrigin)
    } else if !(1 <= pattern.dimension <= 2) {
        Some(RecoveryError::BadDimension)
    } else if pattern.basis@.len() != pattern.dimension || pattern.pitch@.len()
        != pattern.dimension || pattern.grid_shape@.len() != pattern.dimension
        || check.steps@.len() != pattern.dimension {
        Some(RecoveryError::InconsistentDimensions)
    } else if pattern.grid_shape@.contains(0) {
        Some(RecoveryError::ZeroDimension)
    } else if !check.fill_agrees {
        Some(RecoveryError::BadFill)
    } else if axes_fault(pattern, check, pattern.dimension as nat) is Some {
        axes_fault(pattern, check, pattern.dimension as nat)
    } else if has_duplicates(pattern.occupancy@) {
        Some(RecoveryError::DuplicateSite)
    } else {
        sites_fault(pattern, pattern.occupancy@.len())
    }
}

/// Whether a row has an instance at each place, in order.
pub open spec fn is_full_row(pattern: InstancePattern) -> bool {
    pattern.grid_shape@[0] == pattern.item_ids@.len() && forall|i: int|
        0 <= i < pattern.occupancy@.len() ==> (#[trigger] pattern.occupancy@[i])@[0] == i
            && pattern.occupancy@[i]@[1] == 0
}

/// Whether cells are the sites of a lattice.
pub open spec fn are_cells(cells: Seq<[usize; 3]>, sites: Seq<[i64; 2]>) -> bool {
    cells.len() == sites.len() && forall|i: int|
        0 <= i < cells.len() ==> (#[trigger] cells[i])@[0] == sites[i]@[0] && cells[i]@[1]
            == sites[i]@[1] && cells[i]@[2] == 0
}

pub open spec fn is_no_step(step: [Scalar; 3]) -> bool {
    step@[0] == Scalar(0) && step@[1] == Scalar(0) && step@[2] == Scalar(0)
}

/// Whether a pattern of a model is a lattice: a row without holes, a grid without holes, or a
/// grid with the cells that are taken.
pub open spec fn is_spec(pattern: InstancePattern, check: LatticeCheck, spec: PatternSpec) -> bool {
    if pattern.dimension == 1 && is_full_row(pattern) {
        spec matches PatternSpec::Linear { count, step } && count == pattern.item_ids@.len()
            && step == check.steps@[0]
    } else {
        let full = pattern.dimension == 2 && is_full_grid(
            pattern.occupancy@,
            pattern.grid_shape@[0],
            pattern.grid_shape@[1],
        );
        spec matches PatternSpec::Grid { counts, step_vectors, occupancy } && counts@[0]
            == pattern.grid_shape@[0] && counts@[1] == (if pattern.dimension == 2 {
            pattern.grid_shape@[1]
        } else {
            1
        }) && counts@[2] == 1 && step_vectors@[0] == check.steps@[0] && (if pattern.dimension == 2 {
            step_vectors@[1] == check.steps@[1]
        } else {
            is_no_step(step_vectors@[1])
        }) && is_no_step(step_vectors@[2]) && (match occupancy {
            None => full,
            Some(cells) => !full && are_cells(cells@, pattern.occupancy@),
        })
    }
}

/// Whether a fragment is the model of a lattice: the first instance as it is, and a pattern of
/// it.
pub open spec fn is_lattice_model(
    pattern: InstancePattern,
    check: LatticeCheck,
    fragment: CadFragment,
) -> bool {
    &&& has_two_nodes(fragment)
    &&& fragment.model.nodes@[0] matches CadNode::BrepFallback(fallback)
        && fallback.source_entity_ids@ == seq![pattern.item_ids@[0]] && fallback.estimated_faces
        == 0 && fallback.estimated_edges == 0 && fallback.estimated_control_points == 0
    &&& fragment.model.nodes@[1] matches CadNode::Pattern { pattern: spec, child } && is_spec(
        pattern,
        check,
        spec,
    )
    &&& fragment.model.provenance@[0].source_entity_ids@ == seq![
        pattern.item_ids@[0],
        pattern.representation_map,
    ]
    &&& fragment.model.provenance@[0].proof == ProofStatus::Exact
    &&& fragment.model.provenance@[0].max_residual == Some(Scalar(0))
    &&& is_found(
        fragment.model,
        1,
        sorted_of(
            seq![pattern.parent_representation, pattern.representation_map] + pattern.item_ids@,
        ),
        check.residual,
    )
    &&& fragment.source matches CadFragmentSource::InstancePattern {
        parent_representation,
        representation_map,
        item_ids,
    } && parent_representation == pattern.parent_representation && representation_map
        == pattern.representation_map && item_ids@ == pattern.item_ids@
}

proof fn lemma_axes_stop(pattern: InstancePattern, check: LatticeCheck, n: nat, m: nat)
    requires
        n <= m,
        axes_fault(pattern, check, n) is Some,
    ensures
        axes_fault(pattern, check, m) == axes_fault(pattern, check, n),
    decreases m,
{
    if n < m {
        lemma_axes_stop(pattern, check, n, (m - 1) as nat);
    }
}

fn find_axes_fault(pattern: &InstancePattern, check: &LatticeCheck) -> (out: Option<RecoveryError>)
    requires
        pattern.basis@.len() == pattern.dimension,
        pattern.pitch@.len() == pattern.dimension,
    ensures
        out == axes_fault(*pattern, *check, pattern.dimension as nat),
{
    let mut i: usize = 0;
    let n: usize = pattern.basis.len();
    while i < n
        invariant
            i <= n,
            n == pattern.dimension,
            pattern.basis@.len() == pattern.dimension,
            pattern.pitch@.len() == pattern.dimension,
            axes_fault(*pattern, *check, i as nat) is None,
        decreases n - i,
    {
        let basis = pattern.basis[i];
        let good = Scalar(basis[0]).finite() && Scalar(basis[1]).finite() && Scalar(
            basis[2],
        ).finite() && Scalar(pattern.pitch[i]).positive();
        let fault: Option<RecoveryError> = if !good {
            Some(RecoveryError::AxisNotPositive(i))
        } else if !(i < check.lengths_agree.len() && check.lengths_agree[i]) {
            Some(RecoveryError::LengthDisagrees(i))
        } else {
            None
        };
        if fault.is_some() {
            proof {
                lemma_axes_stop(*pattern, *check, (i + 1) as nat, pattern.dimension as nat);
            }
            return fault;
        }
        i = i + 1;
    }
    None
}

fn find_duplicates(sites: &Vec<[i64; 2]>) -> (out: bool)
    ensures
        out == has_duplicates(sites@),
{
    let mut i: usize = 0;
    while i < sites.len()
        invariant
            i <= sites.len(),
            forall|a: int, b: int|
                0 <= a < b < i ==> (#[trigger] sites@[a])@ != (#[trigger] sites@[b])@,
        decreases sites.len() - i,
    {
        let mut k: usize = 0;
        while k < i
            invariant
                k <= i < sites.len(),
                forall|a: int| 0 <= a < k ==> (#[trigger] sites@[a])@ != sites@[i as int]@,
            decreases i - k,
        {
            if sites[k][0] == sites[i][0] && sites[k][1] == sites[i][1] {
                assert(sites@[k as int]@ =~= sites@[i as int]@);
                return true;
            }
            assert(sites@[k as int]@[0] != sites@[i as int]@[0] || sites@[k as int]@[1]
                != sites@[i as int]@[1]);
            k = k + 1;
        }
        i = i + 1;
    }
    false
}

proof fn lemma_sites_stop(pattern: InstancePattern, n: nat, m: nat)
    requires
        n <= m,
        sites_fault(pattern, n) is Some,
    ensures
        sites_fault(pattern, m) == sites_fault(pattern, n),
    decreases m,
{
    if n < m {
        lemma_sites_stop(pattern, n, (m - 1) as nat);
    }
}

fn find_sites_fault(pattern: &InstancePattern) -> (out: Option<RecoveryError>)
    requires
        1 <= pattern.dimension <= 2,
        pattern.grid_shape@.len() == pattern.dimension,
    ensures
        out == sites_fault(*pattern, pattern.occupancy@.len()),
        out is None ==> forall|i: int|
            0 <= i < pattern.occupancy@.len() ==> is_on_grid(
                *pattern,
                #[trigger] pattern.occupancy@[i],
            ),
{
    let long: usize = pattern.grid_shape[0];
    let wide: usize = if pattern.dimension == 2 {
        pattern.grid_shape[1]
    } else {
        1
    };
    let mut i: usize = 0;
    while i < pattern.occupancy.len()
        invariant
            i <= pattern.occupancy@.len(),
            long == pattern.grid_shape@[0],
            wide == (if pattern.dimension == 2 {
                pattern.grid_shape@[1] as int
            } else {
                1
            }),
            sites_fault(*pattern, i as nat) is None,
            forall|k: int|
                0 <= k < i ==> is_on_grid(*pattern, #[trigger] pattern.occupancy@[k]),
        decreases pattern.occupancy.len() - i,
    {
        let site = pattern.occupancy[i];
        let on_grid = site[0] >= 0 && (site[0] as u64) < long as u64 && (long as u64) <= 0x7fff_ffff_ffff_ffff
            && site[1] >= 0 && (site[1] as u64) < wide as u64 && (wide as u64) <= 0x7fff_ffff_ffff_ffff;
        assert(on_grid == is_on_grid(*pattern, site));
        let fault: Option<RecoveryError> = if !on_grid {
            Some(RecoveryError::OutsideGrid)
        } else if pattern.dimension == 1 && site[1] != 0 {
            Some(RecoveryError::OffTheLine)
        } else {
            None
        };
        if fault.is_some() {
            proof {
                lemma_sites_stop(*pattern, (i + 1) as nat, pattern.occupancy@.len());
            }
            return fault;
        }
        i = i + 1;
    }
    None
}

fn find_zero(shape: &Vec<usize>) -> (out: bool)
    ensures
        out == shape@.contains(0),
{
    let mut i: usize = 0;
    while i < shape.len()
        invariant
            i <= shape.len(),
            forall|k: int| 0 <= k < i ==> #[trigger] shape@[k] != 0,
        decreases shape.len() - i,
    {
        if shape[i] == 0 {
            assert(shape@[i as int] == 0);
            return true;
        }
        i = i + 1;
    }
    false
}

fn find_lattice_fault(pattern: &InstancePattern, check: &LatticeCheck) -> (out: Option<
    RecoveryError,
>)
    ensures
        out == lattice_fault(*pattern, *check),
        out is None ==> forall|i: int|
            0 <= i < pattern.occupancy@.len() ==> is_on_grid(
                *pattern,
                #[trigger] pattern.occupancy@[i],
            ),
{
    if pattern.item_ids.len() < 2 {
        return Some(RecoveryError::TooFewItems);
    }
    if pattern.occupancy.len() != pattern.item_ids.len() {
        return Some(RecoveryError::OccupancyMismatch);
    }
    if !check.tolerance_fits {
        return Some(RecoveryError::BadTolerance);
    }
    if !check.residual_fits {
        return Some(RecoveryError::BadResidual);
    }
    if !(Scalar(pattern.origin[0]).finite() && Scalar(pattern.origin[1]).finite() && Scalar(
        pattern.origin[2],
    ).finite()) {
        return Some(RecoveryError::OriginNotFinite);
    }
    let first = pattern.occupancy[0];
    if !(first[0] == 0 && first[1] == 0) {
        return Some(RecoveryError::NotAtOrigin);
    }
    if !(1 <= pattern.dimension && pattern.dimension <= 2) {
        return Some(RecoveryError::BadDimension);
    }
    let n: usize = pattern.dimension as usize;
    if pattern.basis.len() != n || pattern.pitch.len() != n || pattern.grid_shape.len() != n
        || check.steps.len() != n {
        return Some(RecoveryError::InconsistentDimensions);
    }
    if find_zero(&pattern.grid_shape) {
        return Some(RecoveryError::ZeroDimension);
    }
    if !check.fill_agrees {
        return Some(RecoveryError::BadFill);
    }
    let axes = find_axes_fault(pattern, check);
    if axes.is_some() {
        return axes;
    }
    if find_duplicates(&pattern.occupancy) {
        return Some(RecoveryError::DuplicateSite);
    }
    find_sites_fault(pattern)
}

fn find_full_row(pattern: &InstancePattern) -> (out: bool)
    requires
        pattern.grid_shape@.len() > 0,
    ensures
        out == is_full_row(*pattern),
{
    if pattern.grid_shape[0] != pattern.item_ids.len() {
        return false;
    }
    let mut i: usize = 0;
    while i < pattern.occupancy.len()
        invariant
            i <= pattern.occupancy@.len(),
            forall|k: int|
                0 <= k < i ==> (#[trigger] pattern.occupancy@[k])@[0] == k
                    && pattern.occupancy@[k]@[1] == 0,
        decreases pattern.occupancy.len() - i,
    {
        let site = pattern.occupancy[i];
        if !(site[0] >= 0 && site[0] as u64 == i as u64 && site[1] == 0) {
            assert(!(pattern.occupancy@[i as int]@[0] == i && pattern.occupancy@[i as int]@[1]
                == 0));
            return false;
        }
        i = i + 1;
    }
    true
}

fn to_cells(pattern: &InstancePattern) -> (out: Vec<[usize; 3]>)
    requires
        pattern.grid_shape@.len() > 0,
        pattern.dimension == 2 ==> pattern.grid_shape@.len() > 1,
        forall|i: int|
            0 <= i < pattern.occupancy@.len() ==> is_on_grid(
                *pattern,
                #[trigger] pattern.occupancy@[i],
            ),
    ensures
        are_cells(out@, pattern.occupancy@),
{
    let mut out: Vec<[usize; 3]> = Vec::new();
    let mut i: usize = 0;
    while i < pattern.occupancy.len()
        invariant
            i <= pattern.occupancy@.len(),
            out@.len() == i,
            forall|i: int|
                0 <= i < pattern.occupancy@.len() ==> is_on_grid(
                    *pattern,
                    #[trigger] pattern.occupancy@[i],
                ),
            forall|k: int|
                0 <= k < i ==> (#[trigger] out@[k])@[0] == pattern.occupancy@[k]@[0] && out@[k]@[1]
                    == pattern.occupancy@[k]@[1] && out@[k]@[2] == 0,
        decreases pattern.occupancy.len() - i,
    {
        let site = pattern.occupancy[i];
        assert(is_on_grid(*pattern, pattern.occupancy@[i as int]));
        out.push([site[0] as usize, site[1] as usize, 0]);
        i = i + 1;
    }
    out
}

fn make_spec(pattern: &InstancePattern, check: &LatticeCheck) -> (out: PatternSpec)
    requires
        1 <= pattern.dimension <= 2,
        pattern.grid_shape@.len() == pattern.dimension,
        check.steps@.len() == pattern.dimension,
        forall|i: int|
            0 <= i < pattern.occupancy@.len() ==> is_on_grid(
                *pattern,
                #[trigger] pattern.occupancy@[i],
            ),
    ensures
        is_spec(*pattern, *check, out),
{
    let none = Scalar(0);
    let still = [none, none, none];
    if pattern.dimension == 1 {
        if find_full_row(pattern) {
            return PatternSpec::Linear { count: pattern.item_ids.len(), step: check.steps[0] };
        }
        return PatternSpec::Grid {
            counts: [pattern.grid_shape[0], 1, 1],
            step_vectors: [check.steps[0], still, still],
            occupancy: Some(to_cells(pattern)),
        };
    }
    let occupancy = if covers_full_grid(
        &pattern.occupancy,
        pattern.grid_shape[0],
        pattern.grid_shape[1],
    ) {
        None
    } else {
        Some(to_cells(pattern))
    };
    PatternSpec::Grid {
        counts: [pattern.grid_shape[0], pattern.grid_shape[1], 1],
        step_vectors: [check.steps[0], check.steps[1], still],
        occupancy,
    }
}

/// The model of a lattice of instances. The first instance is kept as it is, and a pattern says
/// where the others are.
pub fn recover_instance_pattern_fragment(pattern: &InstancePattern, check: &LatticeCheck) -> (out:
    Result<CadFragment, RecoveryError>)
    ensures
        match out {
            Ok(fragment) => lattice_fault(*pattern, *check) is None && is_lattice_model(
                *pattern,
                *check,
                fragment,
            ) && fragment.model.fault() is None,
            Err(error) => lattice_fault(*pattern, *check) == Some(error),
        },
{
    if let Some(fault) = find_lattice_fault(pattern, check) {
        return Err(fault);
    }
    let first: u64 = pattern.item_ids[0];
    let spec = make_spec(pattern, check);
    let mut ids: Vec<u64> = vec![pattern.parent_representation, pattern.representation_map];
    append_ids(&mut ids, &pattern.item_ids);
    assert(ids@ =~= seq![pattern.parent_representation, pattern.representation_map]
        + pattern.item_ids@);
    let sources = sorted_set(&ids);
    let own: Vec<u64> = vec![first];
    assert(own@ =~= seq![pattern.item_ids@[0]]);
    let about: Vec<u64> = vec![first, pattern.representation_map];
    assert(about@ =~= seq![pattern.item_ids@[0], pattern.representation_map]);
    let fragment = two_nodes(
        CadNode::BrepFallback(
            BrepFallback {
                source_entity_ids: own,
                estimated_faces: 0,
                estimated_edges: 0,
                estimated_control_points: 0,
            },
        ),
        CadNode::Pattern { pattern: spec, child: NodeId(0) },
        Provenance {
            source_entity_ids: about,
            proof: ProofStatus::Exact,
            max_residual: Some(Scalar(0)),
        },
        Provenance {
            source_entity_ids: sources,
            proof: ProofStatus::WithinTolerance,
            max_residual: Some(check.residual),
        },
        CadFragmentSource::InstancePattern {
            parent_representation: pattern.parent_representation,
            representation_map: pattern.representation_map,
            item_ids: copy_ids(&pattern.item_ids),
        },
    );
    Ok(fragment)
}

/// The models of extrusions. The first of them that has none decides the error.
pub fn recover_solid_extrusion_fragments(found: &Vec<RecoveredSolidExtrusion>, checks: &Vec<FrameCheck>) -> (out: Result<
    Vec<CadFragment>,
    RecoveryError,
>)
    requires
        checks@.len() == found@.len(),
    ensures
        match out {
            Ok(fragments) => fragments@.len() == found@.len() && forall|i: int|
                0 <= i < found@.len() ==> extrusion_fault(found@[i], checks@[i]) is None
                    && is_extrusion_model(found@[i], #[trigger] fragments@[i])
                    && fragments@[i].model.fault() is None,
            Err(error) => exists|i: int|
                0 <= i < found@.len() && #[trigger] extrusion_fault(found@[i], checks@[i]) == Some(
                    error,
                ) && forall|k: int|
                    0 <= k < i ==> #[trigger] extrusion_fault(found@[k], checks@[k]) is None,
        },
{
    let mut out: Vec<CadFragment> = Vec::new();
    let mut i: usize = 0;
    while i < found.len()
        invariant
            i <= found.len(),
            checks@.len() == found@.len(),
            out@.len() == i,
            forall|k: int|
                0 <= k < i ==> #[trigger] extrusion_fault(found@[k], checks@[k]) is None,
            forall|k: int|
                0 <= k < i ==> is_extrusion_model(found@[k], #[trigger] out@[k])
                    && out@[k].model.fault() is None,
        decreases found.len() - i,
    {
        match recover_solid_extrusion_fragment(&found[i], &checks[i]) {
            Ok(fragment) => out.push(fragment),
            Err(error) => {
                assert(extrusion_fault(found@[i as int], checks@[i as int]) == Some(error));
                return Err(error);
            },
        }
        i = i + 1;
    }
    proof {
        assert forall|k: int| 0 <= k < found@.len() implies extrusion_fault(found@[k], checks@[k]) is None
            && is_extrusion_model(found@[k], #[trigger] out@[k])
            && out@[k].model.fault() is None by {
            assert(extrusion_fault(found@[k], checks@[k]) is None);
        }
    }
    Ok(out)
}

/// The models of solids that are turned. The first of them that has none decides the error.
pub fn recover_solid_revolution_fragments(found: &Vec<RecoveredSolidRevolution>, checks: &Vec<RevolutionCheck>) -> (out: Result<
    Vec<CadFragment>,
    RecoveryError,
>)
    requires
        checks@.len() == found@.len(),
    ensures
        match out {
            Ok(fragments) => fragments@.len() == found@.len() && forall|i: int|
                0 <= i < found@.len() ==> revolution_fault(found@[i], checks@[i]) is None
                    && is_revolution_model(found@[i], checks@[i], #[trigger] fragments@[i])
                    && fragments@[i].model.fault() is None,
            Err(error) => exists|i: int|
                0 <= i < found@.len() && #[trigger] revolution_fault(found@[i], checks@[i]) == Some(
                    error,
                ) && forall|k: int|
                    0 <= k < i ==> #[trigger] revolution_fault(found@[k], checks@[k]) is None,
        },
{
    let mut out: Vec<CadFragment> = Vec::new();
    let mut i: usize = 0;
    while i < found.len()
        invariant
            i <= found.len(),
            checks@.len() == found@.len(),
            out@.len() == i,
            forall|k: int|
                0 <= k < i ==> #[trigger] revolution_fault(found@[k], checks@[k]) is None,
            forall|k: int|
                0 <= k < i ==> is_revolution_model(found@[k], checks@[k], #[trigger] out@[k])
                    && out@[k].model.fault() is None,
        decreases found.len() - i,
    {
        match recover_solid_revolution_fragment(&found[i], &checks[i]) {
            Ok(fragment) => out.push(fragment),
            Err(error) => {
                assert(revolution_fault(found@[i as int], checks@[i as int]) == Some(error));
                return Err(error);
            },
        }
        i = i + 1;
    }
    proof {
        assert forall|k: int| 0 <= k < found@.len() implies revolution_fault(found@[k], checks@[k]) is None
            && is_revolution_model(found@[k], checks@[k], #[trigger] out@[k])
            && out@[k].model.fault() is None by {
            assert(revolution_fault(found@[k], checks@[k]) is None);
        }
    }
    Ok(out)
}

/// The models of lattices. The first of them that has none decides the error.
pub fn recover_instance_pattern_fragments(found: &Vec<InstancePattern>, checks: &Vec<LatticeCheck>) -> (out: Result<
    Vec<CadFragment>,
    RecoveryError,
>)
    requires
        checks@.len() == found@.len(),
    ensures
        match out {
            Ok(fragments) => fragments@.len() == found@.len() && forall|i: int|
                0 <= i < found@.len() ==> lattice_fault(found@[i], checks@[i]) is None
                    && is_lattice_model(found@[i], checks@[i], #[trigger] fragments@[i])
                    && fragments@[i].model.fault() is None,
            Err(error) => exists|i: int|
                0 <= i < found@.len() && #[trigger] lattice_fault(found@[i], checks@[i]) == Some(
                    error,
                ) && forall|k: int|
                    0 <= k < i ==> #[trigger] lattice_fault(found@[k], checks@[k]) is None,
        },
{
    let mut out: Vec<CadFragment> = Vec::new();
    let mut i: usize = 0;
    while i < found.len()
        invariant
            i <= found.len(),
            checks@.len() == found@.len(),
            out@.len() == i,
            forall|k: int|
                0 <= k < i ==> #[trigger] lattice_fault(found@[k], checks@[k]) is None,
            forall|k: int|
                0 <= k < i ==> is_lattice_model(found@[k], checks@[k], #[trigger] out@[k])
                    && out@[k].model.fault() is None,
        decreases found.len() - i,
    {
        match recover_instance_pattern_fragment(&found[i], &checks[i]) {
            Ok(fragment) => out.push(fragment),
            Err(error) => {
                assert(lattice_fault(found@[i as int], checks@[i as int]) == Some(error));
                return Err(error);
            },
        }
        i = i + 1;
    }
    proof {
        assert forall|k: int| 0 <= k < found@.len() implies lattice_fault(found@[k], checks@[k]) is None
            && is_lattice_model(found@[k], checks@[k], #[trigger] out@[k])
            && out@[k].model.fault() is None by {
            assert(lattice_fault(found@[k], checks@[k]) is None);
        }
    }
    Ok(out)
}

} // verus!
