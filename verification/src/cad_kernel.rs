//! What a kernel has to do to build a model.

use vstd::prelude::*;

use crate::cad_ir::{CadNode, Curve2d, NodeId, Profile2d, Scalar};
use crate::cad_model::{edge, is_low, CadModel, ModelError};
use crate::profile_curves::{are_weights, find_spline, find_weights, is_spline};

verus! {

/// Why a model cannot be built.
#[derive(Debug, Clone, Copy, PartialEq, Eq, Structural)]
pub enum KernelError {
    Model(ModelError),
    /// A profile is pushed in another direction than the third.
    NotAlongZ,
    Unsupported(NodeId),
    BadLength,
    SeveralLoops,
    EmptyLoop,
    NoControlPoints,
    TooFewControlPoints,
    DegreeOverflow,
    KnotOverflow,
    BadSpline,
    BadWeights,
}

/// The body to build, and the transforms to place it with, the outermost first.
#[derive(Debug)]
pub struct BuildPlan {
    pub frames: Vec<NodeId>,
    pub body: NodeId,
}

/// What building a node takes: below it stand only transforms, and under them a profile that is
/// pushed along the third axis. The node is at most so many transforms away.
pub open spec fn plan_of(nodes: Seq<CadNode>, at: NodeId, fuel: nat) -> Result<
    (Seq<NodeId>, NodeId),
    KernelError,
>
    decreases fuel,
{
    if at.0 >= nodes.len() {
        Err(KernelError::Model(ModelError::OutOfRange))
    } else {
        match nodes[at.0 as int] {
            CadNode::Extrude { vector, .. } => if vector@[0].magnitude() != 0
                || vector@[1].magnitude() != 0 {
                Err(KernelError::NotAlongZ)
            } else {
                Ok((Seq::empty(), at))
            },
            CadNode::Transform { child, .. } => if fuel == 0 {
                Err(KernelError::Model(ModelError::Cycle))
            } else {
                match plan_of(nodes, child, (fuel - 1) as nat) {
                    Ok((frames, body)) => Ok((seq![at] + frames, body)),
                    Err(error) => Err(error),
                }
            },
            _ => Err(KernelError::Unsupported(at)),
        }
    }
}

/// A plan behind some more frames.
pub open spec fn behind(
    before: Seq<NodeId>,
    plan: Result<(Seq<NodeId>, NodeId), KernelError>,
) -> Result<(Seq<NodeId>, NodeId), KernelError> {
    match plan {
        Ok((frames, body)) => Ok((before + frames, body)),
        Err(error) => Err(error),
    }
}

/// A node that is not built from more levels than there is fuel has a plan, or there is another
/// reason why it has none.
pub proof fn law_low_nodes_end(nodes: Seq<CadNode>, at: NodeId, height: nat, fuel: nat)
    requires
        is_low(nodes, at.0 as int, height),
        height <= fuel,
    ensures
        plan_of(nodes, at, fuel) != Err::<(Seq<NodeId>, NodeId), KernelError>(
            KernelError::Model(ModelError::Cycle),
        ),
    decreases fuel,
{
    if at.0 < nodes.len() {
        if let CadNode::Transform { child, .. } = nodes[at.0 as int] {
            assert(nodes[at.0 as int].parts()[0] == child);
            assert(edge(nodes, at.0 as int, child.0 as int));
            if child.0 < nodes.len() {
                law_low_nodes_end(nodes, child, (height - 1) as nat, (fuel - 1) as nat);
            }
        }
    }
}

/// Finds what building a node of a sound model takes.
pub fn plan_node(model: &CadModel, root: NodeId) -> (out: Result<BuildPlan, KernelError>)
    ensures
        match (out, model.fault()) {
            (Err(error), Some(fault)) => error == KernelError::Model(fault),
            (Ok(plan), None) => plan_of(model.nodes@, root, model.nodes@.len()) == Ok::<
                (Seq<NodeId>, NodeId),
                KernelError,
            >((plan.frames@, plan.body)),
            (Err(error), None) => plan_of(model.nodes@, root, model.nodes@.len()) == Err::<
                (Seq<NodeId>, NodeId),
                KernelError,
            >(error),
            _ => false,
        },
        model.fault() is None ==> (out matches Err(error) ==> error != KernelError::Model(
            ModelError::Cycle,
        )),
{
    if let Err(error) = model.validate() {
        return Err(KernelError::Model(error));
    }
    let ghost nodes = model.nodes@;
    proof {
        if root.0 < nodes.len() {
            law_low_nodes_end(nodes, root, nodes.len(), nodes.len());
        }
    }
    let ghost whole = plan_of(nodes, root, nodes.len());
    let mut frames: Vec<NodeId> = Vec::new();
    let mut at: NodeId = root;
    let mut fuel: usize = model.nodes.len();
    assert(behind(Seq::empty(), whole) == whole) by {
        if let Ok((rest, body)) = whole {
            assert(Seq::<NodeId>::empty() + rest =~= rest);
        }
    }
    loop
        invariant
            nodes == model.nodes@,
            model.fault() is None,
            whole == plan_of(nodes, root, nodes.len()),
            whole == behind(frames@, plan_of(nodes, at, fuel as nat)),
            whole != Err::<(Seq<NodeId>, NodeId), KernelError>(
                KernelError::Model(ModelError::Cycle),
            ),
        decreases fuel,
    {
        if at.0 >= model.nodes.len() {
            return Err(KernelError::Model(ModelError::OutOfRange));
        }
        match &model.nodes[at.0] {
            CadNode::Extrude { vector, .. } => {
                if !vector[0].is_zero() || !vector[1].is_zero() {
                    return Err(KernelError::NotAlongZ);
                }
                assert(frames@ + Seq::<NodeId>::empty() =~= frames@);
                return Ok(BuildPlan { frames, body: at });
            },
            CadNode::Transform { child, .. } => {
                if fuel == 0 {
                    return Err(KernelError::Model(ModelError::Cycle));
                }
                let ghost before = frames@;
                frames.push(at);
                proof {
                    if let Ok((rest, body)) = plan_of(nodes, *child, (fuel - 1) as nat) {
                        assert(before + (seq![at] + rest) =~= before.push(at) + rest);
                    }
                }
                fuel = fuel - 1;
                at = *child;
            },
            _ => {
                return Err(KernelError::Unsupported(at));
            },
        }
    }
}

/// What is wrong with a curve that a kernel is to build, apart from where it lies.
pub open spec fn curve_fault(curve: Curve2d) -> Option<KernelError> {
    match curve {
        Curve2d::Bezier { control_points } => if control_points@.len() == 0 {
            Some(KernelError::NoControlPoints)
        } else if control_points@.len() < 2 {
            Some(KernelError::TooFewControlPoints)
        } else {
            None
        },
        Curve2d::BSpline { degree, control_points, knots, weights } => if control_points@.len()
            == 0 {
            Some(KernelError::NoControlPoints)
        } else if degree + 1 > usize::MAX {
            Some(KernelError::DegreeOverflow)
        } else if control_points@.len() + degree + 1 > usize::MAX {
            Some(KernelError::KnotOverflow)
        } else if !is_spline(degree as int, control_points@, knots@) {
            Some(KernelError::BadSpline)
        } else {
            match weights {
                Some(weights) => if are_weights(weights@, control_points@.len()) {
                    None
                } else {
                    Some(KernelError::BadWeights)
                },
                None => None,
            }
        },
        _ => None,
    }
}

/// Checks a curve that a kernel is to build.
pub fn check_curve(curve: &Curve2d) -> (out: Option<KernelError>)
    ensures
        out == curve_fault(*curve),
{
    match curve {
        Curve2d::Bezier { control_points } => if control_points.len() == 0 {
            Some(KernelError::NoControlPoints)
        } else if control_points.len() < 2 {
            Some(KernelError::TooFewControlPoints)
        } else {
            None
        },
        Curve2d::BSpline { degree, control_points, knots, weights } => {
            if control_points.len() == 0 {
                return Some(KernelError::NoControlPoints);
            }
            let order: usize = match degree.checked_add(1) {
                Some(order) => order,
                None => {
                    return Some(KernelError::DegreeOverflow);
                },
            };
            if control_points.len().checked_add(order).is_none() {
                return Some(KernelError::KnotOverflow);
            }
            if !find_spline(*degree, control_points, knots) {
                return Some(KernelError::BadSpline);
            }
            match weights {
                Some(weights) => if find_weights(weights, control_points.len()) {
                    None
                } else {
                    Some(KernelError::BadWeights)
                },
                None => None,
            }
        },
        _ => None,
    }
}

/// What is wrong with a profile that a kernel is to push by a length.
pub open spec fn profile_fault(profile: Profile2d, length: Scalar) -> Option<KernelError> {
    if !length.is_finite() || length.magnitude() == 0 {
        Some(KernelError::BadLength)
    } else if profile.loops@.len() != 1 {
        Some(KernelError::SeveralLoops)
    } else if profile.loops@[0].curves@.len() == 0 {
        Some(KernelError::EmptyLoop)
    } else {
        None
    }
}

/// Checks a profile that a kernel is to push by a length.
pub fn check_profile(profile: &Profile2d, length: Scalar) -> (out: Option<KernelError>)
    ensures
        out == profile_fault(*profile, length),
{
    if !length.finite() || length.is_zero() {
        Some(KernelError::BadLength)
    } else if profile.loops.len() != 1 {
        Some(KernelError::SeveralLoops)
    } else if profile.loops[0].curves.len() == 0 {
        Some(KernelError::EmptyLoop)
    } else {
        None
    }
}

} // verus!
