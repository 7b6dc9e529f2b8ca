//! Which edits and models are refused, and how refusals of different numbers of sites relate.

use vstd::prelude::*;

use crate::ast::EntityView;
use crate::cad_recovery::{
    extrusion_fault, is_finite_vector, revolution_fault, FrameCheck, RecoveredSolidExtrusion,
    RecoveredSolidRevolution, RevolutionCheck,
};
use crate::count_resize::count_refusal;
use crate::face_info::{edge_vertices_of, oriented_ends};
use crate::graph::{nth_logical, record_at};
use crate::parameters::RecoveredCountParameter;
use crate::periodic_bodies::PeriodicBodyPattern;
use crate::periodic_resize::{growth_fault, shrinking_fault};
use crate::resize::{center_refusal, one_side_refusal, PeriodicChainPattern};
use crate::weld_laws::runs_from_to;

verus! {

/// Whether every family of a body has as many faces as the body has sites.
pub open spec fn fills_its_sites(body: PeriodicBodyPattern) -> bool {
    forall|i: int|
        0 <= i < body.repeat_face_families@.len()
            ==> (#[trigger] body.repeat_face_families@[i]).face_ids@.len() == body.sites
}

/// A body grows only to more sites and shrinks only to fewer, at least four. One that may grow
/// to some number may grow to any larger one, and one that may shrink to some number may shrink
/// to any between that and its own. One with two sites or more that may shrink may grow.
pub proof fn law_bodies_grow_or_shrink(
    body: PeriodicBodyPattern,
    has_axis: bool,
    to: usize,
    other: usize,
)
    ensures
        growth_fault(body, to, has_axis) is None ==> {
            &&& to > body.sites
            &&& body.sites >= 2
            &&& has_axis
            &&& fills_its_sites(body)
            &&& body.repeat_face_families@.len() > 0
            &&& other > body.sites ==> growth_fault(body, other, has_axis) is None
        },
        shrinking_fault(body, to, has_axis) is None ==> {
            &&& 4 <= to < body.sites
            &&& has_axis
            &&& fills_its_sites(body)
            &&& body.repeat_face_families@.len() > 0
            &&& to <= other < body.sites ==> shrinking_fault(body, other, has_axis) is None
            &&& other > body.sites ==> growth_fault(body, other, has_axis) is None
        },
        growth_fault(body, body.sites, has_axis) is Some,
        shrinking_fault(body, body.sites, has_axis) is Some,
{
}

/// A parameter leads to a number of sites where its bodies are proven, and there are some, and
/// the number is another one and at least four. Then it leads to any other such number.
pub proof fn law_parameters_lead_to_sites(
    parameters: Seq<RecoveredCountParameter>,
    index: usize,
    to: usize,
    other: usize,
)
    ensures
        count_refusal(parameters, index, to) is None ==> {
            &&& index < parameters.len()
            &&& parameters[index as int].body_grammar_proven
            &&& parameters[index as int].periodic_bodies@.len() > 0
            &&& to >= 4
            &&& to != parameters[index as int].sites
            &&& other >= 4 && other != parameters[index as int].sites ==> count_refusal(
                parameters,
                index,
                other,
            ) is None
        },
        index < parameters.len() ==> count_refusal(
            parameters,
            index,
            parameters[index as int].sites,
        ) is Some,
{
}

/// A chain is resized about its centre only where it is proven and complete, by an even number
/// of sites, and to six or more. Then it is resized so by any other even number to six or more,
/// and, where there is one section, at one end too.
pub proof fn law_chains_keep_their_centre(
    input: Seq<u8>,
    chains: Seq<PeriodicChainPattern>,
    index: usize,
    to: usize,
    other: usize,
)
    ensures
        center_refusal(input, chains, index, to) is None ==> {
            &&& index < chains.len()
            &&& chains[index as int].read_only_proven
            &&& chains[index as int].complete_partition
            &&& to != chains[index as int].sites
            &&& to >= 6
            &&& (to - chains[index as int].sites) % 2 == 0
            &&& other >= 6 && other != chains[index as int].sites && (other - to) % 2 == 0
                ==> center_refusal(input, chains, index, other) is None
            &&& (one_side_refusal(input, chains, index, to) is None || one_side_refusal(
                input,
                chains,
                index,
                to,
            ) == Some(crate::resize::EditError::Sections))
        },
        one_side_refusal(input, chains, index, to) is None ==> {
            &&& index < chains.len()
            &&& chains[index as int].read_only_proven
            &&& to != chains[index as int].sites
            &&& other != chains[index as int].sites ==> one_side_refusal(
                input,
                chains,
                index,
                other,
            ) is None
        },
{
}

/// An oriented edge runs along its edge, from start to end or the other way, as its own
/// orientation says.
pub proof fn law_oriented_edge_runs_as_it_says(entities: Seq<EntityView>, oe: u64, edge: u64)
    ensures
        oriented_ends(entities, oe, edge) matches Some(found) ==> {
            &&& record_at(entities, oe) matches Some(record)
            &&& nth_logical(record, 4) matches Some(forward)
            &&& edge_vertices_of(entities, edge) matches Some(vertices)
            &&& found == runs_from_to(vertices, forward)
        },
{
}

/// A model of an extrusion is made only of a profile that is there, pushed by a positive height,
/// in a frame of finite unit vectors that are at right angles and right-handed.
pub proof fn law_extrusions_are_sound(extrusion: RecoveredSolidExtrusion, frame: FrameCheck)
    requires
        extrusion_fault(extrusion, frame) is None,
    ensures
        extrusion.profile_curves@.len() > 0,
        extrusion.height.is_positive(),
        extrusion.max_residual.is_finite(),
        is_finite_vector(extrusion.origin),
        is_finite_vector(extrusion.x_axis),
        is_finite_vector(extrusion.y_axis),
        is_finite_vector(extrusion.z_axis),
        frame.unit && frame.orthogonal && frame.right_handed,
{
}

/// A model of a solid that is turned is made only of a profile that is there and closed, around
/// an axis in a frame of finite unit vectors that are at right angles.
pub proof fn law_revolutions_are_sound(
    revolution: RecoveredSolidRevolution,
    check: RevolutionCheck,
    i: int,
)
    requires
        revolution_fault(revolution, check) is None,
        0 <= i < revolution.profile_curves@.len(),
    ensures
        revolution.profile_curves@.len() > 0,
        crate::cad_recovery::meridian_check(check, i).joined,
        is_finite_vector(revolution.axis_origin),
        is_finite_vector(revolution.axis_direction),
        is_finite_vector(revolution.radial_direction),
        check.orthonormal && check.unit_normal && check.tolerance_fits && check.residual_fits,
{
}

} // verus!
