//! Resizing of periodic bodies.

use std::collections::{HashMap, HashSet};
use vstd::prelude::*;

use crate::ast::{
    entities_view, lemma_list_view, params_view, EntityInstance, EntityView, ParamView, Parameter,
};
use crate::body_bounds::{rebuild_face_bounds, rebuilt, set_list, with_list};
use crate::body_copies::{clone_descendants, with_copies};
use crate::body_graph::{
    bounds_of, corners, draft_of, face_vertices, find_bounds, find_outer, has_outer, BodyError,
    Draft,
};
use crate::body_plan::{
    all_bounded, all_corners, all_placed, cap_marks, copy_marks, edge_faces, edges_for,
    find_all_corners, find_all_placed, find_cap_marks, find_copy_marks, find_site_marks, marked,
    site_marks, Scene, SceneView,
};
use crate::body_rows::{add_rows, with_rows, BodyEvidence, Stage};
use crate::face_coalesce::append_ids;
use crate::graph::{
    entity_ref_value, find_record, find_typed, indexes, max_id, nth_entity_ref_list, nth_ref_list,
    record_at, ref_value, typed_record,
};
use crate::periodic_bodies::PeriodicBodyPattern;
use crate::sets::{set_of, sorted_of, sorted_set};

verus! {

broadcast use vstd::std_specs::hash::group_hash_axioms;

/// What resizing a periodic body has changed.
#[derive(Debug, Clone, Copy, PartialEq, Eq, Structural)]
pub struct PeriodicBodyResizeStats {
    pub old_sites: usize,
    pub new_sites: usize,
    pub canonical_site: usize,
    pub cloned_repeat_faces: usize,
    pub cloned_positive_fixed_faces: usize,
    pub rebuilt_stretch_faces: usize,
    pub new_stretch_edges: usize,
    pub added_entities: usize,
}

/// What resizing a periodic chain has changed.
#[derive(Debug, Clone, Copy, PartialEq, Eq, Structural)]
pub struct PeriodicChainResizeStats {
    pub old_sites: usize,
    pub new_sites: usize,
    pub inserted_units: usize,
    pub removed_units: usize,
    pub seam_edge_pairs: usize,
    pub welded_vertices: usize,
    pub welded_edges: usize,
    pub rebuilt_stretch_faces: usize,
    pub new_stretch_edges: usize,
    pub added_entities: usize,
    pub pruned_entities: usize,
    pub entity_delta: isize,
}

/// The bit pattern of the double 1e-7.
pub const LEAST_PITCH: u64 = 0x3E7A_D7F2_9ABC_AF48;

/// Whether the bit pattern of a double is that of a finite number above 1e-7.
pub open spec fn is_pitch(bits: u64) -> bool {
    LEAST_PITCH < bits < 0x7FF0_0000_0000_0000
}

/// Every family has a face at every site.
pub open spec fn is_even(body: PeriodicBodyPattern) -> bool {
    forall|i: int|
        0 <= i < body.repeat_face_families@.len() ==> (#[trigger] body.repeat_face_families@[i]).face_ids@.len()
            == body.sites
}

/// The faces of a site.
pub open spec fn site_faces(body: PeriodicBodyPattern, site: int) -> Seq<u64> {
    Seq::new(
        body.repeat_face_families@.len(),
        |i: int| body.repeat_face_families@[i].face_ids@[site],
    )
}

/// The faces of the sites from one up to another.
pub open spec fn sites_faces(body: PeriodicBodyPattern, from: int, to: int) -> Seq<u64>
    decreases to - from,
{
    if to <= from {
        Seq::empty()
    } else {
        sites_faces(body, from, to - 1) + site_faces(body, to - 1)
    }
}

/// The first of some parameters that refers to a closed shell.
pub open spec fn shell_in(entities: Seq<EntityView>, params: Seq<ParamView>) -> Option<u64>
    decreases params.len(),
{
    if params.len() == 0 {
        None
    } else {
        match ref_value(params[0]) {
            Some(id) if typed_record(entities, id, "CLOSED_SHELL"@) is Some => Some(id),
            _ => shell_in(entities, params.drop_first()),
        }
    }
}

/// The shell of a solid.
pub open spec fn shell_of(entities: Seq<EntityView>, solid: u64) -> Option<u64> {
    match record_at(entities, solid) {
        Some(record) => match record.parameter {
            ParamView::List(params) => shell_in(entities, params),
            _ => None,
        },
        None => None,
    }
}

/// The faces that lie behind the last site, or those that do not.
pub open spec fn on_side(beyond: Map<u64, bool>, faces: Seq<u64>, side: bool) -> Seq<u64>
    decreases faces.len(),
{
    if faces.len() == 0 {
        Seq::empty()
    } else {
        let rest = on_side(beyond, faces.drop_last(), side);
        if beyond[faces.last()] == side {
            rest.push(faces.last())
        } else {
            rest
        }
    }
}

pub open spec fn all_measured(beyond: Map<u64, bool>, faces: Seq<u64>) -> bool {
    forall|i: int| 0 <= i < faces.len() ==> beyond.contains_key(#[trigger] faces[i])
}

pub open spec fn all_have_ends(entities: Seq<EntityView>, faces: Seq<u64>) -> bool {
    forall|i: int| 0 <= i < faces.len() ==> corners(entities, #[trigger] faces[i]) is Some
}

/// What is known of a body before it is resized.
#[verifier::ext_equal]
pub struct PlanView {
    pub shell: u64,
    pub shell_faces: Seq<u64>,
    pub scene: SceneView,
    pub left: Seq<u64>,
    pub right: Seq<u64>,
}

pub open spec fn kept_sites(body: PeriodicBodyPattern, new_sites: usize) -> usize {
    if new_sites < body.sites {
        new_sites
    } else {
        body.sites
    }
}

/// The faces of a body in ascending order.
pub open spec fn all_faces(body: PeriodicBodyPattern) -> Seq<u64> {
    sorted_of(
        sites_faces(body, 0, body.sites as int) + body.stretch_face_ids@ + body.fixed_face_ids@,
    )
}

/// The plan for a body.
pub open spec fn plan_of(
    entities: Seq<EntityView>,
    body: PeriodicBodyPattern,
    new_sites: usize,
    evidence: BodyEvidence,
) -> Result<PlanView, BodyError> {
    let kept = kept_sites(body, new_sites);
    let fixed = sorted_of(body.fixed_face_ids@);
    let left = on_side(evidence.beyond@, fixed, false);
    let right = on_side(evidence.beyond@, fixed, true);
    match shell_of(entities, body.solid_id) {
        None => Err(BodyError::NoShell),
        Some(shell) => match nth_ref_list(record_at(entities, shell)->Some_0, 1) {
            None => Err(BodyError::BadTopology),
            Some(shell_faces) => if !all_bounded(entities, all_faces(body)) {
                Err(BodyError::BadTopology)
            } else if !all_measured(
                evidence.beyond@,
                sites_faces(body, 0, body.sites as int),
            ) || !all_measured(evidence.beyond@, fixed) {
                Err(BodyError::NotMeasured)
            } else if left.len() == 0 || right.len() == 0 {
                Err(BodyError::NoCaps)
            } else if !all_have_ends(entities, body.stretch_face_ids@) {
                Err(BodyError::BadTopology)
            } else {
                Ok(
                    PlanView {
                        shell,
                        shell_faces,
                        scene: SceneView {
                            entities,
                            faces: all_faces(body),
                            kept: sites_faces(body, 0, kept as int).to_set(),
                            model: site_faces(body, body.sites as int / 2).to_set(),
                            stretch: body.stretch_face_ids@.to_set(),
                            fixed: body.fixed_face_ids@.to_set(),
                            right: right.to_set(),
                        },
                        left,
                        right,
                    },
                )
            },
        },
    }
}

/// Copies of parts of a body.
#[verifier::ext_equal]
pub struct CopyView {
    pub entities: Seq<EntityView>,
    /// The ids of the copies of the end that moves.
    pub cap: Map<u64, u64>,
    /// The ids of the copies of the copied site, for each new site.
    pub maps: Seq<Map<u64, u64>>,
    /// The faces of the new sites.
    pub faces: Seq<u64>,
}

pub open spec fn all_keys(map: Map<u64, u64>, ids: Seq<u64>) -> bool {
    forall|i: int| 0 <= i < ids.len() ==> map.contains_key(#[trigger] ids[i])
}

/// The copies of ids.
pub open spec fn images(map: Map<u64, u64>, ids: Seq<u64>) -> Seq<u64> {
    Seq::new(ids.len(), |i: int| map[ids[i]])
}

/// The copies for the end that moves and the first `n` new sites.
pub open spec fn copied(
    start: Seq<EntityView>,
    right: Seq<u64>,
    model: Seq<u64>,
    evidence: BodyEvidence,
    n: nat,
) -> Result<CopyView, BodyError>
    decreases n,
{
    if n == 0 {
        match with_copies(start, start, right, evidence.cap_spots@) {
            Err(error) => Err(error),
            Ok((entities, cap)) => if all_keys(cap, right) {
                Ok(CopyView { entities, cap, maps: Seq::empty(), faces: Seq::empty() })
            } else {
                Err(BodyError::MissingCopy)
            },
        }
    } else {
        match copied(start, right, model, evidence, (n - 1) as nat) {
            Err(error) => Err(error),
            Ok(copy) => if n > evidence.site_spots@.len() {
                Err(BodyError::NotMeasured)
            } else {
                match with_copies(start, copy.entities, model, evidence.site_spots@[n - 1]@) {
                    Err(error) => Err(error),
                    Ok((entities, map)) => if all_keys(map, model) {
                        Ok(
                            CopyView {
                                entities,
                                cap: copy.cap,
                                maps: copy.maps.push(map),
                                faces: copy.faces + images(map, model),
                            },
                        )
                    } else {
                        Err(BodyError::MissingCopy)
                    },
                }
            },
        }
    }
}

/// The edges of the copies of the copied site, for the first `n` new sites.
pub open spec fn all_copy_marks(scene: SceneView, maps: Seq<Map<u64, u64>>, n: nat) -> Result<
    Seq<(u64, u64)>,
    BodyError,
>
    decreases n,
{
    if n == 0 {
        Ok(Seq::empty())
    } else {
        match all_copy_marks(scene, maps, (n - 1) as nat) {
            Err(error) => Err(error),
            Ok(marks) => match copy_marks(scene, maps[n - 1], scene.edges().len()) {
                Err(error) => Err(error),
                Ok(more) => Ok(marks + more),
            },
        }
    }
}

/// The edges that are marked for stretched faces, but for those between them.
pub open spec fn marks_for(scene: SceneView, copy: CopyView) -> Result<
    Seq<(u64, u64)>,
    BodyError,
> {
    match all_copy_marks(scene, copy.maps, copy.maps.len()) {
        Err(error) => Err(error),
        Ok(marks) => match cap_marks(scene, copy.cap, scene.edges().len()) {
            Err(error) => Err(error),
            Ok(more) => Ok(site_marks(scene, scene.edges().len()) + marks + more),
        },
    }
}

/// The vertices of the faces that are not stretched.
pub open spec fn target_vertices(
    body: PeriodicBodyPattern,
    new_sites: usize,
    plan: PlanView,
    copy: CopyView,
    evidence: BodyEvidence,
) -> Result<Seq<u64>, BodyError> {
    let faces = sites_faces(body, 0, kept_sites(body, new_sites) as int) + copy.faces + plan.left
        + images(copy.cap, plan.right);
    match all_corners(copy.entities, faces) {
        None => Err(BodyError::BadTopology),
        Some(vertices) => if all_placed(evidence.places@, vertices) {
            Ok(vertices)
        } else {
            Err(BodyError::NotMeasured)
        },
    }
}

/// The entities with new bounds for a stretched face.
pub open spec fn with_stretched(
    start: Seq<EntityView>,
    entities: Seq<EntityView>,
    marks: Seq<(u64, u64)>,
    face: u64,
    evidence: BodyEvidence,
) -> Result<Seq<EntityView>, BodyError> {
    match bounds_of(start, face) {
        None => Err(BodyError::BadTopology),
        Some(bounds) => if !has_outer(start, bounds) {
            Err(BodyError::NoOuterLoop)
        } else if !evidence.loops@.contains_key(face) {
            Err(BodyError::NotMeasured)
        } else {
            rebuilt(start, entities, face, sorted_of(marked(marks, face)), evidence.loops@[face])
        },
    }
}

pub open spec fn with_all_stretched(
    start: Seq<EntityView>,
    entities: Seq<EntityView>,
    marks: Seq<(u64, u64)>,
    faces: Seq<u64>,
    evidence: BodyEvidence,
) -> Result<Seq<EntityView>, BodyError>
    decreases faces.len(),
{
    if faces.len() == 0 {
        Ok(entities)
    } else {
        match with_all_stretched(start, entities, marks, faces.drop_last(), evidence) {
            Err(error) => Err(error),
            Ok(next) => with_stretched(start, next, marks, faces.last(), evidence),
        }
    }
}

/// The faces of a shell afterwards: those of the end that moves are replaced by their copies,
/// and those of sites that leave are left out.
pub open spec fn shell_after(
    faces: Seq<u64>,
    right: Set<u64>,
    cap: Map<u64, u64>,
    removed: Set<u64>,
) -> Seq<u64>
    decreases faces.len(),
{
    if faces.len() == 0 {
        Seq::empty()
    } else {
        let rest = shell_after(faces.drop_last(), right, cap, removed);
        if right.contains(faces.last()) {
            rest.push(cap[faces.last()])
        } else if removed.contains(faces.last()) {
            rest
        } else {
            rest.push(faces.last())
        }
    }
}

/// A plan, the copies that it asks for, and the edges that follow from them.
pub open spec fn staged(
    start: Seq<EntityView>,
    body: PeriodicBodyPattern,
    new_sites: usize,
    evidence: BodyEvidence,
) -> Result<(PlanView, CopyView, Stage), BodyError> {
    let kept = kept_sites(body, new_sites);
    let model = site_faces(body, body.sites as int / 2);
    match plan_of(start, body, new_sites, evidence) {
        Err(error) => Err(error),
        Ok(plan) => match copied(start, plan.right, model, evidence, (new_sites - kept) as nat) {
            Err(error) => Err(error),
            Ok(copy) => match target_vertices(body, new_sites, plan, copy, evidence) {
                Err(error) => Err(error),
                Ok(vertices) => match marks_for(plan.scene, copy) {
                    Err(error) => Err(error),
                    Ok(marks) => match with_rows(
                        start,
                        (copy.entities, marks),
                        plan.scene,
                        evidence,
                        vertices,
                        body.sites,
                        new_sites,
                    ) {
                        Err(error) => Err(error),
                        Ok(stage) => Ok((plan, copy, stage)),
                    },
                },
            },
        },
    }
}

/// A body with another number of sites, and what has changed.
pub open spec fn body_resized(
    start: Seq<EntityView>,
    body: PeriodicBodyPattern,
    new_sites: usize,
    canonical_site: usize,
    evidence: BodyEvidence,
) -> Result<(Seq<EntityView>, PeriodicBodyResizeStats), BodyError> {
    match staged(start, body, new_sites, evidence) {
        Err(error) => Err(error),
        Ok((plan, copy, stage)) => match with_all_stretched(
            start,
            stage.0,
            stage.1,
            body.stretch_face_ids@,
            evidence,
        ) {
            Err(error) => Err(error),
            Ok(built) => {
                let removed = sites_faces(
                    body,
                    kept_sites(body, new_sites) as int,
                    body.sites as int,
                );
                let faces = shell_after(
                    plan.shell_faces,
                    plan.right.to_set(),
                    copy.cap,
                    removed.to_set(),
                ) + copy.faces;
                match with_list(built, plan.shell, faces, 2) {
                    Err(error) => Err(error),
                    Ok(after) => if max_id(start) + after.len() - start.len() > u64::MAX {
                        Err(BodyError::OutOfIds)
                    } else {
                        Ok(
                            (
                                after,
                                PeriodicBodyResizeStats {
                                    old_sites: body.sites,
                                    new_sites,
                                    canonical_site,
                                    cloned_repeat_faces: copy.faces.len() as usize,
                                    cloned_positive_fixed_faces: plan.right.len() as usize,
                                    rebuilt_stretch_faces: body.stretch_face_ids@.len() as usize,
                                    new_stretch_edges: (stage.0.len()
                                        - copy.entities.len()) as usize,
                                    added_entities: (after.len() - start.len()) as usize,
                                },
                            ),
                        )
                    },
                }
            },
        },
    }
}

/// Why a body cannot grow, as far as its pattern shows.
pub open spec fn growth_fault(body: PeriodicBodyPattern, new_sites: usize, has_axis: bool) -> Option<
    BodyError,
> {
    if new_sites <= body.sites {
        Some(BodyError::NotLarger)
    } else if body.sites < 2 || body.repeat_face_families@.len() == 0 {
        Some(BodyError::TooFewSites)
    } else if !is_even(body) {
        Some(BodyError::UnevenFamilies)
    } else if !has_axis {
        Some(BodyError::ZeroAxis)
    } else if !is_pitch(body.pitch) {
        Some(BodyError::BadPitch)
    } else {
        None
    }
}

/// Why a body cannot shrink, as far as its pattern shows.
pub open spec fn shrinking_fault(
    body: PeriodicBodyPattern,
    new_sites: usize,
    has_axis: bool,
) -> Option<BodyError> {
    if new_sites >= body.sites {
        Some(BodyError::NotSmaller)
    } else if new_sites < 4 {
        Some(BodyError::TooFewSites)
    } else if body.repeat_face_families@.len() == 0 || !is_even(body) {
        Some(BodyError::UnevenFamilies)
    } else if !has_axis {
        Some(BodyError::ZeroAxis)
    } else if !is_pitch(body.pitch) {
        Some(BodyError::BadPitch)
    } else {
        None
    }
}

/// A body with more sites, and what has changed.
pub open spec fn grown(
    start: Seq<EntityView>,
    body: PeriodicBodyPattern,
    new_sites: usize,
    evidence: BodyEvidence,
) -> Result<(Seq<EntityView>, PeriodicBodyResizeStats), BodyError> {
    match growth_fault(body, new_sites, evidence.has_axis) {
        Some(error) => Err(error),
        None => body_resized(start, body, new_sites, (body.sites / 2) as usize, evidence),
    }
}

/// A body with fewer sites, and what has changed.
pub open spec fn shrunk(
    start: Seq<EntityView>,
    body: PeriodicBodyPattern,
    new_sites: usize,
    evidence: BodyEvidence,
) -> Result<(Seq<EntityView>, PeriodicBodyResizeStats), BodyError> {
    match shrinking_fault(body, new_sites, evidence.has_axis) {
        Some(error) => Err(error),
        None => body_resized(start, body, new_sites, (new_sites / 2) as usize, evidence),
    }
}

/// What resizing makes of entities: those of the resized body, or the same where it fails.
pub open spec fn is_resized(
    start: Seq<EntityView>,
    after: Seq<EntityView>,
    out: Result<PeriodicBodyResizeStats, BodyError>,
    expected: Result<(Seq<EntityView>, PeriodicBodyResizeStats), BodyError>,
) -> bool {
    match (out, expected) {
        (Ok(stats), Ok((entities, expected_stats))) => after == entities && stats
            == expected_stats,
        (Err(error), Err(expected_error)) => after == start && error == expected_error,
        _ => false,
    }
}

fn find_even(body: &PeriodicBodyPattern) -> (out: bool)
    ensures
        out == is_even(*body),
{
    let mut i: usize = 0;
    while i < body.repeat_face_families.len()
        invariant
            i <= body.repeat_face_families.len(),
            forall|k: int|
                0 <= k < i ==> (#[trigger] body.repeat_face_families@[k]).face_ids@.len()
                    == body.sites,
        decreases body.repeat_face_families.len() - i,
    {
        if body.repeat_face_families[i].face_ids.len() != body.sites {
            assert(body.repeat_face_families@[i as int].face_ids@.len() != body.sites);
            return false;
        }
        i = i + 1;
    }
    true
}

/// The faces of a site.
fn find_site_faces(body: &PeriodicBodyPattern, site: usize) -> (out: Vec<u64>)
    requires
        is_even(*body),
        site < body.sites,
    ensures
        out@ == site_faces(*body, site as int),
{
    let mut out: Vec<u64> = Vec::new();
    let mut i: usize = 0;
    while i < body.repeat_face_families.len()
        invariant
            i <= body.repeat_face_families.len(),
            is_even(*body),
            site < body.sites,
            out@ == site_faces(*body, site as int).take(i as int),
        decreases body.repeat_face_families.len() - i,
    {
        assert(body.repeat_face_families@[i as int].face_ids@.len() == body.sites);
        out.push(body.repeat_face_families[i].face_ids[site]);
        i = i + 1;
        assert(out@ =~= site_faces(*body, site as int).take(i as int));
    }
    assert(out@ =~= site_faces(*body, site as int));
    out
}

/// The faces of the sites from one up to another.
fn find_sites_faces(body: &PeriodicBodyPattern, from: usize, to: usize) -> (out: Vec<u64>)
    requires
        is_even(*body),
        from <= to <= body.sites,
    ensures
        out@ == sites_faces(*body, from as int, to as int),
{
    let mut out: Vec<u64> = Vec::new();
    let mut site: usize = from;
    while site < to
        invariant
            is_even(*body),
            from <= site <= to <= body.sites,
            out@ == sites_faces(*body, from as int, site as int),
        decreases to - site,
    {
        let faces = find_site_faces(body, site);
        append_ids(&mut out, &faces);
        site = site + 1;
    }
    out
}

/// The shell of a solid.
fn find_shell(solid: u64, draft: &Draft) -> (out: Option<u64>)
    requires
        indexes(draft.index@, draft@),
    ensures
        out == shell_of(draft@, solid),
{
    let ghost views = draft@;
    let params = match find_record(&draft.entities, &draft.index, solid) {
        Some(record) => match &record.parameter {
            Parameter::List(params) => {
                proof {
                    lemma_list_view(*params);
                }
                params
            },
            _ => {
                return None;
            },
        },
        None => {
            return None;
        },
    };
    let ghost items = params_view(params@);
    let mut i: usize = 0;
    assert(items.skip(0) =~= items);
    while i < params.len()
        invariant
            i <= params.len(),
            views == draft@,
            indexes(draft.index@, views),
            items == params_view(params@),
            shell_in(views, items) == shell_in(views, items.skip(i as int)),
            shell_of(views, solid) == shell_in(views, items),
        decreases params.len() - i,
    {
        assert(items.skip(i as int)[0] == params@[i as int]@);
        assert(items.skip(i as int).drop_first() =~= items.skip(i + 1));
        if let Some(id) = entity_ref_value(&params[i]) {
            if find_typed(&draft.entities, &draft.index, id, "CLOSED_SHELL").is_some() {
                return Some(id);
            }
        }
        i = i + 1;
    }
    None
}

/// A shell that is found is a closed shell.
proof fn lemma_shell_is_shell(entities: Seq<EntityView>, params: Seq<ParamView>)
    ensures
        shell_in(entities, params) matches Some(id) ==> typed_record(
            entities,
            id,
            "CLOSED_SHELL"@,
        ) is Some,
    decreases params.len(),
{
    if params.len() > 0 {
        lemma_shell_is_shell(entities, params.drop_first());
    }
}

fn find_all_measured(beyond: &HashMap<u64, bool>, faces: &Vec<u64>) -> (out: bool)
    ensures
        out == all_measured(beyond@, faces@),
{
    let mut i: usize = 0;
    while i < faces.len()
        invariant
            i <= faces.len(),
            forall|k: int| 0 <= k < i ==> beyond@.contains_key(#[trigger] faces@[k]),
        decreases faces.len() - i,
    {
        if !beyond.contains_key(&faces[i]) {
            assert(!beyond@.contains_key(faces@[i as int]));
            return false;
        }
        i = i + 1;
    }
    true
}

fn find_on_side(beyond: &HashMap<u64, bool>, faces: &Vec<u64>, side: bool) -> (out: Vec<u64>)
    requires
        all_measured(beyond@, faces@),
    ensures
        out@ == on_side(beyond@, faces@, side),
{
    let mut out: Vec<u64> = Vec::new();
    let mut i: usize = 0;
    assert(faces@.take(0) =~= Seq::<u64>::empty());
    while i < faces.len()
        invariant
            i <= faces.len(),
            all_measured(beyond@, faces@),
            out@ == on_side(beyond@, faces@.take(i as int), side),
        decreases faces.len() - i,
    {
        assert(faces@.take(i + 1).drop_last() =~= faces@.take(i as int));
        assert(faces@.take(i + 1).last() == faces@[i as int]);
        assert(beyond@.contains_key(faces@[i as int]));
        let far: bool = *beyond.get(&faces[i]).unwrap();
        if far == side {
            out.push(faces[i]);
        }
        i = i + 1;
    }
    assert(faces@.take(faces@.len() as int) =~= faces@);
    out
}

fn find_all_have_ends(faces: &Vec<u64>, draft: &Draft) -> (out: bool)
    requires
        indexes(draft.index@, draft@),
    ensures
        out == all_have_ends(draft@, faces@),
{
    let mut i: usize = 0;
    while i < faces.len()
        invariant
            i <= faces.len(),
            indexes(draft.index@, draft@),
            forall|k: int| 0 <= k < i ==> corners(draft@, #[trigger] faces@[k]) is Some,
        decreases faces.len() - i,
    {
        if face_vertices(faces[i], &draft.entities, &draft.index).is_none() {
            assert(corners(draft@, faces@[i as int]) is None);
            return false;
        }
        i = i + 1;
    }
    true
}

/// What is known of a body before it is resized.
struct Plan {
    shell: u64,
    shell_faces: Vec<u64>,
    scene: Scene,
    left: Vec<u64>,
    right: Vec<u64>,
}

impl Plan {
    spec fn shows(&self, view: PlanView) -> bool {
        &&& self.shell == view.shell
        &&& self.shell_faces@ == view.shell_faces
        &&& self.scene.shows(view.scene)
        &&& self.left@ == view.left
        &&& self.right@ == view.right
    }
}

/// The plan for a body.
fn make_plan(
    draft: &Draft,
    body: &PeriodicBodyPattern,
    new_sites: usize,
    evidence: &BodyEvidence,
) -> (out: Result<Plan, BodyError>)
    requires
        indexes(draft.index@, draft@),
        is_even(*body),
        body.sites > 0,
    ensures
        match (out, plan_of(draft@, *body, new_sites, *evidence)) {
            (Ok(plan), Ok(view)) => plan.shows(view),
            (Err(a), Err(b)) => a == b,
            _ => false,
        },
{
    let ghost views = draft@;
    let shell: u64 = match find_shell(body.solid_id, draft) {
        Some(shell) => shell,
        None => {
            return Err(BodyError::NoShell);
        },
    };
    proof {
        lemma_shell_is_shell(views, record_at(views, body.solid_id)->Some_0.parameter->List_0);
    }
    let shell_faces = match find_record(&draft.entities, &draft.index, shell) {
        Some(record) => match nth_entity_ref_list(record, 1) {
            Some(faces) => faces,
            None => {
                return Err(BodyError::BadTopology);
            },
        },
        None => {
            return Err(BodyError::BadTopology);
        },
    };
    let repeat = find_sites_faces(body, 0, body.sites);
    let mut list: Vec<u64> = Vec::new();
    append_ids(&mut list, &repeat);
    append_ids(&mut list, &body.stretch_face_ids);
    append_ids(&mut list, &body.fixed_face_ids);
    assert(list@ =~= sites_faces(*body, 0, body.sites as int) + body.stretch_face_ids@
        + body.fixed_face_ids@);
    let faces = sorted_set(&list);
    let table = match edge_faces(&faces, &draft.entities, &draft.index) {
        Some(table) => table,
        None => {
            return Err(BodyError::BadTopology);
        },
    };
    let fixed = sorted_set(&body.fixed_face_ids);
    if !find_all_measured(&evidence.beyond, &repeat) || !find_all_measured(
        &evidence.beyond,
        &fixed,
    ) {
        return Err(BodyError::NotMeasured);
    }
    let left = find_on_side(&evidence.beyond, &fixed, false);
    let right = find_on_side(&evidence.beyond, &fixed, true);
    if left.len() == 0 || right.len() == 0 {
        return Err(BodyError::NoCaps);
    }
    if !find_all_have_ends(&body.stretch_face_ids, draft) {
        return Err(BodyError::BadTopology);
    }
    let kept: usize = if new_sites < body.sites {
        new_sites
    } else {
        body.sites
    };
    let staying = find_sites_faces(body, 0, kept);
    let model = find_site_faces(body, body.sites / 2);
    let scene = Scene {
        table,
        kept: set_of(&staying),
        model: set_of(&model),
        stretch: set_of(&body.stretch_face_ids),
        fixed: set_of(&body.fixed_face_ids),
        right: set_of(&right),
    };
    Ok(Plan { shell, shell_faces, scene, left, right })
}

fn find_all_keys(map: &HashMap<u64, u64>, ids: &Vec<u64>) -> (out: bool)
    ensures
        out == all_keys(map@, ids@),
{
    let mut i: usize = 0;
    while i < ids.len()
        invariant
            i <= ids.len(),
            forall|k: int| 0 <= k < i ==> map@.contains_key(#[trigger] ids@[k]),
        decreases ids.len() - i,
    {
        if !map.contains_key(&ids[i]) {
            assert(!map@.contains_key(ids@[i as int]));
            return false;
        }
        i = i + 1;
    }
    true
}

fn find_images(map: &HashMap<u64, u64>, ids: &Vec<u64>) -> (out: Vec<u64>)
    requires
        all_keys(map@, ids@),
    ensures
        out@ == images(map@, ids@),
{
    let mut out: Vec<u64> = Vec::new();
    let mut i: usize = 0;
    while i < ids.len()
        invariant
            i <= ids.len(),
            all_keys(map@, ids@),
            out@ == images(map@, ids@).take(i as int),
        decreases ids.len() - i,
    {
        assert(map@.contains_key(ids@[i as int]));
        out.push(*map.get(&ids[i]).unwrap());
        i = i + 1;
        assert(out@ =~= images(map@, ids@).take(i as int));
    }
    assert(out@ =~= images(map@, ids@));
    out
}

/// Copies of parts of a body.
struct Copies {
    cap: HashMap<u64, u64>,
    maps: Vec<HashMap<u64, u64>>,
    faces: Vec<u64>,
}

spec fn maps_view(maps: Seq<HashMap<u64, u64>>) -> Seq<Map<u64, u64>> {
    Seq::new(maps.len(), |i: int| maps[i]@)
}

impl Copies {
    spec fn shows(&self, view: CopyView) -> bool {
        &&& self.cap@ == view.cap
        &&& maps_view(self.maps@) == view.maps
        &&& self.faces@ == view.faces
    }
}

proof fn lemma_copied_stop(
    start: Seq<EntityView>,
    right: Seq<u64>,
    model: Seq<u64>,
    evidence: BodyEvidence,
    n: nat,
    m: nat,
)
    requires
        n <= m,
        copied(start, right, model, evidence, n) is Err,
    ensures
        copied(start, right, model, evidence, m) == copied(start, right, model, evidence, n),
    decreases m,
{
    if n < m {
        lemma_copied_stop(start, right, model, evidence, n, (m - 1) as nat);
    }
}

proof fn lemma_copied_has_right(
    start: Seq<EntityView>,
    right: Seq<u64>,
    model: Seq<u64>,
    evidence: BodyEvidence,
    n: nat,
)
    ensures
        copied(start, right, model, evidence, n) matches Ok(copy) ==> all_keys(copy.cap, right),
    decreases n,
{
    if n > 0 {
        lemma_copied_has_right(start, right, model, evidence, (n - 1) as nat);
    }
}

/// Copies the end that moves, and the model site once for each new site.
fn copy_parts(
    draft: &mut Draft,
    right: &Vec<u64>,
    model: &Vec<u64>,
    evidence: &BodyEvidence,
    count: usize,
    Ghost(start): Ghost<Seq<EntityView>>,
) -> (out: Result<Copies, BodyError>)
    requires
        old(draft).wf(start),
        old(draft)@ == start,
    ensures
        final(draft).wf(start),
        match (out, copied(start, right@, model@, *evidence, count as nat)) {
            (Ok(copies), Ok(view)) => copies.shows(view) && final(draft)@ == view.entities,
            (Err(a), Err(b)) => a == b,
            _ => false,
        },
{
    proof {
        if copied(start, right@, model@, *evidence, 0) is Err {
            lemma_copied_stop(start, right@, model@, *evidence, 0, count as nat);
        }
    }
    let cap = match clone_descendants(draft, right, &evidence.cap_spots, Ghost(start)) {
        Ok(cap) => cap,
        Err(error) => {
            return Err(error);
        },
    };
    if !find_all_keys(&cap, right) {
        return Err(BodyError::MissingCopy);
    }
    let mut copies = Copies { cap, maps: Vec::new(), faces: Vec::new() };
    assert(maps_view(copies.maps@) =~= Seq::<Map<u64, u64>>::empty());
    let mut i: usize = 0;
    while i < count
        invariant
            i <= count,
            draft.wf(start),
            match copied(start, right@, model@, *evidence, i as nat) {
                Ok(view) => copies.shows(view) && draft@ == view.entities,
                Err(_) => false,
            },
        decreases count - i,
    {
        proof {
            if copied(start, right@, model@, *evidence, (i + 1) as nat) is Err {
                lemma_copied_stop(
                    start,
                    right@,
                    model@,
                    *evidence,
                    (i + 1) as nat,
                    count as nat,
                );
            }
        }
        if i >= evidence.site_spots.len() {
            return Err(BodyError::NotMeasured);
        }
        let map = match clone_descendants(draft, model, &evidence.site_spots[i], Ghost(start)) {
            Ok(map) => map,
            Err(error) => {
                return Err(error);
            },
        };
        if !find_all_keys(&map, model) {
            return Err(BodyError::MissingCopy);
        }
        let faces = find_images(&map, model);
        append_ids(&mut copies.faces, &faces);
        let ghost before = maps_view(copies.maps@);
        let ghost view = map@;
        copies.maps.push(map);
        assert(maps_view(copies.maps@) =~= before.push(view));
        i = i + 1;
    }
    Ok(copies)
}

proof fn lemma_copy_marks_stop(scene: SceneView, maps: Seq<Map<u64, u64>>, n: nat, m: nat)
    requires
        n <= m,
        all_copy_marks(scene, maps, n) is Err,
    ensures
        all_copy_marks(scene, maps, m) == all_copy_marks(scene, maps, n),
    decreases m,
{
    if n < m {
        lemma_copy_marks_stop(scene, maps, n, (m - 1) as nat);
    }
}

fn append_marks(out: &mut Vec<(u64, u64)>, more: &Vec<(u64, u64)>)
    ensures
        final(out)@ == old(out)@ + more@,
{
    let ghost before = out@;
    let mut i: usize = 0;
    assert(before + more@.take(0) =~= before);
    while i < more.len()
        invariant
            i <= more.len(),
            out@ == before + more@.take(i as int),
        decreases more.len() - i,
    {
        out.push(more[i]);
        i = i + 1;
        assert(before + more@.take(i as int) =~= (before + more@.take(i - 1)).push(more@[i - 1]));
    }
    assert(more@.take(more@.len() as int) =~= more@);
}

/// The edges that are marked for stretched faces, but for those between them.
fn find_marks(
    scene: &Scene,
    copies: &Copies,
    Ghost(view): Ghost<SceneView>,
    Ghost(copy): Ghost<CopyView>,
) -> (out: Result<Vec<(u64, u64)>, BodyError>)
    requires
        scene.shows(view),
        copies.shows(copy),
    ensures
        match (out, marks_for(view, copy)) {
            (Ok(marks), Ok(expected)) => marks@ == expected,
            (Err(a), Err(b)) => a == b,
            _ => false,
        },
{
    let mut made: Vec<(u64, u64)> = Vec::new();
    let mut i: usize = 0;
    while i < copies.maps.len()
        invariant
            i <= copies.maps.len(),
            scene.shows(view),
            copies.shows(copy),
            all_copy_marks(view, copy.maps, i as nat) == Ok::<_, BodyError>(made@),
        decreases copies.maps.len() - i,
    {
        assert(copy.maps[i as int] == copies.maps@[i as int]@);
        match find_copy_marks(scene, Ghost(view), &copies.maps[i]) {
            Ok(more) => {
                append_marks(&mut made, &more);
            },
            Err(error) => {
                proof {
                    lemma_copy_marks_stop(view, copy.maps, (i + 1) as nat, copy.maps.len());
                }
                return Err(error);
            },
        }
        i = i + 1;
    }
    let caps = match find_cap_marks(scene, Ghost(view), &copies.cap) {
        Ok(caps) => caps,
        Err(error) => {
            return Err(error);
        },
    };
    let mut marks = find_site_marks(scene, Ghost(view));
    append_marks(&mut marks, &made);
    append_marks(&mut marks, &caps);
    Ok(marks)
}

proof fn lemma_stretched_stop(
    start: Seq<EntityView>,
    entities: Seq<EntityView>,
    marks: Seq<(u64, u64)>,
    faces: Seq<u64>,
    evidence: BodyEvidence,
    n: int,
)
    requires
        0 <= n <= faces.len(),
        with_all_stretched(start, entities, marks, faces.take(n), evidence) is Err,
    ensures
        with_all_stretched(start, entities, marks, faces, evidence) == with_all_stretched(
            start,
            entities,
            marks,
            faces.take(n),
            evidence,
        ),
    decreases faces.len(),
{
    if n == faces.len() {
        assert(faces.take(n) =~= faces);
    } else {
        assert(faces.drop_last().take(n) =~= faces.take(n));
        lemma_stretched_stop(start, entities, marks, faces.drop_last(), evidence, n);
    }
}

/// Gives a stretched face new bounds.
fn rebuild_stretched(
    draft: &mut Draft,
    origin: &Draft,
    marks: &Vec<(u64, u64)>,
    face: u64,
    evidence: &BodyEvidence,
    Ghost(start): Ghost<Seq<EntityView>>,
) -> (out: Result<(), BodyError>)
    requires
        old(draft).wf(start),
        origin@ == start,
        indexes(origin.index@, start),
    ensures
        final(draft).wf(start),
        match (out, with_stretched(start, old(draft)@, marks@, face, *evidence)) {
            (Ok(_), Ok(more)) => final(draft)@ == more,
            (Err(a), Err(b)) => a == b,
            _ => false,
        },
{
    let bounds = match find_bounds(face, &origin.entities, &origin.index) {
        Some(bounds) => bounds,
        None => {
            return Err(BodyError::BadTopology);
        },
    };
    if !find_outer(&bounds, &origin.entities, &origin.index) {
        return Err(BodyError::NoOuterLoop);
    }
    let edges = edges_for(marks, face);
    match evidence.loops.get(&face) {
        None => Err(BodyError::NotMeasured),
        Some(measure) => rebuild_face_bounds(draft, face, &edges, measure, Ghost(start)),
    }
}

fn rebuild_all_stretched(
    draft: &mut Draft,
    origin: &Draft,
    marks: &Vec<(u64, u64)>,
    faces: &Vec<u64>,
    evidence: &BodyEvidence,
    Ghost(start): Ghost<Seq<EntityView>>,
) -> (out: Result<(), BodyError>)
    requires
        old(draft).wf(start),
        origin@ == start,
        indexes(origin.index@, start),
    ensures
        final(draft).wf(start),
        match (out, with_all_stretched(start, old(draft)@, marks@, faces@, *evidence)) {
            (Ok(_), Ok(more)) => final(draft)@ == more,
            (Err(a), Err(b)) => a == b,
            _ => false,
        },
{
    let ghost before = draft@;
    let mut i: usize = 0;
    assert(faces@.take(0) =~= Seq::<u64>::empty());
    while i < faces.len()
        invariant
            i <= faces.len(),
            before == old(draft)@,
            draft.wf(start),
            origin@ == start,
            indexes(origin.index@, start),
            with_all_stretched(start, before, marks@, faces@.take(i as int), *evidence) == Ok::<
                _,
                BodyError,
            >(draft@),
        decreases faces.len() - i,
    {
        assert(faces@.take(i + 1).drop_last() =~= faces@.take(i as int));
        assert(faces@.take(i + 1).last() == faces@[i as int]);
        if let Err(error) = rebuild_stretched(
            draft,
            origin,
            marks,
            faces[i],
            evidence,
            Ghost(start),
        ) {
            proof {
                lemma_stretched_stop(start, before, marks@, faces@, *evidence, i + 1);
            }
            return Err(error);
        }
        i = i + 1;
    }
    assert(faces@.take(faces@.len() as int) =~= faces@);
    Ok(())
}

fn find_shell_after(
    faces: &Vec<u64>,
    right: &HashSet<u64>,
    cap: &HashMap<u64, u64>,
    removed: &HashSet<u64>,
) -> (out: Vec<u64>)
    requires
        forall|id: u64| #[trigger] right@.contains(id) ==> cap@.contains_key(id),
    ensures
        out@ == shell_after(faces@, right@, cap@, removed@),
{
    let mut out: Vec<u64> = Vec::new();
    let mut i: usize = 0;
    assert(faces@.take(0) =~= Seq::<u64>::empty());
    while i < faces.len()
        invariant
            i <= faces.len(),
            forall|id: u64| #[trigger] right@.contains(id) ==> cap@.contains_key(id),
            out@ == shell_after(faces@.take(i as int), right@, cap@, removed@),
        decreases faces.len() - i,
    {
        assert(faces@.take(i + 1).drop_last() =~= faces@.take(i as int));
        assert(faces@.take(i + 1).last() == faces@[i as int]);
        if right.contains(&faces[i]) {
            out.push(*cap.get(&faces[i]).unwrap());
        } else if !removed.contains(&faces[i]) {
            out.push(faces[i]);
        }
        i = i + 1;
    }
    assert(faces@.take(faces@.len() as int) =~= faces@);
    out
}

/// A plan, the copies that it asks for, and the edges that follow from them.
struct Staged {
    plan: Plan,
    copies: Copies,
    draft: Draft,
    marks: Vec<(u64, u64)>,
    made: usize,
}

/// Copies parts of a body, and adds the edges between its stretched faces.
fn build_stage(
    origin: &Draft,
    entities: &Vec<EntityInstance>,
    body: &PeriodicBodyPattern,
    new_sites: usize,
    evidence: &BodyEvidence,
) -> (out: Result<Staged, BodyError>)
    requires
        is_even(*body),
        body.sites > 0,
        origin.wf(entities_view(entities@)),
        origin@ == entities_view(entities@),
    ensures
        match (out, staged(entities_view(entities@), *body, new_sites, *evidence)) {
            (Ok(all), Ok((plan, copy, stage))) => {
                &&& all.plan.shows(plan)
                &&& all.copies.shows(copy)
                &&& all.draft.wf(entities_view(entities@))
                &&& all.draft@ == stage.0
                &&& all.marks@ == stage.1
                &&& all.made == stage.0.len() - copy.entities.len()
                &&& all_keys(copy.cap, plan.right)
            },
            (Err(a), Err(b)) => a == b,
            _ => false,
        },
{
    let ghost start = entities_view(entities@);
    let plan = match make_plan(origin, body, new_sites, evidence) {
        Ok(plan) => plan,
        Err(error) => {
            return Err(error);
        },
    };
    let ghost plan_view = plan_of(start, *body, new_sites, *evidence)->Ok_0;
    let kept: usize = if new_sites < body.sites {
        new_sites
    } else {
        body.sites
    };
    let model = find_site_faces(body, body.sites / 2);
    let mut draft = draft_of(entities);
    let copies = match copy_parts(
        &mut draft,
        &plan.right,
        &model,
        evidence,
        new_sites - kept,
        Ghost(start),
    ) {
        Ok(copies) => copies,
        Err(error) => {
            return Err(error);
        },
    };
    let ghost copy = copied(
        start,
        plan.right@,
        model@,
        *evidence,
        (new_sites - kept) as nat,
    )->Ok_0;
    proof {
        lemma_copied_has_right(
            start,
            plan.right@,
            model@,
            *evidence,
            (new_sites - kept) as nat,
        );
    }
    let mut faces = find_sites_faces(body, 0, kept);
    append_ids(&mut faces, &copies.faces);
    append_ids(&mut faces, &plan.left);
    let ends = find_images(&copies.cap, &plan.right);
    append_ids(&mut faces, &ends);
    let vertices = match find_all_corners(&faces, &draft.entities, &draft.index) {
        Some(vertices) => vertices,
        None => {
            return Err(BodyError::BadTopology);
        },
    };
    if !find_all_placed(&evidence.places, &vertices) {
        return Err(BodyError::NotMeasured);
    }
    let mut marks = match find_marks(
        &plan.scene,
        &copies,
        Ghost(plan_view.scene),
        Ghost(copy),
    ) {
        Ok(marks) => marks,
        Err(error) => {
            return Err(error);
        },
    };
    let before: usize = draft.entities.len();
    if let Err(error) = add_rows(
        &mut draft,
        &mut marks,
        &plan.scene,
        evidence,
        &vertices,
        body.sites,
        new_sites,
        Ghost(start),
        Ghost(plan_view.scene),
    ) {
        return Err(error);
    }
    let made: usize = draft.entities.len() - before;
    Ok(Staged { plan, copies, draft, marks, made })
}

/// Gives a body another number of sites.
fn resize_body(
    entities: &mut Vec<EntityInstance>,
    body: &PeriodicBodyPattern,
    new_sites: usize,
    canonical_site: usize,
    evidence: &BodyEvidence,
) -> (out: Result<PeriodicBodyResizeStats, BodyError>)
    requires
        is_even(*body),
        body.sites > 0,
    ensures
        is_resized(
            entities_view(old(entities)@),
            entities_view(final(entities)@),
            out,
            body_resized(
                entities_view(old(entities)@),
                *body,
                new_sites,
                canonical_site,
                *evidence,
            ),
        ),
{
    let ghost start = entities_view(entities@);
    let origin = draft_of(entities);
    let Staged { plan, copies, draft, marks, made } = match build_stage(
        &origin,
        entities,
        body,
        new_sites,
        evidence,
    ) {
        Ok(all) => all,
        Err(error) => {
            return Err(error);
        },
    };
    let mut draft = draft;
    if let Err(error) = rebuild_all_stretched(
        &mut draft,
        &origin,
        &marks,
        &body.stretch_face_ids,
        evidence,
        Ghost(start),
    ) {
        return Err(error);
    }
    let kept: usize = if new_sites < body.sites {
        new_sites
    } else {
        body.sites
    };
    let leaving = find_sites_faces(body, kept, body.sites);
    let removed = set_of(&leaving);
    let right = set_of(&plan.right);
    assert forall|id: u64| #[trigger] right@.contains(id) implies copies.cap@.contains_key(id) by {
        let k = choose|k: int| 0 <= k < plan.right@.len() && plan.right@[k] == id;
        assert(copies.cap@.contains_key(plan.right@[k]));
    }
    let mut shell_faces = find_shell_after(&plan.shell_faces, &right, &copies.cap, &removed);
    append_ids(&mut shell_faces, &copies.faces);
    if let Err(error) = set_list(&mut draft, plan.shell, &shell_faces, 2, Ghost(start)) {
        return Err(error);
    }
    let added: usize = draft.entities.len() - draft.base;
    if draft.last as u128 + added as u128 > u64::MAX as u128 {
        return Err(BodyError::OutOfIds);
    }
    let stats = PeriodicBodyResizeStats {
        old_sites: body.sites,
        new_sites,
        canonical_site,
        cloned_repeat_faces: copies.faces.len(),
        cloned_positive_fixed_faces: plan.right.len(),
        rebuilt_stretch_faces: body.stretch_face_ids.len(),
        new_stretch_edges: made,
        added_entities: added,
    };
    *entities = draft.entities;
    Ok(stats)
}

/// Why nothing can be said of the parts of a body.
pub open spec fn parts_fault(body: PeriodicBodyPattern) -> Option<BodyError> {
    if body.sites == 0 {
        Some(BodyError::TooFewSites)
    } else if !is_even(body) {
        Some(BodyError::UnevenFamilies)
    } else {
        None
    }
}

/// The entities with the copies that a resized body needs, before anything else changes. The
/// vertices of the copies can be measured on them.
pub fn preview_copies(
    entities: &Vec<EntityInstance>,
    body: &PeriodicBodyPattern,
    new_sites: usize,
    evidence: &BodyEvidence,
) -> (out: Result<Vec<EntityInstance>, BodyError>)
    ensures
        match (out, parts_fault(*body)) {
            (Err(error), Some(fault)) => error == fault,
            (Ok(_), Some(_)) => false,
            (_, None) => match plan_of(entities_view(entities@), *body, new_sites, *evidence) {
                Err(fault) => out matches Err(error) && error == fault,
                Ok(plan) => match (
                    out,
                    copied(
                        entities_view(entities@),
                        plan.right,
                        site_faces(*body, body.sites as int / 2),
                        *evidence,
                        (new_sites - kept_sites(*body, new_sites)) as nat,
                    ),
                ) {
                    (Ok(made), Ok(copy)) => entities_view(made@) == copy.entities,
                    (Err(a), Err(b)) => a == b,
                    _ => false,
                },
            },
        },
{
    let ghost start = entities_view(entities@);
    if body.sites == 0 {
        return Err(BodyError::TooFewSites);
    }
    if !find_even(body) {
        return Err(BodyError::UnevenFamilies);
    }
    let mut draft = draft_of(entities);
    let plan = match make_plan(&draft, body, new_sites, evidence) {
        Ok(plan) => plan,
        Err(error) => {
            return Err(error);
        },
    };
    let kept: usize = if new_sites < body.sites {
        new_sites
    } else {
        body.sites
    };
    let model = find_site_faces(body, body.sites / 2);
    match copy_parts(
        &mut draft,
        &plan.right,
        &model,
        evidence,
        new_sites - kept,
        Ghost(start),
    ) {
        Ok(_) => Ok(draft.entities),
        Err(error) => Err(error),
    }
}

/// The entities before stretched faces are rebuilt, and the edges that are marked for each.
/// Their loops can be traced and measured on them.
pub fn preview_edges(
    entities: &Vec<EntityInstance>,
    body: &PeriodicBodyPattern,
    new_sites: usize,
    evidence: &BodyEvidence,
) -> (out: Result<(Vec<EntityInstance>, Vec<(u64, u64)>), BodyError>)
    ensures
        match (out, parts_fault(*body)) {
            (Err(error), Some(fault)) => error == fault,
            (Ok(_), Some(_)) => false,
            (_, None) => match (
                out,
                staged(entities_view(entities@), *body, new_sites, *evidence),
            ) {
                (Ok((made, marks)), Ok((plan, copy, stage))) => entities_view(made@) == stage.0
                    && marks@ == stage.1,
                (Err(a), Err(b)) => a == b,
                _ => false,
            },
        },
{
    if body.sites == 0 {
        return Err(BodyError::TooFewSites);
    }
    if !find_even(body) {
        return Err(BodyError::UnevenFamilies);
    }
    let origin = draft_of(entities);
    match build_stage(&origin, entities, body, new_sites, evidence) {
        Ok(all) => Ok((all.draft.entities, all.marks)),
        Err(error) => Err(error),
    }
}

/// Whether the bit pattern of a double is that of a finite number above 1e-7.
fn find_pitch(bits: u64) -> (out: bool)
    ensures
        out == is_pitch(bits),
{
    LEAST_PITCH < bits && bits < 0x7FF0_0000_0000_0000
}

/// Gives a body more sites at the far end of its axis. Faces of the middle site are copied, the
/// end moves, and the faces along the body get new bounds.
pub fn expand_periodic_body_positive(
    entities: &mut Vec<EntityInstance>,
    body: &PeriodicBodyPattern,
    new_sites: usize,
    evidence: &BodyEvidence,
) -> (out: Result<PeriodicBodyResizeStats, BodyError>)
    ensures
        is_resized(
            entities_view(old(entities)@),
            entities_view(final(entities)@),
            out,
            grown(entities_view(old(entities)@), *body, new_sites, *evidence),
        ),
{
    if new_sites <= body.sites {
        return Err(BodyError::NotLarger);
    }
    if body.sites < 2 || body.repeat_face_families.len() == 0 {
        return Err(BodyError::TooFewSites);
    }
    if !find_even(body) {
        return Err(BodyError::UnevenFamilies);
    }
    if !evidence.has_axis {
        return Err(BodyError::ZeroAxis);
    }
    if !find_pitch(body.pitch) {
        return Err(BodyError::BadPitch);
    }
    resize_body(entities, body, new_sites, body.sites / 2, evidence)
}

/// Gives a body fewer sites. The first ones stay, the end moves inwards, and the faces along
/// the body get new bounds.
pub fn shrink_periodic_body_positive(
    entities: &mut Vec<EntityInstance>,
    body: &PeriodicBodyPattern,
    new_sites: usize,
    evidence: &BodyEvidence,
) -> (out: Result<PeriodicBodyResizeStats, BodyError>)
    ensures
        is_resized(
            entities_view(old(entities)@),
            entities_view(final(entities)@),
            out,
            shrunk(entities_view(old(entities)@), *body, new_sites, *evidence),
        ),
{
    if new_sites >= body.sites {
        return Err(BodyError::NotSmaller);
    }
    if new_sites < 4 {
        return Err(BodyError::TooFewSites);
    }
    if body.repeat_face_families.len() == 0 || !find_even(body) {
        return Err(BodyError::UnevenFamilies);
    }
    if !evidence.has_axis {
        return Err(BodyError::ZeroAxis);
    }
    if !find_pitch(body.pitch) {
        return Err(BodyError::BadPitch);
    }
    resize_body(entities, body, new_sites, new_sites / 2, evidence)
}

} // verus!
