//! Solids in which groups of faces repeat.

use vstd::prelude::*;

verus! {

/// Faces that are copies of one another, one at each site. Distances are the bit patterns of
/// doubles.
#[derive(Debug)]
pub struct PeriodicFaceFamily {
    pub face_ids: Vec<u64>,
    pub phase: u64,
    pub span: u64,
    pub orthogonal_center: [u64; 2],
    pub bounds: usize,
    pub edges: usize,
    pub max_residual: u64,
}

/// A solid in which families of faces repeat along an axis. The axis and the distances are the
/// bit patterns of doubles.
#[derive(Debug)]
pub struct PeriodicBodyPattern {
    pub solid_id: u64,
    pub axis: [u64; 3],
    pub pitch: u64,
    pub sites: usize,
    pub coupled_instance_patterns: Vec<usize>,
    pub repeat_face_families: Vec<PeriodicFaceFamily>,
    pub repeat_faces: usize,
    pub faces_per_site: usize,
    pub stretch_face_ids: Vec<u64>,
    pub fixed_face_ids: Vec<u64>,
    pub total_faces: usize,
    pub max_residual: u64,
}

#[verifier::ext_equal]
pub struct FamilyView {
    pub face_ids: Seq<u64>,
    pub phase: u64,
    pub span: u64,
    pub orthogonal_center: [u64; 2],
    pub bounds: usize,
    pub edges: usize,
    pub max_residual: u64,
}

impl View for PeriodicFaceFamily {
    type V = FamilyView;

    open spec fn view(&self) -> FamilyView {
        FamilyView {
            face_ids: self.face_ids@,
            phase: self.phase,
            span: self.span,
            orthogonal_center: self.orthogonal_center,
            bounds: self.bounds,
            edges: self.edges,
            max_residual: self.max_residual,
        }
    }
}

#[verifier::ext_equal]
pub struct BodyView {
    pub solid_id: u64,
    pub axis: [u64; 3],
    pub pitch: u64,
    pub sites: usize,
    pub coupled_instance_patterns: Seq<usize>,
    pub repeat_face_families: Seq<FamilyView>,
    pub repeat_faces: usize,
    pub faces_per_site: usize,
    pub stretch_face_ids: Seq<u64>,
    pub fixed_face_ids: Seq<u64>,
    pub total_faces: usize,
    pub max_residual: u64,
}

pub open spec fn families_view(families: Seq<PeriodicFaceFamily>) -> Seq<FamilyView> {
    Seq::new(families.len(), |i: int| families[i]@)
}

impl View for PeriodicBodyPattern {
    type V = BodyView;

    open spec fn view(&self) -> BodyView {
        BodyView {
            solid_id: self.solid_id,
            axis: self.axis,
            pitch: self.pitch,
            sites: self.sites,
            coupled_instance_patterns: self.coupled_instance_patterns@,
            repeat_face_families: families_view(self.repeat_face_families@),
            repeat_faces: self.repeat_faces,
            faces_per_site: self.faces_per_site,
            stretch_face_ids: self.stretch_face_ids@,
            fixed_face_ids: self.fixed_face_ids@,
            total_faces: self.total_faces,
            max_residual: self.max_residual,
        }
    }
}

} // verus!
