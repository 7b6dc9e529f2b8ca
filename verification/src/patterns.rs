//! Rows of instances.

use vstd::prelude::*;

verus! {

/// A lattice of instances of one shape. Coordinates, distances and ratios are the bit patterns
/// of doubles.
#[derive(Debug)]
pub struct InstancePattern {
    pub parent_representation: u64,
    pub representation_map: u64,
    pub item_ids: Vec<u64>,
    pub style_signature: Vec<Vec<u64>>,
    pub dimension: u8,
    pub origin: [u64; 3],
    pub basis: Vec<[u64; 3]>,
    pub pitch: Vec<u64>,
    pub occupancy: Vec<[i64; 2]>,
    pub grid_shape: Vec<usize>,
    pub fill_ratio: u64,
    pub max_residual: u64,
}

#[verifier::ext_equal]
pub struct PatternView {
    pub parent_representation: u64,
    pub representation_map: u64,
    pub item_ids: Seq<u64>,
    pub style_signature: Seq<Seq<u64>>,
    pub dimension: u8,
    pub origin: [u64; 3],
    pub basis: Seq<[u64; 3]>,
    pub pitch: Seq<u64>,
    pub occupancy: Seq<[i64; 2]>,
    pub grid_shape: Seq<usize>,
    pub fill_ratio: u64,
    pub max_residual: u64,
}

impl View for InstancePattern {
    type V = PatternView;

    open spec fn view(&self) -> PatternView {
        PatternView {
            parent_representation: self.parent_representation,
            representation_map: self.representation_map,
            item_ids: self.item_ids@,
            style_signature: Seq::new(
                self.style_signature@.len(),
                |i: int| self.style_signature@[i]@,
            ),
            dimension: self.dimension,
            origin: self.origin,
            basis: self.basis@,
            pitch: self.pitch@,
            occupancy: self.occupancy@,
            grid_shape: self.grid_shape@,
            fill_ratio: self.fill_ratio,
            max_residual: self.max_residual,
        }
    }
}

/// Which end of a row stays where it is.
#[derive(Debug, Clone, Copy, PartialEq, Eq, Structural)]
pub enum PatternAnchor {
    Start,
    Center,
    End,
}

/// What resizing a row has changed.
#[derive(Debug, Clone, Copy, PartialEq, Eq, Structural)]
pub struct PatternResizeStats {
    pub old_count: usize,
    pub new_count: usize,
    pub reused_items: usize,
    pub added_items: usize,
    pub removed_items: usize,
    pub entities_removed: usize,
}

} // verus!
