//! Resizing what repeats: which edits are made, and when an edit is accepted.
//!
//! Finding what repeats in a file measures geometry, and so does an edit at one end. Both are
//! the caller's. The functions here read the file, choose the edits and check their outcome.

use std::collections::HashMap;
use vstd::prelude::*;
use vstd::utf8::encode_utf8;

use crate::ast::{entities_view, EntityView, Exchange, ExchangeView, SectionView};
use crate::clean::{mapped, renumber_sections, with_data};
use crate::compatibility::{
    all_section_records, audit_exchange_compatibility, audits, CompatibilityAudit,
};
use crate::counts::TypeCounts;
use crate::geometric_intern::{
    intern_geometric_supports, supports_interned, GeometricInternStats,
};
use crate::intern::{intern_section, interned};
use crate::periodic_resize::PeriodicChainResizeStats;
use crate::read::{read_exchange, reading, StepError};
use crate::renumber::renumbered;
use crate::write::{exchange_text, has_optional_sections, write_exchange};

verus! {

/// Which end stays where it is when a number of sites changes.
#[derive(Debug, Clone, Copy, PartialEq, Eq, Structural)]
pub enum CountAnchor {
    Start,
    Center,
    End,
}

/// Why a resize is refused.
#[derive(Debug, Clone, Copy, PartialEq, Eq, Structural)]
pub enum EditError {
    /// The file cannot be read.
    Read(StepError),
    /// The file does not have exactly one DATA section.
    Sections,
    /// There is no chain or parameter with the index.
    NotFound,
    /// The chain or parameter is not sufficiently proven.
    NotProven,
    /// The number of sites is the present one.
    SameSites,
    /// The number of sites is too small.
    TooFewSites,
    /// Both ends cannot be moved by the same number of sites.
    OddDelta,
    /// Nothing that was found after the first edit matches.
    NotRediscovered,
    /// More than one thing that was found after the first edit matches.
    Ambiguous,
    /// The edited file does not hold what was asked for.
    NotVerified,
    /// The number of sites does not grow.
    NotGrowing,
    /// A coupled body or row has disappeared.
    Disappeared,
    /// A coupled row has no direction.
    NoBasis,
}

/// A chain of repeated sites in one solid. The parts of its axis, its pitch and the
/// centres of its sites are the bit patterns of doubles.
#[derive(Debug)]
pub struct PeriodicChainPattern {
    pub solid_id: u64,
    pub axis: [u64; 3],
    pub pitch: u64,
    pub sites: usize,
    pub site_centers: Vec<u64>,
    pub lattice_face_family_votes: usize,
    pub complete_partition: bool,
    pub read_only_proven: bool,
    pub faces_without_geometry: usize,
    pub nonmanifold_edges: usize,
    pub cross_site_edges: usize,
    pub site_face_counts: Vec<usize>,
    pub interior_site_face_count: usize,
    pub gap_face_counts: Vec<usize>,
    pub interior_gap_face_count: usize,
    pub site_face_ids: Vec<Vec<u64>>,
    pub gap_face_ids: Vec<Vec<u64>>,
    pub stretch_face_ids: Vec<u64>,
    pub fixed_negative_face_ids: Vec<u64>,
    pub fixed_middle_face_ids: Vec<u64>,
    pub fixed_positive_face_ids: Vec<u64>,
    /// How many faces the solid has.
    pub total_faces: usize,
    /// How often its edges join which parts.
    pub edge_category_counts: TypeCounts,
    pub site_adjacency: Vec<Vec<(String, usize)>>,
    pub gap_adjacency: Vec<Vec<(String, usize)>>,
}

/// Whether two chains have as many faces of each sort.
pub open spec fn same_grammar(a: PeriodicChainPattern, b: PeriodicChainPattern) -> bool {
    &&& a.interior_site_face_count == b.interior_site_face_count
    &&& a.interior_gap_face_count == b.interior_gap_face_count
    &&& a.stretch_face_ids@.len() == b.stretch_face_ids@.len()
    &&& a.fixed_negative_face_ids@.len() == b.fixed_negative_face_ids@.len()
    &&& a.fixed_positive_face_ids@.len() == b.fixed_positive_face_ids@.len()
}

/// Whether a chain is the one that a first edit was to leave.
pub open spec fn continues_chain(
    candidate: PeriodicChainPattern,
    sites: usize,
    original: PeriodicChainPattern,
) -> bool {
    &&& candidate.read_only_proven
    &&& candidate.complete_partition
    &&& candidate.sites == sites
    &&& same_grammar(candidate, original)
    &&& candidate.fixed_middle_face_ids@.len() == original.fixed_middle_face_ids@.len()
}

/// Whether a chain is the one that an edit was to leave.
pub open spec fn confirms_chain(
    candidate: PeriodicChainPattern,
    sites: usize,
    original: PeriodicChainPattern,
) -> bool {
    &&& candidate.read_only_proven
    &&& candidate.complete_partition
    &&& candidate.sites == sites
    &&& same_grammar(candidate, original)
    &&& candidate.faces_without_geometry == 0
    &&& candidate.nonmanifold_edges == 0
    &&& candidate.cross_site_edges == 0
}

fn has_same_grammar(a: &PeriodicChainPattern, b: &PeriodicChainPattern) -> (out: bool)
    ensures
        out == same_grammar(*a, *b),
{
    a.interior_site_face_count == b.interior_site_face_count
        && a.interior_gap_face_count == b.interior_gap_face_count && a.stretch_face_ids.len()
        == b.stretch_face_ids.len() && a.fixed_negative_face_ids.len()
        == b.fixed_negative_face_ids.len() && a.fixed_positive_face_ids.len()
        == b.fixed_positive_face_ids.len()
}

fn is_continued(
    candidate: &PeriodicChainPattern,
    sites: usize,
    original: &PeriodicChainPattern,
) -> (out: bool)
    ensures
        out == continues_chain(*candidate, sites, *original),
{
    candidate.read_only_proven && candidate.complete_partition && candidate.sites == sites
        && has_same_grammar(candidate, original) && candidate.fixed_middle_face_ids.len()
        == original.fixed_middle_face_ids.len()
}

/// The one position at which something holds, if there is exactly one.
pub open spec fn only_at(len: nat, holds: spec_fn(int) -> bool, i: int) -> bool {
    &&& 0 <= i < len
    &&& holds(i)
    &&& forall|j: int| 0 <= j < len && #[trigger] holds(j) ==> j == i
}

/// The chain that a first edit has left. There must be exactly one. `same_pitch` tells of each
/// chain whether its sites are as far apart as those of the original, up to the tolerance.
pub fn find_matching_periodic_chain(
    chains: &Vec<PeriodicChainPattern>,
    same_pitch: &Vec<bool>,
    sites: usize,
    original: &PeriodicChainPattern,
) -> (out: Result<usize, EditError>)
    requires
        same_pitch@.len() == chains@.len(),
    ensures
        match out {
            Ok(i) => only_at(
                chains@.len(),
                |j: int| same_pitch@[j] && continues_chain(chains@[j], sites, *original),
                i as int,
            ),
            Err(EditError::NotRediscovered) => forall|j: int|
                0 <= j < chains@.len() && same_pitch@[j] ==> !continues_chain(
                    #[trigger] chains@[j],
                    sites,
                    *original,
                ),
            Err(error) => error == EditError::Ambiguous && exists|i: int, j: int|
                0 <= i < j < chains@.len() && same_pitch@[i] && same_pitch@[j]
                    && continues_chain(#[trigger] chains@[i], sites, *original) && continues_chain(
                    #[trigger] chains@[j],
                    sites,
                    *original,
                ),
        },
{
    let ghost holds = |j: int| same_pitch@[j] && continues_chain(chains@[j], sites, *original);
    let mut found: Option<usize> = None;
    let mut i: usize = 0;
    while i < chains.len()
        invariant
            i <= chains.len(),
            same_pitch@.len() == chains@.len(),
            holds == (|j: int| same_pitch@[j] && continues_chain(chains@[j], sites, *original)),
            match found {
                Some(k) => k < i && holds(k as int) && forall|j: int|
                    0 <= j < i && #[trigger] holds(j) ==> j == k,
                None => forall|j: int| 0 <= j < i ==> !#[trigger] holds(j),
            },
        decreases chains.len() - i,
    {
        if same_pitch[i] && is_continued(&chains[i], sites, original) {
            assert(holds(i as int));
            if let Some(k) = found {
                assert(continues_chain(chains@[k as int], sites, *original));
                assert(continues_chain(chains@[i as int], sites, *original));
                return Err(EditError::Ambiguous);
            }
            found = Some(i);
        } else {
            assert(!holds(i as int));
        }
        i = i + 1;
    }
    match found {
        Some(k) => Ok(k),
        None => {
            assert forall|j: int|
                0 <= j < chains@.len() && same_pitch@[j] implies !continues_chain(
                #[trigger] chains@[j],
                sites,
                *original,
            ) by {
                assert(!holds(j));
            }
            Err(EditError::NotRediscovered)
        },
    }
}

/// Whether one of the chains that were found confirms an edit.
pub open spec fn some_confirms(
    chains: Seq<PeriodicChainPattern>,
    same_pitch: Seq<bool>,
    sites: usize,
    original: PeriodicChainPattern,
) -> bool {
    exists|i: int|
        0 <= i < chains.len() && same_pitch[i] && confirms_chain(
            #[trigger] chains[i],
            sites,
            original,
        )
}

/// Whether one of the chains that were found confirms an edit.
pub fn chain_is_confirmed(
    chains: &Vec<PeriodicChainPattern>,
    same_pitch: &Vec<bool>,
    sites: usize,
    original: &PeriodicChainPattern,
) -> (out: bool)
    requires
        same_pitch@.len() == chains@.len(),
    ensures
        out == some_confirms(chains@, same_pitch@, sites, *original),
{
    let mut i: usize = 0;
    while i < chains.len()
        invariant
            i <= chains.len(),
            same_pitch@.len() == chains@.len(),
            forall|j: int|
                0 <= j < i && same_pitch@[j] ==> !confirms_chain(
                    #[trigger] chains@[j],
                    sites,
                    *original,
                ),
        decreases chains.len() - i,
    {
        let c = &chains[i];
        if same_pitch[i] && c.read_only_proven && c.complete_partition && c.sites == sites
            && has_same_grammar(c, original) && c.faces_without_geometry == 0
            && c.nonmanifold_edges == 0 && c.cross_site_edges == 0 {
            assert(confirms_chain(chains@[i as int], sites, *original));
            return true;
        }
        i = i + 1;
    }
    false
}

/// The bit pattern of a double with the other sign.
pub open spec fn negated(bits: u64) -> u64 {
    bits ^ 0x8000_0000_0000_0000
}

/// A list in the other order.
pub fn reverse_list<T>(list: Vec<T>) -> (out: Vec<T>)
    ensures
        out@ == list@.reverse(),
{
    let ghost all = list@;
    let mut list = list;
    let mut out: Vec<T> = Vec::new();
    while list.len() > 0
        invariant
            list@ == all.take(list@.len() as int),
            list@.len() <= all.len(),
            out@ == all.skip(list@.len() as int).reverse(),
        decreases list.len(),
    {
        let ghost n = list@.len() as int;
        let item = list.pop().unwrap();
        out.push(item);
        assert(all.skip(n - 1).reverse() =~= all.skip(n).reverse().push(all[n - 1]));
        assert(list@ =~= all.take(n - 1));
    }
    assert(all.skip(0) =~= all);
    out
}

/// A chain seen from its other end.
pub open spec fn is_reverse(a: PeriodicChainPattern, b: PeriodicChainPattern) -> bool {
    &&& b.solid_id == a.solid_id
    &&& forall|i: int| 0 <= i < 3 ==> #[trigger] b.axis@[i] == negated(a.axis@[i])
    &&& b.pitch == a.pitch
    &&& b.sites == a.sites
    &&& b.site_centers@ == a.site_centers@.reverse().map_values(|bits: u64| negated(bits))
    &&& b.lattice_face_family_votes == a.lattice_face_family_votes
    &&& b.complete_partition == a.complete_partition
    &&& b.read_only_proven == a.read_only_proven
    &&& b.faces_without_geometry == a.faces_without_geometry
    &&& b.nonmanifold_edges == a.nonmanifold_edges
    &&& b.cross_site_edges == a.cross_site_edges
    &&& b.site_face_counts@ == a.site_face_counts@.reverse()
    &&& b.interior_site_face_count == a.interior_site_face_count
    &&& b.gap_face_counts@ == a.gap_face_counts@.reverse()
    &&& b.interior_gap_face_count == a.interior_gap_face_count
    &&& b.site_face_ids@ == a.site_face_ids@.reverse()
    &&& b.gap_face_ids@ == a.gap_face_ids@.reverse()
    &&& b.stretch_face_ids@ == a.stretch_face_ids@
    &&& b.fixed_negative_face_ids@ == a.fixed_positive_face_ids@
    &&& b.fixed_middle_face_ids@ == a.fixed_middle_face_ids@
    &&& b.fixed_positive_face_ids@ == a.fixed_negative_face_ids@
    &&& b.total_faces == a.total_faces
    &&& b.edge_category_counts == a.edge_category_counts
    &&& b.site_adjacency@ == a.site_adjacency@.reverse()
    &&& b.gap_adjacency@ == a.gap_adjacency@.reverse()
}

/// A chain seen from its other end.
pub fn reverse_periodic_chain(chain: PeriodicChainPattern) -> (out: PeriodicChainPattern)
    ensures
        is_reverse(chain, out),
{
    let mut centers: Vec<u64> = Vec::new();
    let ghost back = chain.site_centers@.reverse().map_values(|bits: u64| negated(bits));
    let mut i: usize = chain.site_centers.len();
    while i > 0
        invariant
            i <= chain.site_centers@.len(),
            back == chain.site_centers@.reverse().map_values(|bits: u64| negated(bits)),
            centers@ == back.take(chain.site_centers@.len() - i),
        decreases i,
    {
        i = i - 1;
        centers.push(chain.site_centers[i] ^ 0x8000_0000_0000_0000);
        assert(centers@ =~= back.take(chain.site_centers@.len() - i));
    }
    assert(back.take(back.len() as int) =~= back);
    let x: u64 = chain.axis[0];
    let y: u64 = chain.axis[1];
    let z: u64 = chain.axis[2];
    assert(chain.axis@[0] == x && chain.axis@[1] == y && chain.axis@[2] == z);
    PeriodicChainPattern {
        solid_id: chain.solid_id,
        axis: [
            x ^ 0x8000_0000_0000_0000,
            y ^ 0x8000_0000_0000_0000,
            z ^ 0x8000_0000_0000_0000,
        ],
        pitch: chain.pitch,
        sites: chain.sites,
        site_centers: centers,
        lattice_face_family_votes: chain.lattice_face_family_votes,
        complete_partition: chain.complete_partition,
        read_only_proven: chain.read_only_proven,
        faces_without_geometry: chain.faces_without_geometry,
        nonmanifold_edges: chain.nonmanifold_edges,
        cross_site_edges: chain.cross_site_edges,
        site_face_counts: reverse_list(chain.site_face_counts),
        interior_site_face_count: chain.interior_site_face_count,
        gap_face_counts: reverse_list(chain.gap_face_counts),
        interior_gap_face_count: chain.interior_gap_face_count,
        site_face_ids: reverse_list(chain.site_face_ids),
        gap_face_ids: reverse_list(chain.gap_face_ids),
        stretch_face_ids: chain.stretch_face_ids,
        fixed_negative_face_ids: chain.fixed_positive_face_ids,
        fixed_middle_face_ids: chain.fixed_middle_face_ids,
        fixed_positive_face_ids: chain.fixed_negative_face_ids,
        total_faces: chain.total_faces,
        edge_category_counts: chain.edge_category_counts,
        site_adjacency: reverse_list(chain.site_adjacency),
        gap_adjacency: reverse_list(chain.gap_adjacency),
    }
}

/// Seen from its other end twice a chain is what it was.
pub proof fn law_reverse_chain_twice(
    a: PeriodicChainPattern,
    b: PeriodicChainPattern,
    c: PeriodicChainPattern,
)
    requires
        is_reverse(a, b),
        is_reverse(b, c),
    ensures
        c.solid_id == a.solid_id,
        forall|i: int| 0 <= i < 3 ==> #[trigger] c.axis@[i] == a.axis@[i],
        c.pitch == a.pitch,
        c.sites == a.sites,
        c.site_centers@ == a.site_centers@,
        c.lattice_face_family_votes == a.lattice_face_family_votes,
        c.complete_partition == a.complete_partition,
        c.read_only_proven == a.read_only_proven,
        c.faces_without_geometry == a.faces_without_geometry,
        c.nonmanifold_edges == a.nonmanifold_edges,
        c.cross_site_edges == a.cross_site_edges,
        c.interior_site_face_count == a.interior_site_face_count,
        c.interior_gap_face_count == a.interior_gap_face_count,
        c.site_face_counts@ == a.site_face_counts@,
        c.gap_face_counts@ == a.gap_face_counts@,
        c.site_face_ids@ == a.site_face_ids@,
        c.gap_face_ids@ == a.gap_face_ids@,
        c.stretch_face_ids@ == a.stretch_face_ids@,
        c.fixed_negative_face_ids@ == a.fixed_negative_face_ids@,
        c.fixed_middle_face_ids@ == a.fixed_middle_face_ids@,
        c.fixed_positive_face_ids@ == a.fixed_positive_face_ids@,
        c.total_faces == a.total_faces,
        c.edge_category_counts == a.edge_category_counts,
        c.site_adjacency@ == a.site_adjacency@,
        c.gap_adjacency@ == a.gap_adjacency@,
{
    assert forall|bits: u64| #[trigger] negated(negated(bits)) == bits by {
        assert((bits ^ 0x8000_0000_0000_0000) ^ 0x8000_0000_0000_0000 == bits) by (bit_vector);
    }
    assert forall|i: int| 0 <= i < 3 implies #[trigger] c.axis@[i] == a.axis@[i] by {
        assert(b.axis@[i] == negated(a.axis@[i]));
    }
    assert(c.site_centers@ =~= a.site_centers@);
    assert(c.site_face_counts@ =~= a.site_face_counts@);
    assert(c.gap_face_counts@ =~= a.gap_face_counts@);
    assert(c.site_face_ids@ =~= a.site_face_ids@);
    assert(c.gap_face_ids@ =~= a.gap_face_ids@);
    assert(c.site_adjacency@ =~= a.site_adjacency@);
    assert(c.gap_adjacency@ =~= a.gap_adjacency@);
}

/// One edit of a chain at its positive end: the file, the chain as seen from the end that
/// stays, and whether it grows.
#[derive(Debug)]
pub struct ChainEdit {
    pub exchange: Exchange,
    pub chain: PeriodicChainPattern,
    pub new_sites: usize,
    pub grows: bool,
}

/// How a chain is resized.
#[derive(Debug)]
pub enum ChainPlan {
    /// By one edit.
    OneSide(ChainEdit),
    /// By one edit that keeps the start and leads to `mid_sites`, and a second one that keeps
    /// the end and leads to `new_sites`.
    BothSides { mid_sites: usize, new_sites: usize },
}

/// Why an edit at one end is refused, if it is.
pub open spec fn one_side_refusal(
    input: Seq<u8>,
    chains: Seq<PeriodicChainPattern>,
    index: usize,
    new_sites: usize,
) -> Option<EditError> {
    match reading(input) {
        Err(error) => Some(EditError::Read(error)),
        Ok((exchange, _)) => if exchange.data.len() != 1 {
            Some(EditError::Sections)
        } else if index >= chains.len() {
            Some(EditError::NotFound)
        } else if !chains[index as int].read_only_proven {
            Some(EditError::NotProven)
        } else if new_sites == chains[index as int].sites {
            Some(EditError::SameSites)
        } else {
            None
        },
    }
}

/// Why a resize that keeps the centre is refused, if it is.
pub open spec fn center_refusal(
    input: Seq<u8>,
    chains: Seq<PeriodicChainPattern>,
    index: usize,
    new_sites: usize,
) -> Option<EditError> {
    match reading(input) {
        Err(error) => Some(EditError::Read(error)),
        Ok(_) => if index >= chains.len() {
            Some(EditError::NotFound)
        } else if !chains[index as int].read_only_proven
            || !chains[index as int].complete_partition {
            Some(EditError::NotProven)
        } else if new_sites == chains[index as int].sites {
            Some(EditError::SameSites)
        } else if new_sites < 6 {
            Some(EditError::TooFewSites)
        } else if (new_sites - chains[index as int].sites) % 2 != 0 {
            Some(EditError::OddDelta)
        } else {
            None
        },
    }
}

/// The number of sites half way between two numbers.
pub open spec fn half_way(from: usize, to: usize) -> int {
    (from + to) / 2
}

/// Whether an edit is the one that was asked for.
pub open spec fn is_chain_edit(
    edit: ChainEdit,
    input: Seq<u8>,
    chain: PeriodicChainPattern,
    new_sites: usize,
    anchor: CountAnchor,
) -> bool {
    &&& reading(input) matches Ok((exchange, _))
    &&& edit.exchange@ == exchange
    &&& edit.new_sites == new_sites
    &&& edit.grows == (new_sites > chain.sites)
    &&& if anchor == CountAnchor::End {
        is_reverse(chain, edit.chain)
    } else {
        edit.chain == chain
    }
}

/// Chooses one edit of a chain at one end.
pub fn resize_periodic_chain_bytes_one_side(
    input: &[u8],
    chains: Vec<PeriodicChainPattern>,
    chain_index: usize,
    new_sites: usize,
    anchor: CountAnchor,
) -> (out: Result<ChainEdit, EditError>)
    ensures
        match out {
            Err(error) => one_side_refusal(input@, chains@, chain_index, new_sites) == Some(error),
            Ok(edit) => {
                &&& one_side_refusal(input@, chains@, chain_index, new_sites) is None
                &&& is_chain_edit(
                    edit,
                    input@,
                    chains@[chain_index as int],
                    new_sites,
                    anchor,
                )
            },
        },
{
    match read_exchange(input) {
        Err(error) => Err(EditError::Read(error)),
        Ok((exchange, _)) => {
            if exchange.data.len() != 1 {
                return Err(EditError::Sections);
            }
            if chain_index >= chains.len() {
                return Err(EditError::NotFound);
            }
            if !chains[chain_index].read_only_proven {
                return Err(EditError::NotProven);
            }
            if new_sites == chains[chain_index].sites {
                return Err(EditError::SameSites);
            }
            let mut chains = chains;
            let chain = chains.remove(chain_index);
            let grows = new_sites > chain.sites;
            let directed = if anchor == CountAnchor::End {
                reverse_periodic_chain(chain)
            } else {
                chain
            };
            Ok(ChainEdit { exchange, chain: directed, new_sites, grows })
        },
    }
}

/// Chooses how a chain is resized. Where the start or the end stays, one edit does it. Where
/// the centre stays, both ends move by the same number of sites.
pub fn resize_periodic_chain_bytes_with_anchor(
    input: &[u8],
    chains: Vec<PeriodicChainPattern>,
    chain_index: usize,
    new_sites: usize,
    anchor: CountAnchor,
) -> (out: Result<ChainPlan, EditError>)
    ensures
        anchor != CountAnchor::Center ==> match out {
            Err(error) => one_side_refusal(input@, chains@, chain_index, new_sites) == Some(error),
            Ok(plan) => {
                &&& one_side_refusal(input@, chains@, chain_index, new_sites) is None
                &&& plan matches ChainPlan::OneSide(edit)
                &&& is_chain_edit(
                    edit,
                    input@,
                    chains@[chain_index as int],
                    new_sites,
                    anchor,
                )
            },
        },
        anchor == CountAnchor::Center ==> match out {
            Err(error) => center_refusal(input@, chains@, chain_index, new_sites) == Some(error),
            Ok(plan) => {
                &&& center_refusal(input@, chains@, chain_index, new_sites) is None
                &&& plan matches ChainPlan::BothSides { mid_sites, new_sites: end_sites }
                &&& mid_sites == half_way(chains@[chain_index as int].sites, new_sites)
                &&& end_sites == new_sites
            },
        },
{
    if anchor != CountAnchor::Center {
        return match resize_periodic_chain_bytes_one_side(
            input,
            chains,
            chain_index,
            new_sites,
            anchor,
        ) {
            Err(error) => Err(error),
            Ok(edit) => Ok(ChainPlan::OneSide(edit)),
        };
    }
    match read_exchange(input) {
        Err(error) => Err(EditError::Read(error)),
        Ok(_) => {
            if chain_index >= chains.len() {
                return Err(EditError::NotFound);
            }
            let original = &chains[chain_index];
            if !original.read_only_proven || !original.complete_partition {
                return Err(EditError::NotProven);
            }
            if new_sites == original.sites {
                return Err(EditError::SameSites);
            }
            if new_sites < 6 {
                return Err(EditError::TooFewSites);
            }
            match mid_count(original.sites, new_sites) {
                None => Err(EditError::OddDelta),
                Some(mid_sites) => Ok(ChainPlan::BothSides { mid_sites, new_sites }),
            }
        },
    }
}

/// The number half way between two numbers, where it is whole.
pub(crate) fn mid_count(from: usize, to: usize) -> (out: Option<usize>)
    ensures
        out is None == ((to - from) % 2 != 0),
        out matches Some(mid) ==> mid == half_way(from, to) && mid - from == to - mid,
{
    if to > from {
        let delta: usize = to - from;
        if delta % 2 != 0 {
            None
        } else {
            Some(from + delta / 2)
        }
    } else {
        let delta: usize = from - to;
        if delta % 2 != 0 {
            None
        } else {
            Some(from - delta / 2)
        }
    }
}

/// Chooses how a chain is resized while its start stays.
pub fn resize_periodic_chain_bytes(
    input: &[u8],
    chains: Vec<PeriodicChainPattern>,
    chain_index: usize,
    new_sites: usize,
) -> (out: Result<ChainPlan, EditError>)
    ensures
        match out {
            Err(error) => one_side_refusal(input@, chains@, chain_index, new_sites) == Some(error),
            Ok(plan) => {
                &&& one_side_refusal(input@, chains@, chain_index, new_sites) is None
                &&& plan matches ChainPlan::OneSide(edit)
                &&& is_chain_edit(
                    edit,
                    input@,
                    chains@[chain_index as int],
                    new_sites,
                    CountAnchor::Start,
                )
            },
        },
{
    resize_periodic_chain_bytes_with_anchor(
        input,
        chains,
        chain_index,
        new_sites,
        CountAnchor::Start,
    )
}

/// Why making a chain longer is refused, if it is.
pub open spec fn growth_refusal(
    input: Seq<u8>,
    chains: Seq<PeriodicChainPattern>,
    index: usize,
    new_sites: usize,
) -> Option<EditError> {
    match reading(input) {
        Err(error) => Some(EditError::Read(error)),
        Ok(_) => if index >= chains.len() {
            Some(EditError::NotFound)
        } else if new_sites <= chains[index as int].sites {
            Some(EditError::NotGrowing)
        } else {
            one_side_refusal(input, chains, index, new_sites)
        },
    }
}

/// Chooses how a chain is made longer while its start stays.
pub fn expand_periodic_chain_bytes(
    input: &[u8],
    chains: Vec<PeriodicChainPattern>,
    chain_index: usize,
    new_sites: usize,
) -> (out: Result<ChainPlan, EditError>)
    ensures
        match out {
            Err(error) => growth_refusal(input@, chains@, chain_index, new_sites) == Some(error),
            Ok(plan) => {
                &&& growth_refusal(input@, chains@, chain_index, new_sites) is None
                &&& plan matches ChainPlan::OneSide(edit)
                &&& edit.grows
                &&& is_chain_edit(
                    edit,
                    input@,
                    chains@[chain_index as int],
                    new_sites,
                    CountAnchor::Start,
                )
            },
        },
{
    match read_exchange(input) {
        Err(error) => Err(EditError::Read(error)),
        Ok(_) => {
            if chain_index >= chains.len() {
                return Err(EditError::NotFound);
            }
            if new_sites <= chains[chain_index].sites {
                return Err(EditError::NotGrowing);
            }
            resize_periodic_chain_bytes(input, chains, chain_index, new_sites)
        },
    }
}

/// Moving both ends by half of the difference leads to the number of sites that was asked
/// for, and moves them by the same number.
pub proof fn law_center_is_balanced(
    input: Seq<u8>,
    chains: Seq<PeriodicChainPattern>,
    index: usize,
    new_sites: usize,
)
    requires
        center_refusal(input, chains, index, new_sites) is None,
    ensures
        ({
            let old_sites = chains[index as int].sites;
            let mid = half_way(old_sites, new_sites);
            &&& mid - old_sites == new_sites - mid
            &&& mid != old_sites
            &&& mid != new_sites
        }),
{
}

/// A sum that stays within the range of its type.
pub open spec fn clamped(n: int) -> isize {
    if n > isize::MAX {
        isize::MAX
    } else if n < isize::MIN {
        isize::MIN
    } else {
        n as isize
    }
}

/// What two edits have changed together.
pub open spec fn combined_chain_stats(
    first: PeriodicChainResizeStats,
    second: PeriodicChainResizeStats,
    old_sites: usize,
    new_sites: usize,
) -> PeriodicChainResizeStats {
    PeriodicChainResizeStats {
        old_sites,
        new_sites,
        inserted_units: first.inserted_units.saturating_add(second.inserted_units),
        removed_units: first.removed_units.saturating_add(second.removed_units),
        seam_edge_pairs: first.seam_edge_pairs.saturating_add(second.seam_edge_pairs),
        welded_vertices: first.welded_vertices.saturating_add(second.welded_vertices),
        welded_edges: first.welded_edges.saturating_add(second.welded_edges),
        rebuilt_stretch_faces: first.rebuilt_stretch_faces.saturating_add(
            second.rebuilt_stretch_faces,
        ),
        new_stretch_edges: first.new_stretch_edges.saturating_add(second.new_stretch_edges),
        added_entities: first.added_entities.saturating_add(second.added_entities),
        pruned_entities: first.pruned_entities.saturating_add(second.pruned_entities),
        entity_delta: clamped(first.entity_delta + second.entity_delta),
    }
}

fn clamped_sum(a: isize, b: isize) -> (out: isize)
    ensures
        out == clamped(a + b),
{
    let sum: i128 = a as i128 + b as i128;
    if sum > isize::MAX as i128 {
        isize::MAX
    } else if sum < isize::MIN as i128 {
        isize::MIN
    } else {
        sum as isize
    }
}

fn clamped_difference(a: usize, b: usize) -> (out: isize)
    ensures
        out == clamped(a - b),
{
    let difference: i128 = a as i128 - b as i128;
    if difference > isize::MAX as i128 {
        isize::MAX
    } else if difference < isize::MIN as i128 {
        isize::MIN
    } else {
        difference as isize
    }
}

/// What an edit of a chain gives.
#[derive(Debug)]
pub struct PeriodicChainEditOutput {
    pub bytes: Vec<u8>,
    pub resize: PeriodicChainResizeStats,
    pub periodic_chains: Vec<PeriodicChainPattern>,
    pub compatibility: CompatibilityAudit,
}

/// The outcome of two edits that keep the centre: that of the second one, with what both have
/// changed.
pub fn combine_chain_edits(
    first: &PeriodicChainResizeStats,
    second: PeriodicChainEditOutput,
    old_sites: usize,
    new_sites: usize,
) -> (out: PeriodicChainEditOutput)
    ensures
        out.bytes@ == second.bytes@,
        out.periodic_chains@ == second.periodic_chains@,
        out.compatibility == second.compatibility,
        out.resize == combined_chain_stats(*first, second.resize, old_sites, new_sites),
{
    let more = second.resize;
    let resize = PeriodicChainResizeStats {
        old_sites,
        new_sites,
        inserted_units: first.inserted_units.saturating_add(more.inserted_units),
        removed_units: first.removed_units.saturating_add(more.removed_units),
        seam_edge_pairs: first.seam_edge_pairs.saturating_add(more.seam_edge_pairs),
        welded_vertices: first.welded_vertices.saturating_add(more.welded_vertices),
        welded_edges: first.welded_edges.saturating_add(more.welded_edges),
        rebuilt_stretch_faces: first.rebuilt_stretch_faces.saturating_add(
            more.rebuilt_stretch_faces,
        ),
        new_stretch_edges: first.new_stretch_edges.saturating_add(more.new_stretch_edges),
        added_entities: first.added_entities.saturating_add(more.added_entities),
        pruned_entities: first.pruned_entities.saturating_add(more.pruned_entities),
        entity_delta: clamped_sum(first.entity_delta, more.entity_delta),
    };
    PeriodicChainEditOutput {
        bytes: second.bytes,
        resize,
        periodic_chains: second.periodic_chains,
        compatibility: second.compatibility,
    }
}

/// The bytes of an exchange structure.
pub(crate) fn exchange_bytes(exchange: &Exchange) -> (out: Vec<u8>)
    requires
        !has_optional_sections(exchange@),
    ensures
        out@ == encode_utf8(exchange_text(exchange@)),
{
    match write_exchange(exchange) {
        Some(text) => crate::clean::text_bytes(&text),
        None => {
            assert(false);
            Vec::new()
        },
    }
}

/// A file with other entities in its one section.
pub open spec fn with_entities(exchange: ExchangeView, entities: Seq<EntityView>) -> ExchangeView {
    with_data(
        exchange,
        exchange.data.update(0, SectionView { meta: exchange.data[0].meta, entities }),
    )
}

/// Whether a file is what merging supports and then copies leaves of an edited one. `place` tells
/// which supports were measured to be in one place.
pub open spec fn is_merged(before: ExchangeView, place: Map<u64, u64>, after: ExchangeView) -> bool {
    exists|entities: Seq<EntityView>, stats: GeometricInternStats| #[trigger]
        supports_interned(before.data[0].entities, place, entities, stats) && after
            == with_entities(before, interned(entities))
}

/// Merges the supports and the copies that an edit of a chain has made.
pub fn merge_chain_edit(exchange: Exchange, place: &HashMap<u64, u64>) -> (out: Exchange)
    requires
        exchange.data@.len() == 1,
    ensures
        is_merged(exchange@, place@, out@),
{
    let ghost before = exchange@;
    let mut data = exchange.data;
    let mut edited = data.remove(0);
    let stats = intern_geometric_supports(&mut edited.entities, place);
    let ghost entities = entities_view(edited.entities@);
    let _ = intern_section(&mut edited.entities);
    data.insert(0, edited);
    let out = Exchange {
        header: exchange.header,
        anchor: exchange.anchor,
        reference: exchange.reference,
        data,
        signature: exchange.signature,
    };
    proof {
        assert(supports_interned(before.data[0].entities, place@, entities, stats));
        assert(out@.data =~= with_entities(before, interned(entities)).data);
    }
    out
}

/// A file whose sections are numbered anew.
pub open spec fn numbered_anew(exchange: ExchangeView) -> ExchangeView {
    with_data(exchange, mapped(exchange.data, |e: Seq<EntityView>| renumbered(e)))
}

/// What an edit of a chain has changed, with the points that were removed after it.
pub open spec fn with_pruned(resize: PeriodicChainResizeStats, pruned: usize) -> PeriodicChainResizeStats {
    PeriodicChainResizeStats {
        pruned_entities: resize.pruned_entities.saturating_add(pruned),
        ..resize
    }
}

/// Ends an edit of a chain after `pruned` points that nothing used were removed: the file is
/// numbered anew.
pub fn settle_chain_edit(
    exchange: Exchange,
    resize: PeriodicChainResizeStats,
    pruned: usize,
) -> (out: (Exchange, PeriodicChainResizeStats))
    ensures
        out.0@ == numbered_anew(exchange@),
        out.1 == with_pruned(resize, pruned),
{
    let mut data = exchange.data;
    renumber_sections(&mut data);
    let settled = Exchange {
        header: exchange.header,
        anchor: exchange.anchor,
        reference: exchange.reference,
        data,
        signature: exchange.signature,
    };
    let mut counted = resize;
    counted.pruned_entities = resize.pruned_entities.saturating_add(pruned);
    (settled, counted)
}

/// What an edit of a chain has changed, with how the number of entities has changed.
pub open spec fn with_entity_counts(
    resize: PeriodicChainResizeStats,
    before: usize,
    after: nat,
) -> PeriodicChainResizeStats {
    PeriodicChainResizeStats {
        added_entities: if after > before {
            (after - before) as usize
        } else {
            0
        },
        entity_delta: clamped(after - before),
        ..resize
    }
}

/// Accepts an edit of a chain, where the chain that was asked for is found in the edited
/// file. `before` is how many entities the file had.
pub fn finish_chain_edit(
    exchange: &Exchange,
    original: &PeriodicChainPattern,
    new_sites: usize,
    before: usize,
    resize: PeriodicChainResizeStats,
    chains: Vec<PeriodicChainPattern>,
    same_pitch: &Vec<bool>,
) -> (out: Result<PeriodicChainEditOutput, EditError>)
    requires
        exchange.data@.len() == 1,
        same_pitch@.len() == chains@.len(),
        !has_optional_sections(exchange@),
    ensures
        out is Ok <==> some_confirms(chains@, same_pitch@, new_sites, *original),
        match out {
            Err(error) => error == EditError::NotVerified,
            Ok(edited) => {
                &&& edited.bytes@ == encode_utf8(exchange_text(exchange@))
                &&& edited.resize == with_entity_counts(
                    resize,
                    before,
                    exchange@.data[0].entities.len(),
                )
                &&& edited.periodic_chains@ == chains@
                &&& audits(edited.compatibility, all_section_records(exchange@.data))
            },
        },
{
    if !chain_is_confirmed(&chains, same_pitch, new_sites, original) {
        return Err(EditError::NotVerified);
    }
    let after: usize = exchange.data[0].entities.len();
    assert(exchange@.data[0] == exchange.data@[0]@);
    let mut counted = resize;
    counted.added_entities = after.saturating_sub(before);
    counted.entity_delta = clamped_difference(after, before);
    let compatibility = audit_exchange_compatibility(exchange);
    let bytes = exchange_bytes(exchange);
    Ok(PeriodicChainEditOutput { bytes, resize: counted, periodic_chains: chains, compatibility })
}

/// Whether a chain is the only one that the first half of an edit has left.
pub open spec fn is_chain_left(
    chains: Seq<PeriodicChainPattern>,
    same_pitch: Seq<bool>,
    mid_sites: usize,
    original: PeriodicChainPattern,
    k: int,
) -> bool {
    only_at(
        chains.len(),
        |j: int| same_pitch[j] && continues_chain(chains[j], mid_sites, original),
        k,
    )
}

/// Whether the first half of an edit has left no chain.
pub open spec fn no_chain_is_left(
    chains: Seq<PeriodicChainPattern>,
    same_pitch: Seq<bool>,
    mid_sites: usize,
    original: PeriodicChainPattern,
) -> bool {
    forall|j: int|
        0 <= j < chains.len() && same_pitch[j] ==> !continues_chain(
            #[trigger] chains[j],
            mid_sites,
            original,
        )
}

/// Whether the second half of an edit that keeps the centre is what follows the first half: an
/// edit of the chain that the first half has left, on what it has written, which keeps the end.
pub open spec fn is_second_chain_half(
    first: PeriodicChainEditOutput,
    k: usize,
    new_sites: usize,
    chains: Seq<PeriodicChainPattern>,
    out: Result<ChainEdit, EditError>,
) -> bool {
    match out {
        Err(error) => one_side_refusal(first.bytes@, chains, k, new_sites) == Some(error),
        Ok(edit) => {
            &&& one_side_refusal(first.bytes@, chains, k, new_sites) is None
            &&& is_chain_edit(edit, first.bytes@, chains[k as int], new_sites, CountAnchor::End)
        },
    }
}

/// The second half of an edit that keeps the centre. The first half must have left exactly one
/// chain. `chains` are those that are found in what the first half has written.
pub fn resume_chain_center(
    first: &PeriodicChainEditOutput,
    same_pitch: &Vec<bool>,
    original: &PeriodicChainPattern,
    mid_sites: usize,
    new_sites: usize,
    chains: Vec<PeriodicChainPattern>,
) -> (out: Result<ChainEdit, EditError>)
    requires
        same_pitch@.len() == first.periodic_chains@.len(),
    ensures
        no_chain_is_left(first.periodic_chains@, same_pitch@, mid_sites, *original) ==> (
        out matches Err(error) && error == EditError::NotRediscovered),
        forall|k: usize| #[trigger]
            is_chain_left(first.periodic_chains@, same_pitch@, mid_sites, *original, k as int)
                ==> is_second_chain_half(*first, k, new_sites, chains@, out),
        !no_chain_is_left(first.periodic_chains@, same_pitch@, mid_sites, *original) && (forall|
            k: usize,
        |
            !#[trigger] is_chain_left(
                first.periodic_chains@,
                same_pitch@,
                mid_sites,
                *original,
                k as int,
            )) ==> (out matches Err(error) && error == EditError::Ambiguous),
{
    let ghost list = first.periodic_chains@;
    let ghost holds = |j: int| same_pitch@[j] && continues_chain(list[j], mid_sites, *original);
    let k: usize = match find_matching_periodic_chain(
        &first.periodic_chains,
        same_pitch,
        mid_sites,
        original,
    ) {
        Ok(k) => k,
        Err(error) => {
            proof {
                assert forall|i: usize| #[trigger]
                    is_chain_left(list, same_pitch@, mid_sites, *original, i as int) implies false by {
                    assert(holds(i as int));
                    assert(continues_chain(list[i as int], mid_sites, *original));
                    if error == EditError::Ambiguous {
                        let (a, b) = choose|a: int, b: int|
                            0 <= a < b < list.len() && same_pitch@[a] && same_pitch@[b]
                                && continues_chain(#[trigger] list[a], mid_sites, *original)
                                && continues_chain(#[trigger] list[b], mid_sites, *original);
                        assert(holds(a) && holds(b));
                    }
                }
            }
            return Err(error);
        },
    };
    proof {
        assert(is_chain_left(list, same_pitch@, mid_sites, *original, k as int));
        assert(holds(k as int));
        assert(continues_chain(list[k as int], mid_sites, *original));
        assert forall|i: usize| #[trigger]
            is_chain_left(list, same_pitch@, mid_sites, *original, i as int) implies i == k by {
            assert(holds(i as int));
        }
    }
    resize_periodic_chain_bytes_one_side(
        first.bytes.as_slice(),
        chains,
        k,
        new_sites,
        CountAnchor::End,
    )
}

/// Where an edit that keeps the centre is not refused, it is two edits in turn: the first one
/// keeps the start and is not refused either where the file has one section, both move an end by
/// the same number of sites in the same direction, and what the whole changes is the sum of what
/// both change.
pub proof fn law_center_is_two_edits(
    input: Seq<u8>,
    chains: Seq<PeriodicChainPattern>,
    index: usize,
    new_sites: usize,
    mid_sites: usize,
    first: PeriodicChainResizeStats,
    second: PeriodicChainResizeStats,
)
    requires
        center_refusal(input, chains, index, new_sites) is None,
        reading(input)->Ok_0.0.data.len() == 1,
        mid_sites == half_way(chains[index as int].sites, new_sites),
        first.inserted_units + second.inserted_units <= usize::MAX,
        first.removed_units + second.removed_units <= usize::MAX,
        first.added_entities + second.added_entities <= usize::MAX,
        first.pruned_entities + second.pruned_entities <= usize::MAX,
    ensures
        one_side_refusal(input, chains, index, mid_sites) is None,
        mid_sites - chains[index as int].sites == new_sites - mid_sites,
        mid_sites != new_sites,
        ({
            let whole = combined_chain_stats(
                first,
                second,
                chains[index as int].sites,
                new_sites,
            );
            &&& whole.old_sites == chains[index as int].sites
            &&& whole.new_sites == new_sites
            &&& whole.inserted_units == first.inserted_units + second.inserted_units
            &&& whole.removed_units == first.removed_units + second.removed_units
            &&& whole.added_entities == first.added_entities + second.added_entities
            &&& whole.pruned_entities == first.pruned_entities + second.pruned_entities
        }),
{
}

} // verus!
