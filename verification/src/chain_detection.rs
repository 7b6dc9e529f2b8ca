//! Finds the chains in solids.

use std::collections::HashMap;
use vstd::prelude::*;

use crate::ast::{entities_view, EntityInstance, EntityView};
use crate::body_detection::{closed_faces, find_solids, solids_of};
use crate::chain_partition::{
    classify_faces, find_links, find_neighbours, gap_census, is_partition, is_typical, links,
    neighbours, number_of, seen_from, EdgeLink, FacePart, FacePlace, NeighbourLabel,
};
use crate::chain_pattern::{
    best_score, every_edge, find_total_size, is_better, is_score, is_verdict, judge_chain,
    partition_score, sizes, sizes_of, total_size, ChainPartition, ChainVerdict, FaceEdges, FaceRow,
    LatticeCandidate, PartitionScore,
};
use crate::chain_reading::{
    are_faces_of, are_rows, are_windows, chain_windows, face_rows, find_candidate, is_candidate,
    measured_among, read_faces, seen_places, FaceForm, SolidFaces,
};
use crate::chain_windows::Window;
use crate::counts::{counted, TypeCounts};
use crate::graph::{build_index, indexes};
use crate::minify::capped;
use crate::cad_ir::ONE_BITS;
use crate::resize::PeriodicChainPattern;
use crate::sets::sorted_of;
use crate::text::{decimal, push_decimal};

verus! {

/// Whether faces have their parts in a chain of as many sites.
pub open spec fn is_classified(
    places: Seq<FacePlace>,
    count: usize,
    partition: ChainPartition,
) -> bool {
    exists|typical: usize| #[trigger]
        is_typical(places, count, typical) && is_partition(
            places,
            count,
            gap_census(places, count, typical),
            partition,
        )
}

/// Whether one of several partitions fits best. Of those that fit as well it is the first.
pub open spec fn is_choice(
    windows: Seq<Window>,
    places: Seq<Vec<FacePlace>>,
    count: usize,
    parts: Seq<ChainPartition>,
    scores: Seq<PartitionScore>,
    best: int,
) -> bool {
    &&& parts.len() == windows.len()
    &&& scores.len() == windows.len()
    &&& 0 <= best < windows.len()
    &&& forall|i: int|
        0 <= i < parts.len() ==> is_classified(places[i]@, count, #[trigger] parts[i])
    &&& forall|i: int|
        0 <= i < scores.len() ==> is_score(
            parts[i],
            clamped(windows[i].observations),
            #[trigger] scores[i],
        )
    &&& forall|i: int| 0 <= i < scores.len() ==> !is_better(#[trigger] scores[i], scores[best])
    &&& forall|i: int| 0 <= i < best ==> is_better(scores[best], #[trigger] scores[i])
}

/// Whether a window and the parts that faces have at it fit best.
pub open spec fn is_chosen(
    windows: Seq<Window>,
    places: Seq<Vec<FacePlace>>,
    count: usize,
    best: int,
    partition: ChainPartition,
) -> bool {
    exists|parts: Seq<ChainPartition>, scores: Seq<PartitionScore>| #[trigger]
        is_choice(windows, places, count, parts, scores, best) && parts[best] == partition
}

/// A number of observations, as far as it can be compared.
pub open spec fn clamped(n: usize) -> i64 {
    if n > i64::MAX {
        i64::MAX
    } else {
        n as i64
    }
}

fn clamp(n: usize) -> (out: i64)
    ensures
        out == clamped(n),
{
    if n as u64 > i64::MAX as u64 {
        i64::MAX
    } else {
        n as i64
    }
}

/// The window at which the faces of a solid fit best into a chain, and their parts in it. Where
/// there is no window or fewer than two sites there is none.
pub fn choose_partition(windows: &Vec<Window>, places: &Vec<Vec<FacePlace>>, count: usize) -> (out:
    Option<(usize, ChainPartition)>)
    requires
        places@.len() == windows@.len(),
    ensures
        out is Some == (windows@.len() > 0 && count >= 2),
        out matches Some((best, partition)) ==> is_chosen(
            windows@,
            places@,
            count,
            best as int,
            partition,
        ),
{
    let mut parts: Vec<ChainPartition> = Vec::new();
    let mut scores: Vec<PartitionScore> = Vec::new();
    let mut i: usize = 0;
    while i < windows.len()
        invariant
            i <= windows.len(),
            places@.len() == windows@.len(),
            i > 0 ==> count >= 2,
            parts@.len() == i,
            scores@.len() == i,
            forall|k: int| 0 <= k < i ==> is_classified(places@[k]@, count, #[trigger] parts@[k]),
            forall|k: int|
                0 <= k < i ==> is_score(
                    parts@[k],
                    clamped(windows@[k].observations),
                    #[trigger] scores@[k],
                ),
        decreases windows.len() - i,
    {
        match classify_faces(&places[i], count) {
            Some(partition) => {
                scores.push(partition_score(&partition, clamp(windows[i].observations)));
                parts.push(partition);
            },
            None => {
                return None;
            },
        }
        i = i + 1;
    }
    match best_score(&scores) {
        Some(best) => {
            let ghost all = parts@;
            let partition = parts.remove(best);
            assert(partition == all[best as int]);
            assert(is_choice(windows@, places@, count, all, scores@, best as int));
            assert(is_chosen(windows@, places@, count, best as int, partition));
            Some((best, partition))
        },
        None => None,
    }
}

/// A number of steps with its sign.
pub open spec fn steps_text(n: int) -> Seq<char> {
    if n < 0 {
        seq!['-'] + decimal((-n) as nat)
    } else {
        seq!['+'] + decimal(n as nat)
    }
}

/// A neighbour in words.
pub open spec fn label_text(label: NeighbourLabel) -> Seq<char> {
    match label {
        NeighbourLabel::Site(n) => "site:"@ + steps_text(n as int),
        NeighbourLabel::Gap(n) => "gap:"@ + steps_text(n as int),
        NeighbourLabel::Stretch => "stretch"@,
        NeighbourLabel::Fixed => "fixed"@,
        NeighbourLabel::Unknown => "unknown"@,
    }
}

/// Whether a neighbour is as near as two numbers can be.
spec fn is_near(label: NeighbourLabel) -> bool {
    match label {
        NeighbourLabel::Site(n) => -usize::MAX <= n <= usize::MAX,
        NeighbourLabel::Gap(n) => -usize::MAX <= n <= usize::MAX,
        _ => true,
    }
}

proof fn lemma_neighbours_are_near(links: Seq<EdgeLink>, part: FacePart, n: nat)
    requires
        n <= links.len(),
    ensures
        forall|i: int|
            0 <= i < neighbours(links, part, n).len() ==> is_near(
                #[trigger] neighbours(links, part, n)[i],
            ),
    decreases n,
{
    if n > 0 {
        lemma_neighbours_are_near(links, part, (n - 1) as nat);
        let before = neighbours(links, part, (n - 1) as nat);
        let link = links[n - 1];
        if let Some(own) = number_of(part) {
            assert(is_near(seen_from(own, link.first)));
            assert(is_near(seen_from(own, link.second)));
        }
        assert forall|i: int| 0 <= i < neighbours(links, part, n).len() implies is_near(
            #[trigger] neighbours(links, part, n)[i],
        ) by {
            if i < before.len() {
                assert(neighbours(links, part, n)[i] == before[i]);
            }
        }
    }
}

fn push_steps(out: &mut String, n: i128)
    requires
        -usize::MAX <= n <= usize::MAX,
    ensures
        final(out)@ == old(out)@ + steps_text(n as int),
{
    if n < 0 {
        out.push('-');
        push_decimal(out, (-n) as u64);
    } else {
        out.push('+');
        push_decimal(out, n as u64);
    }
    assert(out@ =~= old(out)@ + steps_text(n as int));
}

fn make_label(label: NeighbourLabel) -> (out: String)
    requires
        is_near(label),
    ensures
        out@ == label_text(label),
{
    match label {
        NeighbourLabel::Site(n) => {
            let mut out: String = String::new();
            out.append("site:");
            push_steps(&mut out, n);
            assert(out@ =~= label_text(label));
            out
        },
        NeighbourLabel::Gap(n) => {
            let mut out: String = String::new();
            out.append("gap:");
            push_steps(&mut out, n);
            assert(out@ =~= label_text(label));
            out
        },
        NeighbourLabel::Stretch => "stretch".to_string(),
        NeighbourLabel::Fixed => "fixed".to_string(),
        NeighbourLabel::Unknown => "unknown".to_string(),
    }
}

/// How often each of the first `n` neighbours occurs.
pub open spec fn neighbour_counts(seen: Seq<NeighbourLabel>, n: nat) -> Map<Seq<char>, usize>
    decreases n,
{
    if n == 0 {
        Map::empty()
    } else {
        counted(neighbour_counts(seen, (n - 1) as nat), label_text(seen[n - 1]), 1)
    }
}

/// The neighbours of a site or a gap by how often each occurs.
pub open spec fn adjacency(links: Seq<EdgeLink>, part: FacePart) -> Map<Seq<char>, usize> {
    let seen = neighbours(links, part, links.len());
    neighbour_counts(seen, seen.len())
}

/// Entries as a table of counts.
pub open spec fn table_of(entries: Vec<(String, usize)>) -> Map<Seq<char>, usize> {
    TypeCounts { entries }@
}

fn find_adjacency(links: &Vec<EdgeLink>, part: FacePart) -> (out: Vec<(String, usize)>)
    ensures
        table_of(out) == adjacency(links@, part),
{
    let seen = find_neighbours(links, part);
    proof {
        lemma_neighbours_are_near(links@, part, links@.len());
    }
    let mut counts = TypeCounts::new();
    let mut i: usize = 0;
    while i < seen.len()
        invariant
            i <= seen.len(),
            counts.wf(),
            counts@ == neighbour_counts(seen@, i as nat),
            forall|k: int| 0 <= k < seen@.len() ==> is_near(#[trigger] seen@[k]),
        decreases seen.len() - i,
    {
        counts.count(make_label(seen[i]), 1);
        i = i + 1;
    }
    counts.entries
}

/// The name of a part.
pub open spec fn part_name(part: FacePart) -> Seq<char> {
    match part {
        FacePart::Site(_) => "site"@,
        FacePart::Gap(_) => "gap"@,
        FacePart::Stretch => "stretch"@,
        FacePart::Fixed => "fixed"@,
        FacePart::Unknown => "unknown"@,
    }
}

/// The place of the name of a part among the names in alphabetical order.
pub open spec fn part_rank(part: FacePart) -> int {
    match part {
        FacePart::Fixed => 0,
        FacePart::Gap(_) => 1,
        FacePart::Site(_) => 2,
        FacePart::Stretch => 3,
        FacePart::Unknown => 4,
    }
}

/// What an edge joins, in words: the names of the two parts in alphabetical order.
pub open spec fn link_text(link: EdgeLink) -> Seq<char> {
    if part_rank(link.second) < part_rank(link.first) {
        part_name(link.second) + seq!['|'] + part_name(link.first)
    } else {
        part_name(link.first) + seq!['|'] + part_name(link.second)
    }
}

fn name_part(part: FacePart) -> (out: &'static str)
    ensures
        out@ == part_name(part),
{
    match part {
        FacePart::Site(_) => "site",
        FacePart::Gap(_) => "gap",
        FacePart::Stretch => "stretch",
        FacePart::Fixed => "fixed",
        FacePart::Unknown => "unknown",
    }
}

fn rank_part(part: FacePart) -> (out: u8)
    ensures
        out == part_rank(part),
{
    match part {
        FacePart::Fixed => 0,
        FacePart::Gap(_) => 1,
        FacePart::Site(_) => 2,
        FacePart::Stretch => 3,
        FacePart::Unknown => 4,
    }
}

fn make_link_text(link: EdgeLink) -> (out: String)
    ensures
        out@ == link_text(link),
{
    let mut out: String = String::new();
    if rank_part(link.second) < rank_part(link.first) {
        out.append(name_part(link.second));
        out.push('|');
        out.append(name_part(link.first));
    } else {
        out.append(name_part(link.first));
        out.push('|');
        out.append(name_part(link.second));
    }
    assert(out@ =~= link_text(link));
    out
}

/// How often each of the first `n` edges occurs, by what it joins.
pub open spec fn link_counts(links: Seq<EdgeLink>, n: nat) -> Map<Seq<char>, usize>
    decreases n,
{
    if n == 0 {
        Map::empty()
    } else {
        counted(link_counts(links, (n - 1) as nat), link_text(links[n - 1]), 1)
    }
}

fn count_links(links: &Vec<EdgeLink>) -> (out: TypeCounts)
    ensures
        out.wf(),
        out@ == link_counts(links@, links@.len()),
{
    let mut counts = TypeCounts::new();
    let mut i: usize = 0;
    while i < links.len()
        invariant
            i <= links.len(),
            counts.wf(),
            counts@ == link_counts(links@, i as nat),
        decreases links.len() - i,
    {
        counts.count(make_link_text(links[i]), 1);
        i = i + 1;
    }
    counts
}

/// What is known of a solid before its chain is described.
#[derive(Debug)]
pub struct ChainFrame {
    pub solid_id: u64,
    pub total_faces: usize,
    pub unmeasured: usize,
    /// The measured faces.
    pub faces: Vec<FaceEdges>,
    pub candidate: LatticeCandidate,
    /// The bit pattern of the distance between sites.
    pub pitch: u64,
}

/// The axis with a number, as the bit patterns of doubles.
pub open spec fn axis_with(axis: usize) -> [u64; 3] {
    if axis == 0 {
        [ONE_BITS, 0, 0]
    } else if axis == 1 {
        [0, ONE_BITS, 0]
    } else {
        [0, 0, ONE_BITS]
    }
}

/// The verdict that a chain holds.
pub open spec fn verdict_of(chain: PeriodicChainPattern) -> ChainVerdict {
    ChainVerdict {
        nonmanifold_edges: chain.nonmanifold_edges,
        cross_site_edges: chain.cross_site_edges,
        interior_site_face_count: chain.interior_site_face_count,
        interior_gap_face_count: chain.interior_gap_face_count,
        complete_partition: chain.complete_partition,
        read_only_proven: chain.read_only_proven,
    }
}

/// What the edges of faces join.
pub open spec fn all_links(partition: ChainPartition, faces: Seq<FaceEdges>) -> Seq<EdgeLink> {
    let edges = sorted_of(every_edge(faces));
    links(partition, faces, edges, edges.len())
}

/// Whether a chain is described by a partition of the faces of a solid.
pub open spec fn is_described(
    frame: ChainFrame,
    partition: ChainPartition,
    centers: Seq<u64>,
    chain: PeriodicChainPattern,
) -> bool {
    let joins = all_links(partition, frame.faces@);
    &&& chain.solid_id == frame.solid_id
    &&& chain.axis == axis_with(frame.candidate.axis_index)
    &&& chain.pitch == frame.pitch
    &&& chain.sites == frame.candidate.sites
    &&& chain.site_centers@ == centers
    &&& chain.lattice_face_family_votes == frame.candidate.votes
    &&& chain.faces_without_geometry == frame.unmeasured
    &&& is_verdict(
        partition,
        frame.faces@,
        frame.candidate.votes,
        frame.total_faces,
        frame.unmeasured,
        verdict_of(chain),
    )
    &&& chain.site_face_counts@ == sizes(partition.sites@)
    &&& chain.gap_face_counts@ == sizes(partition.gaps@)
    &&& chain.site_face_ids == partition.sites
    &&& chain.gap_face_ids == partition.gaps
    &&& chain.stretch_face_ids == partition.stretch
    &&& chain.fixed_negative_face_ids == partition.negative
    &&& chain.fixed_middle_face_ids == partition.middle
    &&& chain.fixed_positive_face_ids == partition.positive
    &&& chain.site_adjacency@.len() == partition.sites@.len()
    &&& forall|i: int|
        0 <= i < partition.sites@.len() ==> table_of(#[trigger] chain.site_adjacency@[i])
            == adjacency(joins, FacePart::Site(i as usize))
    &&& chain.gap_adjacency@.len() == partition.gaps@.len()
    &&& forall|i: int|
        0 <= i < partition.gaps@.len() ==> table_of(#[trigger] chain.gap_adjacency@[i])
            == adjacency(joins, FacePart::Gap(i as usize))
    &&& chain.total_faces == frame.total_faces
    &&& chain.edge_category_counts@ == link_counts(joins, joins.len())
}

/// Describes the chain that a partition of the faces of a solid makes.
pub fn build_pattern(frame: ChainFrame, partition: ChainPartition, centers: Vec<u64>) -> (found:
    PeriodicChainPattern)
    requires
        frame.candidate.axis_index < 3,
    ensures
        is_described(frame, partition, centers@, found),
        found.edge_category_counts.wf(),
{
    let verdict = judge_chain(
        &partition,
        &frame.faces,
        frame.candidate.votes,
        frame.total_faces,
        frame.unmeasured,
    );
    let joins = find_links(&partition, &frame.faces);
    let edge_category_counts = count_links(&joins);
    let mut site_adjacency: Vec<Vec<(String, usize)>> = Vec::new();
    let mut i: usize = 0;
    while i < partition.sites.len()
        invariant
            i <= partition.sites.len(),
            site_adjacency@.len() == i,
            forall|k: int|
                0 <= k < i ==> table_of(#[trigger] site_adjacency@[k]) == adjacency(
                    joins@,
                    FacePart::Site(k as usize),
                ),
        decreases partition.sites.len() - i,
    {
        site_adjacency.push(find_adjacency(&joins, FacePart::Site(i)));
        i = i + 1;
    }
    let mut gap_adjacency: Vec<Vec<(String, usize)>> = Vec::new();
    let mut j: usize = 0;
    while j < partition.gaps.len()
        invariant
            j <= partition.gaps.len(),
            gap_adjacency@.len() == j,
            forall|k: int|
                0 <= k < j ==> table_of(#[trigger] gap_adjacency@[k]) == adjacency(
                    joins@,
                    FacePart::Gap(k as usize),
                ),
        decreases partition.gaps.len() - j,
    {
        gap_adjacency.push(find_adjacency(&joins, FacePart::Gap(j)));
        j = j + 1;
    }
    let axis: [u64; 3] = match frame.candidate.axis_index {
        0 => [ONE_BITS, 0, 0],
        1 => [0, ONE_BITS, 0],
        _ => [0, 0, ONE_BITS],
    };
    let site_face_counts = sizes_of(&partition.sites);
    let gap_face_counts = sizes_of(&partition.gaps);
    let chain = PeriodicChainPattern {
        solid_id: frame.solid_id,
        axis,
        pitch: frame.pitch,
        sites: frame.candidate.sites,
        site_centers: centers,
        lattice_face_family_votes: frame.candidate.votes,
        complete_partition: verdict.complete_partition,
        read_only_proven: verdict.read_only_proven,
        faces_without_geometry: frame.unmeasured,
        nonmanifold_edges: verdict.nonmanifold_edges,
        cross_site_edges: verdict.cross_site_edges,
        site_face_counts,
        interior_site_face_count: verdict.interior_site_face_count,
        gap_face_counts,
        interior_gap_face_count: verdict.interior_gap_face_count,
        site_face_ids: partition.sites,
        gap_face_ids: partition.gaps,
        stretch_face_ids: partition.stretch,
        fixed_negative_face_ids: partition.negative,
        fixed_middle_face_ids: partition.middle,
        fixed_positive_face_ids: partition.positive,
        total_faces: frame.total_faces,
        edge_category_counts,
        site_adjacency,
        gap_adjacency,
    };
    assert(verdict_of(chain) == verdict);
    chain
}

/// How many faces of a chain repeat, as far as they can be counted.
pub open spec fn repeated_faces(found: PeriodicChainPattern) -> int {
    capped(total_size(found.site_face_ids@) + total_size(found.gap_face_ids@)) as int
}

/// How many faces there are to repeat, at least one.
pub open spec fn all_faces(found: PeriodicChainPattern) -> int {
    if found.total_faces == 0 {
        1
    } else {
        found.total_faces as int
    }
}

/// The share of the faces of one chain that repeat over that of another one: which is larger.
pub open spec fn share(a: PeriodicChainPattern, b: PeriodicChainPattern) -> int {
    repeated_faces(a) * all_faces(b)
}

/// Whether a chain is listed before another one: what is proven comes first, then what repeats
/// more of its solid, then what has more sites, then what comes earlier in the file.
pub open spec fn comes_first(a: PeriodicChainPattern, b: PeriodicChainPattern) -> bool {
    if a.read_only_proven != b.read_only_proven {
        a.read_only_proven
    } else if share(a, b) != share(b, a) {
        share(a, b) > share(b, a)
    } else if a.sites != b.sites {
        a.sites > b.sites
    } else {
        a.solid_id < b.solid_id
    }
}

fn find_repeated(found: &PeriodicChainPattern) -> (out: usize)
    ensures
        out == repeated_faces(*found),
{
    assert(found.site_face_ids.len() <= usize::MAX);
    assert(found.gap_face_ids.len() <= usize::MAX);
    let a: u128 = find_total_size(&found.site_face_ids);
    let b: u128 = find_total_size(&found.gap_face_ids);
    let most: u128 = usize::MAX as u128;
    if a > most || b > most || a + b > most {
        usize::MAX
    } else {
        (a + b) as usize
    }
}

fn find_share(repeated: usize, total: usize) -> (out: u128)
    ensures
        out == repeated * total,
{
    assert(repeated * total <= 0xFFFF_FFFF_FFFF_FFFF * 0xFFFF_FFFF_FFFF_FFFF)
        by (nonlinear_arith)
        requires
            repeated <= 0xFFFF_FFFF_FFFF_FFFF,
            total <= 0xFFFF_FFFF_FFFF_FFFF,
    ;
    repeated as u128 * total as u128
}

fn is_first(a: &PeriodicChainPattern, b: &PeriodicChainPattern) -> (out: bool)
    ensures
        out == comes_first(*a, *b),
{
    if a.read_only_proven != b.read_only_proven {
        return a.read_only_proven;
    }
    let total_a: usize = if a.total_faces == 0 {
        1
    } else {
        a.total_faces
    };
    let total_b: usize = if b.total_faces == 0 {
        1
    } else {
        b.total_faces
    };
    let share_a: u128 = find_share(find_repeated(a), total_b);
    let share_b: u128 = find_share(find_repeated(b), total_a);
    if share_a != share_b {
        share_a > share_b
    } else if a.sites != b.sites {
        a.sites > b.sites
    } else {
        a.solid_id < b.solid_id
    }
}

/// What was measured of a solid along its lattice: which faces are no longer than the distance
/// between sites, the bit pattern of that distance, and for each window where the chain may lie
/// the places of the faces and the bit patterns of the places of the sites.
#[derive(Debug)]
pub struct ChainEvidence {
    pub narrow: HashMap<u64, bool>,
    pub pitch: u64,
    pub places: Vec<Vec<FacePlace>>,
    pub centers: Vec<Vec<u64>>,
}

/// Whether places are those of some faces, in order.
pub open spec fn are_places_of(places: Seq<FacePlace>, faces: Seq<FaceEdges>) -> bool {
    &&& places.len() == faces.len()
    &&& forall|i: int| 0 <= i < faces.len() ==> (#[trigger] places[i]).face == faces[i].face
}

/// Whether the faces were measured at each of some windows.
pub open spec fn covers(
    evidence: ChainEvidence,
    faces: Seq<FaceEdges>,
    windows: Seq<Window>,
) -> bool {
    &&& evidence.places@.len() == windows.len()
    &&& evidence.centers@.len() == windows.len()
    &&& forall|w: int|
        0 <= w < windows.len() ==> are_places_of((#[trigger] evidence.places@[w])@, faces)
}

fn find_places_of(places: &Vec<FacePlace>, faces: &Vec<FaceEdges>) -> (out: bool)
    ensures
        out == are_places_of(places@, faces@),
{
    if places.len() != faces.len() {
        return false;
    }
    let mut i: usize = 0;
    while i < faces.len()
        invariant
            i <= faces.len(),
            places.len() == faces.len(),
            forall|k: int| 0 <= k < i ==> (#[trigger] places@[k]).face == faces@[k].face,
        decreases faces.len() - i,
    {
        if places[i].face != faces[i].face {
            assert(places@[i as int].face != faces@[i as int].face);
            return false;
        }
        i = i + 1;
    }
    true
}

fn find_covers(evidence: &ChainEvidence, faces: &Vec<FaceEdges>, windows: &Vec<Window>) -> (out:
    bool)
    ensures
        out == covers(*evidence, faces@, windows@),
{
    if evidence.places.len() != windows.len() || evidence.centers.len() != windows.len() {
        return false;
    }
    let mut w: usize = 0;
    while w < windows.len()
        invariant
            w <= windows.len(),
            evidence.places@.len() == windows@.len(),
            forall|k: int|
                0 <= k < w ==> are_places_of((#[trigger] evidence.places@[k])@, faces@),
        decreases windows.len() - w,
    {
        if !find_places_of(&evidence.places[w], faces) {
            assert(!are_places_of(evidence.places@[w as int]@, faces@));
            return false;
        }
        w = w + 1;
    }
    true
}

/// Whether the faces of a solid follow a lattice, and a chain can lie at some windows.
pub open spec fn is_laid_out(
    entities: Seq<EntityView>,
    forms: Map<u64, FaceForm>,
    solid: u64,
    evidence: ChainEvidence,
    found: SolidFaces,
    candidate: LatticeCandidate,
    windows: Seq<Window>,
) -> bool {
    &&& are_faces_of(entities, forms, solid, found)
    &&& exists|rows: Seq<FaceRow>| #[trigger]
        are_rows(found.faces@, forms, rows) && is_candidate(
            found.total,
            found.faces@.len() as usize,
            rows,
            Some(candidate),
        )
    &&& are_windows(
        seen_places(
            found.faces@,
            forms,
            evidence.narrow@,
            candidate.axis_index,
            found.faces@.len(),
        ),
        candidate.pitch_ticks,
        candidate.sites,
        windows,
    )
}

/// Whether the faces of a solid follow no lattice.
pub open spec fn has_no_lattice(
    entities: Seq<EntityView>,
    forms: Map<u64, FaceForm>,
    solid: u64,
) -> bool {
    exists|found: SolidFaces, rows: Seq<FaceRow>|
        #![trigger are_faces_of(entities, forms, solid, found), are_rows(found.faces@, forms, rows)]
        are_faces_of(entities, forms, solid, found) && are_rows(found.faces@, forms, rows)
            && is_candidate(found.total, found.faces@.len() as usize, rows, None)
}

/// Whether a solid holds no chain: it has no closed shell, its faces follow no lattice, no chain
/// can lie anywhere, or the windows where it can were not measured.
#[verifier::opaque]
pub open spec fn has_no_chain(
    entities: Seq<EntityView>,
    forms: Map<u64, FaceForm>,
    solid: u64,
    evidence: ChainEvidence,
) -> bool {
    ||| closed_faces(entities, solid) is None
    ||| has_no_lattice(entities, forms, solid)
    ||| exists|found: SolidFaces, candidate: LatticeCandidate, windows: Seq<Window>| #[trigger]
        is_laid_out(entities, forms, solid, evidence, found, candidate, windows) && (windows.len()
            == 0 || !covers(evidence, found.faces@, windows))
}

/// Whether a frame is that of a solid.
pub open spec fn is_frame_of(
    frame: ChainFrame,
    solid: u64,
    evidence: ChainEvidence,
    found: SolidFaces,
    candidate: LatticeCandidate,
) -> bool {
    &&& frame.solid_id == solid
    &&& frame.total_faces == found.total
    &&& frame.unmeasured == (if found.total >= found.faces@.len() {
        found.total - found.faces@.len()
    } else {
        0
    })
    &&& frame.faces == found.faces
    &&& frame.candidate == candidate
    &&& frame.pitch == evidence.pitch
}

/// Whether a chain is that of a solid: the best one at the windows where it can lie.
#[verifier::opaque]
pub open spec fn is_chain_of(
    entities: Seq<EntityView>,
    forms: Map<u64, FaceForm>,
    solid: u64,
    evidence: ChainEvidence,
    chain: PeriodicChainPattern,
) -> bool {
    exists|
        found: SolidFaces,
        candidate: LatticeCandidate,
        windows: Seq<Window>,
        frame: ChainFrame,
        best: int,
        partition: ChainPartition,
    |
        #![trigger is_laid_out(entities, forms, solid, evidence, found, candidate, windows),
            is_frame_of(frame, solid, evidence, found, candidate),
            is_chosen(windows, evidence.places@, candidate.sites, best, partition)]
        {
            &&& is_laid_out(entities, forms, solid, evidence, found, candidate, windows)
            &&& covers(evidence, found.faces@, windows)
            &&& is_frame_of(frame, solid, evidence, found, candidate)
            &&& is_chosen(windows, evidence.places@, candidate.sites, best, partition)
            &&& is_described(frame, partition, evidence.centers@[best]@, chain)
        }
}

/// Finds the chain of a solid.
pub fn find_chain(
    solid: u64,
    entities: &Vec<EntityInstance>,
    index: &HashMap<u64, usize>,
    forms: &HashMap<u64, FaceForm>,
    evidence: ChainEvidence,
) -> (out: Option<PeriodicChainPattern>)
    requires
        indexes(index@, entities_view(entities@)),
    ensures
        match out {
            Some(chain) => is_chain_of(
                entities_view(entities@),
                forms@,
                solid,
                evidence,
                chain,
            ),
            None => has_no_chain(entities_view(entities@), forms@, solid, evidence),
        },
{
    let ghost views = entities_view(entities@);
    proof {
        reveal(is_chain_of);
        reveal(has_no_chain);
    }
    let found = match read_faces(solid, entities, index, forms) {
        Some(found) => found,
        None => {
            return None;
        },
    };
    let ghost whole = found;
    let ghost ids = sorted_of(closed_faces(views, solid)->Some_0);
    let ghost wanted = measured_among(views, forms@, ids, ids.len());
    assert forall|i: int| 0 <= i < found.faces@.len() implies forms@.contains_key(
        (#[trigger] found.faces@[i]).face,
    ) by {
        assert(found.faces@[i].face == wanted[i]);
    }
    let rows = face_rows(&found.faces, forms);
    let candidate = match find_candidate(found.total, found.faces.len(), &rows) {
        Some(candidate) => candidate,
        None => {
            assert(are_rows(found.faces@, forms@, rows@));
            assert(has_no_lattice(views, forms@, solid));
            return None;
        },
    };
    let windows = chain_windows(&found.faces, forms, &evidence.narrow, &candidate);
    assert(is_laid_out(views, forms@, solid, evidence, found, candidate, windows@));
    if windows.len() == 0 || !find_covers(&evidence, &found.faces, &windows) {
        return None;
    }
    match choose_partition(&windows, &evidence.places, candidate.sites) {
        Some((best, partition)) => {
            let ghost chosen = partition;
            let ghost measured = evidence;
            let unmeasured: usize = if found.total >= found.faces.len() {
                found.total - found.faces.len()
            } else {
                0
            };
            let frame = ChainFrame {
                solid_id: solid,
                total_faces: found.total,
                unmeasured,
                faces: found.faces,
                candidate,
                pitch: evidence.pitch,
            };
            let ghost given = frame;
            assert(is_frame_of(given, solid, measured, whole, candidate));
            let mut centers = evidence.centers;
            let at = centers.remove(best);
            let chain = build_pattern(frame, partition, at);
            assert(is_described(given, chosen, measured.centers@[best as int]@, chain));
            assert(is_chosen(
                windows@,
                measured.places@,
                candidate.sites,
                best as int,
                chosen,
            ));
            Some(chain)
        },
        None => {
            assert(false);
            None
        },
    }
}

/// Whether chains are those of some solids, each once. `from` says whose they are.
pub open spec fn are_chains_of(
    entities: Seq<EntityView>,
    forms: Map<u64, FaceForm>,
    solids: Seq<u64>,
    evidence: Seq<ChainEvidence>,
    n: int,
    out: Seq<PeriodicChainPattern>,
    from: Seq<int>,
) -> bool {
    &&& from.len() == out.len()
    &&& from.no_duplicates()
    &&& forall|i: int|
        0 <= i < out.len() ==> 0 <= #[trigger] from[i] < n && is_chain_of(
            entities,
            forms,
            solids[from[i]],
            evidence[from[i]],
            out[i],
        )
    &&& forall|k: int|
        0 <= k < n && !#[trigger] from.contains(k) ==> has_no_chain(
            entities,
            forms,
            solids[k],
            evidence[k],
        )
}

/// Whether no chain is listed before one that comes first.
pub open spec fn are_ordered(list: Seq<PeriodicChainPattern>) -> bool {
    forall|i: int| 0 < i < list.len() ==> !comes_first(#[trigger] list[i], list[i - 1])
}

/// Whether chains are those of the solids of a section, in order.
pub open spec fn are_detected(
    entities: Seq<EntityView>,
    forms: Map<u64, FaceForm>,
    evidence: Seq<ChainEvidence>,
    out: Seq<PeriodicChainPattern>,
) -> bool {
    &&& are_ordered(out)
    &&& exists|from: Seq<int>| #[trigger]
        are_chains_of(
            entities,
            forms,
            solids_of(entities, entities.len()),
            evidence,
            evidence.len() as int,
            out,
            from,
        )
}

/// Puts a chain into an ordered list.
fn put_chain(list: &mut Vec<PeriodicChainPattern>, found: PeriodicChainPattern) -> (at: usize)
    requires
        are_ordered(old(list)@),
    ensures
        at <= old(list)@.len(),
        final(list)@ == old(list)@.insert(at as int, found),
        are_ordered(final(list)@),
{
    let ghost before = list@;
    let mut at: usize = 0;
    while at < list.len() && !is_first(&found, &list[at])
        invariant
            at <= list.len(),
            list@ == before,
            at > 0 ==> !comes_first(found, before[at - 1]),
        decreases list.len() - at,
    {
        at = at + 1;
    }
    list.insert(at, found);
    assert forall|i: int| 0 < i < list@.len() implies !comes_first(
        #[trigger] list@[i],
        list@[i - 1],
    ) by {
        if i < at {
            assert(list@[i] == before[i] && list@[i - 1] == before[i - 1]);
        } else if i > at + 1 {
            assert(list@[i] == before[i - 1] && list@[i - 1] == before[i - 2]);
        } else if i == at + 1 {
            assert(comes_first(found, before[at as int]));
        }
    }
    at
}

/// With the chain of the next solid, the chains are those of one more solid.
proof fn lemma_one_more_chain(
    entities: Seq<EntityView>,
    forms: Map<u64, FaceForm>,
    solids: Seq<u64>,
    evidence: Seq<ChainEvidence>,
    n: int,
    before: Seq<PeriodicChainPattern>,
    whose: Seq<int>,
    found: PeriodicChainPattern,
    at: int,
)
    requires
        are_chains_of(entities, forms, solids, evidence, n, before, whose),
        0 <= at <= before.len(),
        0 <= n,
        is_chain_of(entities, forms, solids[n], evidence[n], found),
    ensures
        are_chains_of(
            entities,
            forms,
            solids,
            evidence,
            n + 1,
            before.insert(at, found),
            whose.insert(at, n),
        ),
{
    let from = whose.insert(at, n);
    let out = before.insert(at, found);
    assert forall|i: int, j: int| 0 <= i < from.len() && 0 <= j < from.len() && i != j implies from[i]
        != from[j] by {
        let a = if i < at { i } else { i - 1 };
        let b = if j < at { j } else { j - 1 };
        if i != at {
            assert(from[i] == whose[a]);
        }
        if j != at {
            assert(from[j] == whose[b]);
        }
    }
    assert forall|i: int| 0 <= i < out.len() implies 0 <= #[trigger] from[i] < n + 1
        && is_chain_of(entities, forms, solids[from[i]], evidence[from[i]], out[i]) by {
        if i < at {
            assert(from[i] == whose[i] && out[i] == before[i]);
        } else if i > at {
            assert(from[i] == whose[i - 1] && out[i] == before[i - 1]);
        }
    }
    assert forall|k: int| 0 <= k < n + 1 && !#[trigger] from.contains(k) implies has_no_chain(
        entities,
        forms,
        solids[k],
        evidence[k],
    ) by {
        if k == n {
            assert(from[at] == n);
        } else if whose.contains(k) {
            let i = choose|i: int| 0 <= i < whose.len() && whose[i] == k;
            assert(from[if i < at { i } else { i + 1 }] == k);
        }
    }
}

/// Finds the chains of the solids of a section, those that come first at the front. What was
/// measured is given for each solid in the order of the file; where it is given for more or for
/// fewer, nothing is found out.
pub fn detect_periodic_chains(
    entities: &Vec<EntityInstance>,
    forms: &HashMap<u64, FaceForm>,
    evidence: Vec<ChainEvidence>,
) -> (out: Option<Vec<PeriodicChainPattern>>)
    ensures
        out is Some == (evidence@.len() == solids_of(
            entities_view(entities@),
            entities@.len(),
        ).len()),
        out matches Some(chains) ==> are_detected(
            entities_view(entities@),
            forms@,
            evidence@,
            chains@,
        ),
{
    let ghost views = entities_view(entities@);
    let ghost all = evidence@;
    let index = build_index(entities);
    let solids = find_solids(entities);
    if evidence.len() != solids.len() {
        return None;
    }
    let mut rest = evidence;
    let mut out: Vec<PeriodicChainPattern> = Vec::new();
    let ghost mut from: Seq<int> = Seq::empty();
    let mut n: usize = 0;
    while n < solids.len()
        invariant
            n <= solids.len(),
            all.len() == solids@.len(),
            views == entities_view(entities@),
            indexes(index@, views),
            rest@ == all.skip(n as int),
            are_ordered(out@),
            are_chains_of(views, forms@, solids@, all, n as int, out@, from),
        decreases solids.len() - n,
    {
        let measured = rest.remove(0);
        assert(measured == all[n as int]);
        assert(rest@ =~= all.skip(n + 1));
        match find_chain(solids[n], entities, &index, forms, measured) {
            Some(found) => {
                let ghost before = out@;
                let ghost whose = from;
                let at = put_chain(&mut out, found);
                proof {
                    lemma_one_more_chain(
                        views,
                        forms@,
                        solids@,
                        all,
                        n as int,
                        before,
                        whose,
                        found,
                        at as int,
                    );
                    from = whose.insert(at as int, n as int);
                }
            },
            None => {},
        }
        n = n + 1;
    }
    assert(views.len() == entities@.len());
    assert(are_chains_of(views, forms@, solids@, all, all.len() as int, out@, from));
    Some(out)
}

/// The order of chains has no circles of two.
pub proof fn law_order_is_strict(a: PeriodicChainPattern, b: PeriodicChainPattern)
    ensures
        !comes_first(a, a),
        comes_first(a, b) ==> !comes_first(b, a),
{
}

/// A chain that comes before one that comes before a third one comes before the third one.
pub proof fn law_order_is_transitive(a: PeriodicChainPattern, b: PeriodicChainPattern, c: PeriodicChainPattern)
    requires
        comes_first(a, b),
        comes_first(b, c),
    ensures
        comes_first(a, c),
{
    let (ra, rb, rc) = (repeated_faces(a), repeated_faces(b), repeated_faces(c));
    let (ta, tb, tc) = (all_faces(a), all_faces(b), all_faces(c));
    assert(ra * tb >= rb * ta && rb * tc >= rc * tb ==> ra * tc >= rc * ta) by (nonlinear_arith)
        requires
            ta > 0,
            tb > 0,
            tc > 0,
            ra >= 0,
            rb >= 0,
            rc >= 0,
    ;
    assert(ra * tb > rb * ta && rb * tc >= rc * tb ==> ra * tc > rc * ta) by (nonlinear_arith)
        requires
            ta > 0,
            tb > 0,
            tc > 0,
            ra >= 0,
            rb >= 0,
            rc >= 0,
    ;
    assert(ra * tb >= rb * ta && rb * tc > rc * tb ==> ra * tc > rc * ta) by (nonlinear_arith)
        requires
            ta > 0,
            tb > 0,
            tc > 0,
            ra >= 0,
            rb >= 0,
            rc >= 0,
    ;
    assert(ra * tb == rb * ta && rb * tc == rc * tb ==> ra * tc == rc * ta) by (nonlinear_arith)
        requires
            ta > 0,
            tb > 0,
            tc > 0,
            ra >= 0,
            rb >= 0,
            rc >= 0,
    ;
}

/// What does not come later than a chain that does not come later than a third one does not come
/// later than the third one.
proof fn lemma_not_later(a: PeriodicChainPattern, b: PeriodicChainPattern, c: PeriodicChainPattern)
    requires
        !comes_first(b, a),
        !comes_first(c, b),
    ensures
        !comes_first(c, a),
{
    let (ra, rb, rc) = (repeated_faces(a), repeated_faces(b), repeated_faces(c));
    let (ta, tb, tc) = (all_faces(a), all_faces(b), all_faces(c));
    assert(ra * tb >= rb * ta && rb * tc >= rc * tb ==> ra * tc >= rc * ta && (ra * tc == rc * ta
        ==> ra * tb == rb * ta && rb * tc == rc * tb)) by (nonlinear_arith)
        requires
            ta > 0,
            tb > 0,
            tc > 0,
            ra >= 0,
            rb >= 0,
            rc >= 0,
    ;
}

/// Of two chains in an ordered list, the later one does not come first.
pub proof fn law_listed_in_order(list: Seq<PeriodicChainPattern>, i: int, j: int)
    requires
        are_ordered(list),
        0 <= i < j < list.len(),
    ensures
        !comes_first(list[j], list[i]),
    decreases j - i,
{
    if i + 1 < j {
        law_listed_in_order(list, i, j - 1);
        lemma_not_later(list[i], list[j - 1], list[j]);
    }
}

} // verus!
