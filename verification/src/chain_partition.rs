//! The parts that the faces of a solid have in a chain.

use vstd::prelude::*;

use crate::body_detection::{put, put_item};
use crate::chain_pattern::{
    every_edge, faces_around, find_faces_around, find_list, list_with, ChainPartition, FaceEdges,
};
use crate::face_plan::listed;
use crate::instances::{insert_id, inserted};
use crate::sets::{list_contains, sorted_of};

verus! {

broadcast use vstd::std_specs::hash::group_hash_axioms;

/// On which side of the middle of a chain something lies.
#[derive(Debug, Clone, Copy, PartialEq, Eq, Structural)]
pub enum Side {
    Negative,
    Middle,
    Positive,
}

/// What was measured of a face along a chain: the sites that it lies within, whether it is
/// longer than the distance between sites, the gap between two sites that it lies in, a number
/// that it shares with faces of the same sort, and its side.
#[derive(Debug)]
pub struct FacePlace {
    pub face: u64,
    pub sites: Vec<usize>,
    pub wide: bool,
    pub gap: Option<usize>,
    pub sort: u64,
    pub side: Side,
}

/// The only site that a face lies within.
pub open spec fn own_site(place: FacePlace, count: usize) -> Option<usize> {
    if place.sites@.len() == 1 && place.sites@[0] < count {
        Some(place.sites@[0])
    } else {
        None
    }
}

/// Whether a face belongs to no site and is not stretched.
pub open spec fn is_left(place: FacePlace, count: usize) -> bool {
    own_site(place, count) is None && !place.wide
}

/// The faces among the first `n` that belong to a site, in order.
pub open spec fn faces_at(places: Seq<FacePlace>, count: usize, site: usize, n: nat) -> Seq<u64>
    decreases n,
{
    if n == 0 {
        Seq::empty()
    } else {
        let before = faces_at(places, count, site, (n - 1) as nat);
        if own_site(places[n - 1], count) == Some(site) {
            inserted(before, places[n - 1].face)
        } else {
            before
        }
    }
}

/// The faces among the first `n` that are stretched, in order.
pub open spec fn stretched(places: Seq<FacePlace>, count: usize, n: nat) -> Seq<u64>
    decreases n,
{
    if n == 0 {
        Seq::empty()
    } else {
        let before = stretched(places, count, (n - 1) as nat);
        if own_site(places[n - 1], count) is None && places[n - 1].wide {
            inserted(before, places[n - 1].face)
        } else {
            before
        }
    }
}

/// The faces among the first `n` that lie in a gap, each with its sort, in order.
pub open spec fn in_gap(places: Seq<FacePlace>, count: usize, gap: usize, n: nat) -> Seq<
    (u64, u64),
>
    decreases n,
{
    if n == 0 {
        Seq::empty()
    } else {
        let before = in_gap(places, count, gap, (n - 1) as nat);
        if is_left(places[n - 1], count) && places[n - 1].gap == Some(gap) {
            put(before, (places[n - 1].face, places[n - 1].sort))
        } else {
            before
        }
    }
}

/// The sorts of faces, in order.
pub open spec fn census(faces: Seq<(u64, u64)>, n: nat) -> Seq<u64>
    decreases n,
{
    if n == 0 {
        Seq::empty()
    } else {
        inserted(census(faces, (n - 1) as nat), faces[n - 1].1)
    }
}

/// The sorts of the faces in a gap.
pub open spec fn gap_census(places: Seq<FacePlace>, count: usize, gap: usize) -> Seq<u64> {
    let faces = in_gap(places, count, gap, places.len());
    census(faces, faces.len())
}

/// How many of the first `n` gaps hold faces of the same sorts as one of them.
pub open spec fn gaps_like(places: Seq<FacePlace>, count: usize, gap: usize, n: nat) -> nat
    decreases n,
{
    if n == 0 {
        0
    } else {
        gaps_like(places, count, gap, (n - 1) as nat) + if gap_census(
            places,
            count,
            (n - 1) as usize,
        ) == gap_census(places, count, gap) {
            1nat
        } else {
            0
        }
    }
}

/// Whether a gap is the first of those that most gaps are like.
pub open spec fn is_typical(places: Seq<FacePlace>, count: usize, gap: usize) -> bool {
    let gaps = (count - 1) as nat;
    &&& gap < gaps
    &&& forall|g: usize|
        g < gaps ==> #[trigger] gaps_like(places, count, g, gaps) <= gaps_like(
            places,
            count,
            gap,
            gaps,
        )
    &&& forall|g: usize|
        g < gap ==> #[trigger] gaps_like(places, count, g, gaps) < gaps_like(
            places,
            count,
            gap,
            gaps,
        )
}

/// How often a number occurs.
pub open spec fn times(values: Seq<u64>, value: u64) -> nat
    decreases values.len(),
{
    if values.len() == 0 {
        0
    } else {
        times(values.drop_last(), value) + if values.last() == value {
            1nat
        } else {
            0
        }
    }
}

pub open spec fn sorts_of(faces: Seq<(u64, u64)>) -> Seq<u64> {
    Seq::new(faces.len(), |i: int| faces[i].1)
}

/// The faces among the first `n` that a gap needs to hold as many of each sort as a typical one.
pub open spec fn needed(faces: Seq<(u64, u64)>, typical: Seq<u64>, n: nat) -> Seq<(u64, u64)>
    decreases n,
{
    if n == 0 {
        Seq::empty()
    } else {
        let before = needed(faces, typical, (n - 1) as nat);
        let sort = faces[n - 1].1;
        if times(sorts_of(before), sort) < times(typical, sort) {
            before.push(faces[n - 1])
        } else {
            before
        }
    }
}

/// The faces of a gap.
pub open spec fn gap_faces(
    places: Seq<FacePlace>,
    count: usize,
    typical: Seq<u64>,
    gap: usize,
) -> Seq<(u64, u64)> {
    let faces = in_gap(places, count, gap, places.len());
    needed(faces, typical, faces.len())
}

pub open spec fn first_parts(faces: Seq<(u64, u64)>) -> Seq<u64> {
    Seq::new(faces.len(), |i: int| faces[i].0)
}

/// Whether a face belongs to a gap.
pub open spec fn is_gap_face(
    places: Seq<FacePlace>,
    count: usize,
    typical: Seq<u64>,
    place: FacePlace,
) -> bool {
    place.gap matches Some(gap) && gap < count - 1 && first_parts(
        gap_faces(places, count, typical, gap),
    ).contains(place.face)
}

/// The faces among the first `n` that have no other part, on one side, in order.
pub open spec fn fixed(
    places: Seq<FacePlace>,
    count: usize,
    typical: Seq<u64>,
    side: Side,
    n: nat,
) -> Seq<u64>
    decreases n,
{
    if n == 0 {
        Seq::empty()
    } else {
        let before = fixed(places, count, typical, side, (n - 1) as nat);
        let place = places[n - 1];
        if is_left(place, count) && !is_gap_face(places, count, typical, place) && place.side
            == side {
            inserted(before, place.face)
        } else {
            before
        }
    }
}

/// Whether faces have the parts that their places give them. There are one gap fewer than
/// sites.
pub open spec fn is_partition(
    places: Seq<FacePlace>,
    count: usize,
    typical: Seq<u64>,
    partition: ChainPartition,
) -> bool {
    &&& partition.sites@.len() == count
    &&& forall|s: int|
        0 <= s < count ==> (#[trigger] partition.sites@[s])@ == faces_at(
            places,
            count,
            s as usize,
            places.len(),
        )
    &&& partition.gaps@.len() == count - 1
    &&& forall|g: int|
        0 <= g < count - 1 ==> (#[trigger] partition.gaps@[g])@ == first_parts(
            gap_faces(places, count, typical, g as usize),
        )
    &&& partition.stretch@ == stretched(places, count, places.len())
    &&& partition.negative@ == fixed(places, count, typical, Side::Negative, places.len())
    &&& partition.middle@ == fixed(places, count, typical, Side::Middle, places.len())
    &&& partition.positive@ == fixed(places, count, typical, Side::Positive, places.len())
}

fn find_own_site(place: &FacePlace, count: usize) -> (out: Option<usize>)
    ensures
        out == own_site(*place, count),
{
    if place.sites.len() == 1 && place.sites[0] < count {
        Some(place.sites[0])
    } else {
        None
    }
}

fn find_left(place: &FacePlace, count: usize) -> (out: bool)
    ensures
        out == is_left(*place, count),
{
    find_own_site(place, count).is_none() && !place.wide
}

fn find_faces_at(places: &Vec<FacePlace>, count: usize, site: usize) -> (out: Vec<u64>)
    ensures
        out@ == faces_at(places@, count, site, places@.len()),
{
    let mut out: Vec<u64> = Vec::new();
    let mut i: usize = 0;
    while i < places.len()
        invariant
            i <= places.len(),
            out@ == faces_at(places@, count, site, i as nat),
        decreases places.len() - i,
    {
        if let Some(own) = find_own_site(&places[i], count) {
            if own == site {
                insert_id(&mut out, places[i].face);
            }
        }
        i = i + 1;
    }
    out
}

fn find_stretched(places: &Vec<FacePlace>, count: usize) -> (out: Vec<u64>)
    ensures
        out@ == stretched(places@, count, places@.len()),
{
    let mut out: Vec<u64> = Vec::new();
    let mut i: usize = 0;
    while i < places.len()
        invariant
            i <= places.len(),
            out@ == stretched(places@, count, i as nat),
        decreases places.len() - i,
    {
        if find_own_site(&places[i], count).is_none() && places[i].wide {
            insert_id(&mut out, places[i].face);
        }
        i = i + 1;
    }
    out
}

fn find_in_gap(places: &Vec<FacePlace>, count: usize, gap: usize) -> (out: Vec<(u64, u64)>)
    ensures
        out@ == in_gap(places@, count, gap, places@.len()),
{
    let mut out: Vec<(u64, u64)> = Vec::new();
    let mut i: usize = 0;
    while i < places.len()
        invariant
            i <= places.len(),
            out@ == in_gap(places@, count, gap, i as nat),
        decreases places.len() - i,
    {
        if find_left(&places[i], count) {
            if let Some(own) = places[i].gap {
                if own == gap {
                    put_item(&mut out, (places[i].face, places[i].sort));
                }
            }
        }
        i = i + 1;
    }
    out
}

fn find_census(faces: &Vec<(u64, u64)>) -> (out: Vec<u64>)
    ensures
        out@ == census(faces@, faces@.len()),
{
    let mut out: Vec<u64> = Vec::new();
    let mut i: usize = 0;
    while i < faces.len()
        invariant
            i <= faces.len(),
            out@ == census(faces@, i as nat),
        decreases faces.len() - i,
    {
        insert_id(&mut out, faces[i].1);
        i = i + 1;
    }
    out
}

fn count_like(places: &Vec<FacePlace>, count: usize, all: &Vec<Vec<u64>>, gap: usize) -> (n: usize)
    requires
        all@.len() == count - 1,
        gap < all@.len(),
        forall|g: int|
            0 <= g < all@.len() ==> (#[trigger] all@[g])@ == gap_census(places@, count, g as usize),
    ensures
        n == gaps_like(places@, count, gap, (count - 1) as nat),
{
    let mut n: usize = 0;
    let mut g: usize = 0;
    while g < all.len()
        invariant
            g <= all.len(),
            n <= g,
            gap < all@.len(),
            forall|g: int|
                0 <= g < all@.len() ==> (#[trigger] all@[g])@ == gap_census(
                    places@,
                    count,
                    g as usize,
                ),
            n == gaps_like(places@, count, gap, g as nat),
        decreases all.len() - g,
    {
        if crate::face_plan::same_ids(&all[g], &all[gap]) {
            n = n + 1;
        }
        g = g + 1;
    }
    n
}

/// The first gap that most gaps are like.
fn find_typical(places: &Vec<FacePlace>, count: usize, all: &Vec<Vec<u64>>) -> (best: usize)
    requires
        all@.len() == count - 1,
        all@.len() > 0,
        forall|g: int|
            0 <= g < all@.len() ==> (#[trigger] all@[g])@ == gap_census(places@, count, g as usize),
    ensures
        is_typical(places@, count, best),
{
    let ghost gaps = (count - 1) as nat;
    let mut best: usize = 0;
    let mut most: usize = count_like(places, count, all, 0);
    let mut g: usize = 1;
    while g < all.len()
        invariant
            1 <= g <= all.len(),
            best < g,
            gaps == (count - 1) as nat,
            all@.len() == count - 1,
            forall|g: int|
                0 <= g < all@.len() ==> (#[trigger] all@[g])@ == gap_census(
                    places@,
                    count,
                    g as usize,
                ),
            most == gaps_like(places@, count, best, gaps),
            forall|k: usize| k < g ==> #[trigger] gaps_like(places@, count, k, gaps) <= most,
            forall|k: usize| k < best ==> #[trigger] gaps_like(places@, count, k, gaps) < most,
        decreases all.len() - g,
    {
        let like: usize = count_like(places, count, all, g);
        if like > most {
            most = like;
            best = g;
        }
        g = g + 1;
    }
    best
}

fn count_times(values: &Vec<u64>, value: u64) -> (n: usize)
    ensures
        n == times(values@, value),
{
    let mut n: usize = 0;
    let mut i: usize = 0;
    assert(values@.take(0) =~= Seq::empty());
    while i < values.len()
        invariant
            i <= values.len(),
            n <= i,
            n == times(values@.take(i as int), value),
        decreases values.len() - i,
    {
        assert(values@.take(i + 1).drop_last() =~= values@.take(i as int));
        if values[i] == value {
            n = n + 1;
        }
        i = i + 1;
    }
    assert(values@.take(values@.len() as int) =~= values@);
    n
}

/// The faces that a gap needs to be like a typical one.
fn find_needed(faces: &Vec<(u64, u64)>, typical: &Vec<u64>) -> (out: Vec<u64>)
    ensures
        out@ == first_parts(needed(faces@, typical@, faces@.len())),
{
    let mut out: Vec<u64> = Vec::new();
    let mut sorts: Vec<u64> = Vec::new();
    let mut i: usize = 0;
    assert(first_parts(needed(faces@, typical@, 0)) =~= Seq::empty());
    assert(sorts_of(needed(faces@, typical@, 0)) =~= Seq::empty());
    while i < faces.len()
        invariant
            i <= faces.len(),
            out@ == first_parts(needed(faces@, typical@, i as nat)),
            sorts@ == sorts_of(needed(faces@, typical@, i as nat)),
        decreases faces.len() - i,
    {
        let (face, sort): (u64, u64) = faces[i];
        let ghost before = needed(faces@, typical@, i as nat);
        if count_times(&sorts, sort) < count_times(typical, sort) {
            out.push(face);
            sorts.push(sort);
            assert(out@ =~= first_parts(before.push(faces@[i as int])));
            assert(sorts@ =~= sorts_of(before.push(faces@[i as int])));
        }
        i = i + 1;
    }
    out
}

fn find_fixed(
    places: &Vec<FacePlace>,
    count: usize,
    gaps: &Vec<Vec<u64>>,
    side: Side,
    Ghost(typical): Ghost<Seq<u64>>,
) -> (out: Vec<u64>)
    requires
        gaps@.len() == count - 1,
        forall|g: int|
            0 <= g < gaps@.len() ==> (#[trigger] gaps@[g])@ == first_parts(
                gap_faces(places@, count, typical, g as usize),
            ),
    ensures
        out@ == fixed(places@, count, typical, side, places@.len()),
{
    let mut out: Vec<u64> = Vec::new();
    let mut i: usize = 0;
    while i < places.len()
        invariant
            i <= places.len(),
            gaps@.len() == count - 1,
            forall|g: int|
                0 <= g < gaps@.len() ==> (#[trigger] gaps@[g])@ == first_parts(
                    gap_faces(places@, count, typical, g as usize),
                ),
            out@ == fixed(places@, count, typical, side, i as nat),
        decreases places.len() - i,
    {
        if find_left(&places[i], count) {
            let face: u64 = places[i].face;
            let taken = match places[i].gap {
                Some(gap) => gap < gaps.len() && list_contains(&gaps[gap], face),
                None => false,
            };
            assert(taken == is_gap_face(places@, count, typical, places@[i as int]));
            if !taken && places[i].side == side {
                insert_id(&mut out, face);
            }
        }
        i = i + 1;
    }
    out
}

/// Gives each face its part in a chain of as many sites. With fewer than two sites there is no
/// chain.
pub fn classify_faces(places: &Vec<FacePlace>, count: usize) -> (out: Option<ChainPartition>)
    ensures
        out is Some == (count >= 2),
        out matches Some(partition) ==> exists|typical: usize| #[trigger]
            is_typical(places@, count, typical) && is_partition(
                places@,
                count,
                gap_census(places@, count, typical),
                partition,
            ),
{
    if count < 2 {
        return None;
    }
    let mut sites: Vec<Vec<u64>> = Vec::new();
    let mut s: usize = 0;
    while s < count
        invariant
            s <= count,
            sites@.len() == s,
            forall|k: int|
                0 <= k < s ==> (#[trigger] sites@[k])@ == faces_at(
                    places@,
                    count,
                    k as usize,
                    places@.len(),
                ),
        decreases count - s,
    {
        let faces = find_faces_at(places, count, s);
        sites.push(faces);
        s = s + 1;
    }
    let mut all: Vec<Vec<u64>> = Vec::new();
    let mut g: usize = 0;
    while g < count - 1
        invariant
            count >= 2,
            g <= count - 1,
            all@.len() == g,
            forall|k: int|
                0 <= k < g ==> (#[trigger] all@[k])@ == gap_census(places@, count, k as usize),
        decreases count - 1 - g,
    {
        let faces = find_in_gap(places, count, g);
        let sorts = find_census(&faces);
        all.push(sorts);
        g = g + 1;
    }
    let typical: usize = find_typical(places, count, &all);
    let ghost sorts = gap_census(places@, count, typical);
    let mut gaps: Vec<Vec<u64>> = Vec::new();
    let mut g: usize = 0;
    while g < count - 1
        invariant
            count >= 2,
            g <= count - 1,
            gaps@.len() == g,
            typical < all@.len(),
            sorts == all@[typical as int]@,
            forall|k: int|
                0 <= k < g ==> (#[trigger] gaps@[k])@ == first_parts(
                    gap_faces(places@, count, sorts, k as usize),
                ),
        decreases count - 1 - g,
    {
        let faces = find_in_gap(places, count, g);
        let list = find_needed(&faces, &all[typical]);
        gaps.push(list);
        g = g + 1;
    }
    let stretch = find_stretched(places, count);
    let negative = find_fixed(places, count, &gaps, Side::Negative, Ghost(sorts));
    let middle = find_fixed(places, count, &gaps, Side::Middle, Ghost(sorts));
    let positive = find_fixed(places, count, &gaps, Side::Positive, Ghost(sorts));
    let partition = ChainPartition { sites, gaps, stretch, negative, middle, positive };
    assert(is_typical(places@, count, typical));
    Some(partition)
}

/// The part of a face in a chain.
#[derive(Debug, Clone, Copy, PartialEq, Eq, Structural)]
pub enum FacePart {
    Site(usize),
    Gap(usize),
    Stretch,
    Fixed,
    Unknown,
}

/// The part of a face in a chain.
pub open spec fn part_of(partition: ChainPartition, face: u64) -> FacePart {
    match list_with(partition.sites@, face) {
        Some(site) => FacePart::Site(site as usize),
        None => match list_with(partition.gaps@, face) {
            Some(gap) => FacePart::Gap(gap as usize),
            None => if partition.stretch@.contains(face) {
                FacePart::Stretch
            } else if partition.negative@.contains(face) || partition.middle@.contains(face)
                || partition.positive@.contains(face) {
                FacePart::Fixed
            } else {
                FacePart::Unknown
            },
        },
    }
}

/// The part of a face in a chain.
pub fn face_category(face: u64, partition: &ChainPartition) -> (out: FacePart)
    ensures
        out == part_of(*partition, face),
{
    if let Some(site) = find_list(&partition.sites, face) {
        return FacePart::Site(site);
    }
    if let Some(gap) = find_list(&partition.gaps, face) {
        return FacePart::Gap(gap);
    }
    if list_contains(&partition.stretch, face) {
        FacePart::Stretch
    } else if list_contains(&partition.negative, face) || list_contains(&partition.middle, face)
        || list_contains(&partition.positive, face) {
        FacePart::Fixed
    } else {
        FacePart::Unknown
    }
}

/// The parts of the two faces that an edge lies between.
#[derive(Debug, Clone, Copy, PartialEq, Eq, Structural)]
pub struct EdgeLink {
    pub first: FacePart,
    pub second: FacePart,
}

/// What those of the first `n` edges join that lie between two faces.
pub open spec fn links(
    partition: ChainPartition,
    faces: Seq<FaceEdges>,
    edges: Seq<u64>,
    n: nat,
) -> Seq<EdgeLink>
    decreases n,
{
    if n == 0 {
        Seq::empty()
    } else {
        let before = links(partition, faces, edges, (n - 1) as nat);
        let around = faces_around(faces, edges[n - 1]);
        if around.len() == 2 {
            before.push(
                EdgeLink {
                    first: part_of(partition, around[0]),
                    second: part_of(partition, around[1]),
                },
            )
        } else {
            before
        }
    }
}

/// What the edges of faces join.
pub fn find_links(partition: &ChainPartition, faces: &Vec<FaceEdges>) -> (out: Vec<EdgeLink>)
    ensures
        out@ == links(
            *partition,
            faces@,
            sorted_of(every_edge(faces@)),
            sorted_of(every_edge(faces@)).len(),
        ),
{
    let (table, edges) = find_faces_around(faces);
    let mut out: Vec<EdgeLink> = Vec::new();
    let mut i: usize = 0;
    while i < edges.len()
        invariant
            i <= edges.len(),
            forall|edge: u64| #[trigger] listed(table@, edge) == faces_around(faces@, edge),
            out@ == links(*partition, faces@, edges@, i as nat),
        decreases edges.len() - i,
    {
        assert(listed(table@, edges@[i as int]) == faces_around(faces@, edges@[i as int]));
        if let Some(around) = table.get(&edges[i]) {
            if around.len() == 2 {
                out.push(
                    EdgeLink {
                        first: face_category(around[0], partition),
                        second: face_category(around[1], partition),
                    },
                );
            }
        }
        i = i + 1;
    }
    out
}

/// A neighbour as it is seen from a site or a gap: another site or gap by how much farther
/// along it is, or a part of another kind.
#[derive(Debug, Clone, Copy, PartialEq, Eq, Structural)]
pub enum NeighbourLabel {
    Site(i128),
    Gap(i128),
    Stretch,
    Fixed,
    Unknown,
}

/// How a part is seen from a site or a gap with a number.
pub open spec fn seen_from(own: usize, other: FacePart) -> NeighbourLabel {
    match other {
        FacePart::Site(site) => NeighbourLabel::Site((site - own) as i128),
        FacePart::Gap(gap) => NeighbourLabel::Gap((gap - own) as i128),
        FacePart::Stretch => NeighbourLabel::Stretch,
        FacePart::Fixed => NeighbourLabel::Fixed,
        FacePart::Unknown => NeighbourLabel::Unknown,
    }
}

/// How a site or a gap sees another part.
pub fn neighbour_label(own: usize, other: FacePart) -> (out: NeighbourLabel)
    ensures
        out == seen_from(own, other),
{
    match other {
        FacePart::Site(site) => NeighbourLabel::Site(site as i128 - own as i128),
        FacePart::Gap(gap) => NeighbourLabel::Gap(gap as i128 - own as i128),
        FacePart::Stretch => NeighbourLabel::Stretch,
        FacePart::Fixed => NeighbourLabel::Fixed,
        FacePart::Unknown => NeighbourLabel::Unknown,
    }
}

pub open spec fn number_of(part: FacePart) -> Option<usize> {
    match part {
        FacePart::Site(site) => Some(site),
        FacePart::Gap(gap) => Some(gap),
        _ => None,
    }
}

/// How a site or a gap sees its neighbours across the first `n` edges. Each edge counts from
/// both of its sides.
pub open spec fn neighbours(links: Seq<EdgeLink>, part: FacePart, n: nat) -> Seq<NeighbourLabel>
    decreases n,
{
    if n == 0 {
        Seq::empty()
    } else {
        let before = neighbours(links, part, (n - 1) as nat);
        let link = links[n - 1];
        match number_of(part) {
            None => before,
            Some(own) => {
                let once = if link.first == part {
                    before.push(seen_from(own, link.second))
                } else {
                    before
                };
                if link.second == part {
                    once.push(seen_from(own, link.first))
                } else {
                    once
                }
            },
        }
    }
}

/// How a site or a gap sees its neighbours.
pub fn find_neighbours(links: &Vec<EdgeLink>, part: FacePart) -> (out: Vec<NeighbourLabel>)
    ensures
        out@ == neighbours(links@, part, links@.len()),
{
    let own: Option<usize> = match part {
        FacePart::Site(site) => Some(site),
        FacePart::Gap(gap) => Some(gap),
        _ => None,
    };
    let mut out: Vec<NeighbourLabel> = Vec::new();
    let mut i: usize = 0;
    while i < links.len()
        invariant
            i <= links.len(),
            own == number_of(part),
            out@ == neighbours(links@, part, i as nat),
        decreases links.len() - i,
    {
        if let Some(own) = own {
            if links[i].first == part {
                out.push(neighbour_label(own, links[i].second));
            }
            if links[i].second == part {
                out.push(neighbour_label(own, links[i].first));
            }
        }
        i = i + 1;
    }
    out
}

/// Faces on two sides of an edge see each other as far away, in opposite directions.
pub proof fn law_neighbours_are_opposite(a: usize, b: usize)
    ensures
        seen_from(a, FacePart::Site(b)) matches NeighbourLabel::Site(ahead) && seen_from(
            b,
            FacePart::Site(a),
        ) matches NeighbourLabel::Site(back) && ahead == -back,
        seen_from(a, FacePart::Gap(b)) matches NeighbourLabel::Gap(ahead) && seen_from(
            b,
            FacePart::Gap(a),
        ) matches NeighbourLabel::Gap(back) && ahead == -back,
{
}

} // verus!
