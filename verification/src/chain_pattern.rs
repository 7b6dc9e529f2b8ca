//! What makes a partition of faces a periodic chain.

use std::collections::HashMap;
use vstd::prelude::*;

use crate::face_coalesce::append_ids;
use crate::face_plan::listed;
use crate::graph::add_entry;
use crate::minify::capped;
use crate::periodic_chains::{mirror_difference, symmetric_abs_difference};
use crate::sets::{list_contains, sorted_of, sorted_set};

verus! {

broadcast use vstd::std_specs::hash::group_hash_axioms;

/// The fewest rows that must agree on a lattice.
pub const MIN_LATTICE_FAMILY_VOTES: usize = 4;

/// The fewest places of a row.
pub const MIN_FAMILY_INSTANCES: usize = 4;

/// How often a value occurs.
pub open spec fn occurrences(values: Seq<usize>, value: usize) -> nat
    decreases values.len(),
{
    if values.len() == 0 {
        0
    } else {
        occurrences(values.drop_last(), value) + if values.last() == value {
            1nat
        } else {
            0
        }
    }
}

/// Whether a value is the most frequent one, and the largest of those.
pub open spec fn is_mode(values: Seq<usize>, mode: usize) -> bool {
    &&& values.contains(mode)
    &&& forall|i: int|
        0 <= i < values.len() ==> occurrences(values, #[trigger] values[i]) < occurrences(
            values,
            mode,
        ) || (occurrences(values, values[i]) == occurrences(values, mode) && values[i] <= mode)
}

fn count_value(values: &Vec<usize>, value: usize) -> (n: usize)
    ensures
        n == occurrences(values@, value),
{
    let mut n: usize = 0;
    let mut i: usize = 0;
    assert(values@.take(0) =~= Seq::<usize>::empty());
    while i < values.len()
        invariant
            i <= values.len(),
            n <= i,
            n == occurrences(values@.take(i as int), value),
        decreases values.len() - i,
    {
        assert(values@.take(i + 1).drop_last() =~= values@.take(i as int));
        assert(values@.take(i + 1).last() == values@[i as int]);
        if values[i] == value {
            n = n + 1;
        }
        i = i + 1;
    }
    assert(values@.take(values@.len() as int) =~= values@);
    n
}

/// The most frequent value, the largest of several. Of no values there is none.
pub fn mode_value(values: &Vec<usize>) -> (out: Option<usize>)
    ensures
        out is None == (values@.len() == 0),
        out matches Some(mode) ==> is_mode(values@, mode),
{
    if values.len() == 0 {
        return None;
    }
    let mut mode: usize = values[0];
    let mut most: usize = count_value(values, mode);
    let mut i: usize = 1;
    assert(values@.contains(values@[0]));
    while i < values.len()
        invariant
            1 <= i <= values.len(),
            values@.contains(mode),
            most == occurrences(values@, mode),
            forall|k: int|
                0 <= k < i ==> occurrences(values@, #[trigger] values@[k]) < most || (occurrences(
                    values@,
                    values@[k],
                ) == most && values@[k] <= mode),
        decreases values.len() - i,
    {
        let value: usize = values[i];
        let n: usize = count_value(values, value);
        assert(values@.contains(values@[i as int]));
        if n > most || (n == most && value > mode) {
            mode = value;
            most = n;
        }
        i = i + 1;
    }
    Some(mode)
}

/// How often the most frequent value occurs.
pub fn mode_frequency(values: &Vec<usize>) -> (out: usize)
    ensures
        values@.len() == 0 ==> out == 0,
        forall|i: int| 0 <= i < values@.len() ==> occurrences(values@, #[trigger] values@[i]) <= out,
        values@.len() > 0 ==> exists|i: int|
            0 <= i < values@.len() && occurrences(values@, #[trigger] values@[i]) == out,
{
    match mode_value(values) {
        None => 0,
        Some(mode) => {
            let out: usize = count_value(values, mode);
            assert(exists|i: int|
                0 <= i < values@.len() && occurrences(values@, #[trigger] values@[i]) == out) by {
                let k = choose|k: int| 0 <= k < values@.len() && values@[k] == mode;
                assert(occurrences(values@, values@[k]) == out);
            }
            out
        },
    }
}

/// The two axes across one.
pub fn other_axes(axis: usize) -> (out: [usize; 2])
    ensures
        out@ == (if axis == 0 {
            seq![1usize, 2usize]
        } else if axis == 1 {
            seq![0usize, 2usize]
        } else {
            seq![0usize, 1usize]
        }),
{
    let out: [usize; 2] = if axis == 0 {
        [1, 2]
    } else if axis == 1 {
        [0, 2]
    } else {
        [0, 1]
    };
    assert(out@ =~= seq![out[0], out[1]]);
    out
}

/// Faces of one form in a row along an axis, by the places of their middles in ticks.
pub struct FaceRow {
    pub axis: usize,
    pub ticks: Vec<i64>,
}

/// The distance between neighbours in a row where it is the same everywhere.
pub open spec fn is_lattice(ticks: Seq<i64>, pitch: int) -> bool {
    &&& ticks.len() >= MIN_FAMILY_INSTANCES
    &&& pitch > 0
    &&& forall|i: int| 0 < i < ticks.len() ==> (#[trigger] ticks[i]) - ticks[i - 1] == pitch
}

/// The distance between neighbours in a row where it is the same everywhere.
pub fn row_pitch(ticks: &Vec<i64>) -> (out: Option<i64>)
    ensures
        out matches Some(pitch) ==> is_lattice(ticks@, pitch as int),
        out is None ==> forall|pitch: int|
            0 < pitch <= i64::MAX ==> !#[trigger] is_lattice(ticks@, pitch),
{
    if ticks.len() < MIN_FAMILY_INSTANCES {
        return None;
    }
    let pitch: i128 = ticks[1] as i128 - ticks[0] as i128;
    if pitch <= 0 || pitch > i64::MAX as i128 {
        assert forall|p: int| 0 < p <= i64::MAX implies !#[trigger] is_lattice(ticks@, p) by {
            assert(ticks@[1] - ticks@[0] == pitch);
            if is_lattice(ticks@, p) {
                assert(ticks@[1] - ticks@[1 - 1] == p);
            }
        }
        return None;
    }
    let mut i: usize = 1;
    while i < ticks.len()
        invariant
            1 <= i <= ticks.len(),
            ticks.len() >= 2,
            pitch == ticks@[1] - ticks@[0],
            forall|k: int| 0 < k < i ==> (#[trigger] ticks@[k]) - ticks@[k - 1] == pitch,
        decreases ticks.len() - i,
    {
        if ticks[i] as i128 - ticks[i - 1] as i128 != pitch {
            assert forall|p: int| 0 < p <= i64::MAX implies !#[trigger] is_lattice(ticks@, p) by {
                if is_lattice(ticks@, p) {
                    assert(ticks@[1] - ticks@[1 - 1] == p);
                    assert(ticks@[i as int] - ticks@[i - 1] == p);
                }
            }
            return None;
        }
        i = i + 1;
    }
    Some(pitch as i64)
}

/// A lattice that rows vote for.
#[derive(Debug, Clone, Copy, PartialEq, Eq, Structural)]
pub struct LatticeCandidate {
    pub axis_index: usize,
    pub pitch_ticks: i64,
    pub sites: usize,
    pub votes: usize,
}

/// Whether a row votes for a lattice.
pub open spec fn votes_for(row: FaceRow, axis: usize, pitch: i64, sites: usize) -> bool {
    row.axis == axis && row.ticks@.len() == sites && is_lattice(row.ticks@, pitch as int)
}

/// How many rows vote for a lattice.
pub open spec fn votes_of(rows: Seq<FaceRow>, axis: usize, pitch: i64, sites: usize) -> nat
    decreases rows.len(),
{
    if rows.len() == 0 {
        0
    } else {
        votes_of(rows.drop_last(), axis, pitch, sites) + if votes_for(
            rows.last(),
            axis,
            pitch,
            sites,
        ) {
            1nat
        } else {
            0
        }
    }
}

/// Whether a lattice comes before another: more votes, more sites, or a smaller distance.
pub open spec fn comes_before(
    votes: nat,
    sites: usize,
    pitch: i64,
    other: LatticeCandidate,
) -> bool {
    votes > other.votes || (votes == other.votes && (sites > other.sites || (sites == other.sites
        && pitch < other.pitch_ticks)))
}

fn count_votes(rows: &Vec<FaceRow>, axis: usize, pitch: i64, sites: usize) -> (n: usize)
    requires
        pitch > 0,
    ensures
        n == votes_of(rows@, axis, pitch, sites),
{
    let mut n: usize = 0;
    let mut i: usize = 0;
    assert(rows@.take(0) =~= Seq::<FaceRow>::empty());
    while i < rows.len()
        invariant
            i <= rows.len(),
            n <= i,
            pitch > 0,
            n == votes_of(rows@.take(i as int), axis, pitch, sites),
        decreases rows.len() - i,
    {
        assert(rows@.take(i + 1).drop_last() =~= rows@.take(i as int));
        assert(rows@.take(i + 1).last() == rows@[i as int]);
        let found = match row_pitch(&rows[i].ticks) {
            Some(p) => {
                proof {
                    if is_lattice(rows@[i as int].ticks@, pitch as int) {
                        let ticks = rows@[i as int].ticks@;
                        assert(ticks[1] - ticks[1 - 1] == pitch);
                        assert(ticks[1] - ticks[1 - 1] == p);
                    }
                }
                p == pitch
            },
            None => false,
        };
        if found && rows[i].axis == axis && rows[i].ticks.len() == sites {
            n = n + 1;
        }
        i = i + 1;
    }
    assert(rows@.take(rows@.len() as int) =~= rows@);
    n
}

/// The lattice that most rows vote for. There is none where no row votes.
pub fn infer_lattice(rows: &Vec<FaceRow>) -> (out: Option<LatticeCandidate>)
    ensures
        out is None ==> forall|i: int, pitch: int|
            0 <= i < rows@.len() && 0 < pitch <= i64::MAX ==> !#[trigger] is_lattice(
                rows@[i].ticks@,
                pitch,
            ),
        out matches Some(best) ==> best.votes > 0 && best.votes == votes_of(
            rows@,
            best.axis_index,
            best.pitch_ticks,
            best.sites,
        ) && forall|i: int, pitch: i64|
            0 <= i < rows@.len() && #[trigger] is_lattice(rows@[i].ticks@, pitch as int)
                ==> !comes_before(
                votes_of(rows@, rows@[i].axis, pitch, rows@[i].ticks@.len() as usize),
                rows@[i].ticks@.len() as usize,
                pitch,
                best,
            ),
{
    let mut best: Option<LatticeCandidate> = None;
    let mut i: usize = 0;
    while i < rows.len()
        invariant
            i <= rows.len(),
            best is None ==> forall|k: int, pitch: int|
                0 <= k < i && 0 < pitch <= i64::MAX ==> !#[trigger] is_lattice(
                    rows@[k].ticks@,
                    pitch,
                ),
            best matches Some(b) ==> b.votes > 0 && b.pitch_ticks > 0 && b.votes == votes_of(
                rows@,
                b.axis_index,
                b.pitch_ticks,
                b.sites,
            ) && forall|k: int, pitch: i64|
                0 <= k < i && #[trigger] is_lattice(rows@[k].ticks@, pitch as int)
                    ==> !comes_before(
                    votes_of(rows@, rows@[k].axis, pitch, rows@[k].ticks@.len() as usize),
                    rows@[k].ticks@.len() as usize,
                    pitch,
                    b,
                ),
        decreases rows.len() - i,
    {
        if let Some(pitch) = row_pitch(&rows[i].ticks) {
            let axis: usize = rows[i].axis;
            let sites: usize = rows[i].ticks.len();
            let votes: usize = count_votes(rows, axis, pitch, sites);
            proof {
                lemma_vote_counts(rows@, i as int, pitch);
                assert forall|p: i64| #[trigger]
                    is_lattice(rows@[i as int].ticks@, p as int) implies p == pitch by {
                    let ticks = rows@[i as int].ticks@;
                    assert(ticks[1] - ticks[1 - 1] == p);
                    assert(ticks[1] - ticks[1 - 1] == pitch);
                }
            }
            let better = match best {
                None => true,
                Some(b) => votes > b.votes || (votes == b.votes && (sites > b.sites || (sites
                    == b.sites && pitch < b.pitch_ticks))),
            };
            if better {
                best = Some(
                    LatticeCandidate { axis_index: axis, pitch_ticks: pitch, sites, votes },
                );
            }
        } else {
            assert forall|p: i64| !#[trigger] is_lattice(rows@[i as int].ticks@, p as int) by {
                if p > 0 {
                    assert(!is_lattice(rows@[i as int].ticks@, p as int));
                }
            }
        }
        i = i + 1;
    }
    best
}

proof fn lemma_vote_counts(rows: Seq<FaceRow>, i: int, pitch: i64)
    requires
        0 <= i < rows.len(),
        is_lattice(rows[i].ticks@, pitch as int),
        rows[i].ticks@.len() <= usize::MAX,
    ensures
        votes_of(rows, rows[i].axis, pitch, rows[i].ticks@.len() as usize) > 0,
    decreases rows.len(),
{
    if i < rows.len() - 1 {
        assert(rows.drop_last()[i] == rows[i]);
        lemma_vote_counts(rows.drop_last(), i, pitch);
    }
}

/// The faces of a solid by their part in a chain. Fixed faces lie before the middle, in it, or
/// behind it.
#[derive(Debug)]
pub struct ChainPartition {
    pub sites: Vec<Vec<u64>>,
    pub gaps: Vec<Vec<u64>>,
    pub stretch: Vec<u64>,
    pub negative: Vec<u64>,
    pub middle: Vec<u64>,
    pub positive: Vec<u64>,
}

/// The sizes of lists.
pub open spec fn sizes(lists: Seq<Vec<u64>>) -> Seq<usize> {
    Seq::new(lists.len(), |i: int| lists[i]@.len() as usize)
}

pub(crate) fn sizes_of(lists: &Vec<Vec<u64>>) -> (out: Vec<usize>)
    ensures
        out@ == sizes(lists@),
{
    let mut out: Vec<usize> = Vec::new();
    let mut i: usize = 0;
    while i < lists.len()
        invariant
            i <= lists.len(),
            out@ == sizes(lists@).take(i as int),
        decreases lists.len() - i,
    {
        out.push(lists[i].len());
        i = i + 1;
        assert(out@ =~= sizes(lists@).take(i as int));
    }
    assert(out@ =~= sizes(lists@));
    out
}

/// How well a partition fits. What comes first counts most, and more is better: how even the
/// two ends are, how even sites and gaps are from both ends, how many gaps and sites are alike,
/// how few faces are fixed, and how few of them in the middle, and how often places were seen.
#[derive(Debug, Clone, Copy, PartialEq, Eq, Structural)]
pub struct PartitionScore {
    pub uneven_ends: usize,
    pub uneven_sites: usize,
    pub uneven_gaps: usize,
    pub like_gaps: usize,
    pub like_sites: usize,
    pub fixed: usize,
    pub middle: usize,
    pub observations: i64,
}

pub open spec fn gap_between(a: nat, b: nat) -> nat {
    if a >= b {
        (a - b) as nat
    } else {
        (b - a) as nat
    }
}

/// Whether a number is how often the most frequent value occurs.
pub open spec fn is_mode_frequency(values: Seq<usize>, n: usize) -> bool {
    &&& values.len() == 0 ==> n == 0
    &&& forall|i: int| 0 <= i < values.len() ==> occurrences(values, #[trigger] values[i]) <= n
    &&& values.len() > 0 ==> exists|i: int|
        0 <= i < values.len() && occurrences(values, #[trigger] values[i]) == n
}

/// Whether a score is that of a partition.
pub open spec fn is_score(
    partition: ChainPartition,
    observations: i64,
    score: PartitionScore,
) -> bool {
    let sites = sizes(partition.sites@);
    let gaps = sizes(partition.gaps@);
    &&& score.uneven_ends == gap_between(
        partition.negative@.len(),
        partition.positive@.len(),
    )
    &&& score.uneven_sites == capped(mirror_difference(sites, sites.len() as int / 2))
    &&& score.uneven_gaps == capped(mirror_difference(gaps, gaps.len() as int / 2))
    &&& is_mode_frequency(gaps, score.like_gaps)
    &&& is_mode_frequency(sites, score.like_sites)
    &&& score.fixed == capped(
        partition.negative@.len() + partition.middle@.len() + partition.positive@.len(),
    )
    &&& score.middle == partition.middle@.len()
    &&& score.observations == observations
}

/// The score of a partition.
pub fn partition_score(partition: &ChainPartition, observations: i64) -> (score: PartitionScore)
    ensures
        is_score(*partition, observations, score),
{
    let sites = sizes_of(&partition.sites);
    let gaps = sizes_of(&partition.gaps);
    let negative: usize = partition.negative.len();
    let positive: usize = partition.positive.len();
    let middle: usize = partition.middle.len();
    let uneven_ends: usize = if negative >= positive {
        negative - positive
    } else {
        positive - negative
    };
    PartitionScore {
        uneven_ends,
        uneven_sites: symmetric_abs_difference(sites.as_slice()),
        uneven_gaps: symmetric_abs_difference(gaps.as_slice()),
        like_gaps: mode_frequency(&gaps),
        like_sites: mode_frequency(&sites),
        fixed: negative.saturating_add(middle).saturating_add(positive),
        middle,
        observations,
    }
}

/// Whether a score is better than another.
pub open spec fn is_better(a: PartitionScore, b: PartitionScore) -> bool {
    if a.uneven_ends != b.uneven_ends {
        a.uneven_ends < b.uneven_ends
    } else if a.uneven_sites != b.uneven_sites {
        a.uneven_sites < b.uneven_sites
    } else if a.uneven_gaps != b.uneven_gaps {
        a.uneven_gaps < b.uneven_gaps
    } else if a.like_gaps != b.like_gaps {
        a.like_gaps > b.like_gaps
    } else if a.like_sites != b.like_sites {
        a.like_sites > b.like_sites
    } else if a.fixed != b.fixed {
        a.fixed < b.fixed
    } else if a.middle != b.middle {
        a.middle < b.middle
    } else {
        a.observations > b.observations
    }
}

/// Whether a score is better than another.
pub fn better_score(a: &PartitionScore, b: &PartitionScore) -> (out: bool)
    ensures
        out == is_better(*a, *b),
{
    if a.uneven_ends != b.uneven_ends {
        a.uneven_ends < b.uneven_ends
    } else if a.uneven_sites != b.uneven_sites {
        a.uneven_sites < b.uneven_sites
    } else if a.uneven_gaps != b.uneven_gaps {
        a.uneven_gaps < b.uneven_gaps
    } else if a.like_gaps != b.like_gaps {
        a.like_gaps > b.like_gaps
    } else if a.like_sites != b.like_sites {
        a.like_sites > b.like_sites
    } else if a.fixed != b.fixed {
        a.fixed < b.fixed
    } else if a.middle != b.middle {
        a.middle < b.middle
    } else {
        a.observations > b.observations
    }
}

/// The best of some scores, the first of several.
pub fn best_score(scores: &Vec<PartitionScore>) -> (out: Option<usize>)
    ensures
        out is None == (scores@.len() == 0),
        out matches Some(best) ==> best < scores@.len() && (forall|i: int|
            0 <= i < scores@.len() ==> !is_better(#[trigger] scores@[i], scores@[best as int]))
            && forall|i: int|
            0 <= i < best ==> is_better(scores@[best as int], #[trigger] scores@[i]),
{
    if scores.len() == 0 {
        return None;
    }
    let mut best: usize = 0;
    let mut i: usize = 1;
    while i < scores.len()
        invariant
            1 <= i <= scores.len(),
            best < i,
            forall|k: int| 0 <= k < i ==> !is_better(#[trigger] scores@[k], scores@[best as int]),
            forall|k: int| 0 <= k < best ==> is_better(scores@[best as int], #[trigger] scores@[k]),
        decreases scores.len() - i,
    {
        if better_score(&scores[i], &scores[best]) {
            best = i;
        }
        i = i + 1;
    }
    Some(best)
}

/// The first list that holds a face.
pub open spec fn list_with(lists: Seq<Vec<u64>>, face: u64) -> Option<int>
    decreases lists.len(),
{
    if lists.len() == 0 {
        None
    } else {
        match list_with(lists.drop_last(), face) {
            Some(i) => Some(i),
            None => if lists.last()@.contains(face) {
                Some(lists.len() - 1)
            } else {
                None
            },
        }
    }
}

proof fn lemma_list_stays(lists: Seq<Vec<u64>>, face: u64, n: int)
    requires
        0 <= n <= lists.len(),
        list_with(lists.take(n), face) is Some,
    ensures
        list_with(lists, face) == list_with(lists.take(n), face),
    decreases lists.len(),
{
    if n == lists.len() {
        assert(lists.take(n) =~= lists);
    } else {
        assert(lists.drop_last().take(n) =~= lists.take(n));
        lemma_list_stays(lists.drop_last(), face, n);
    }
}

pub(crate) fn find_list(lists: &Vec<Vec<u64>>, face: u64) -> (out: Option<usize>)
    ensures
        out is Some == list_with(lists@, face) is Some,
        out matches Some(i) ==> list_with(lists@, face) == Some(i as int),
{
    let mut i: usize = 0;
    while i < lists.len()
        invariant
            i <= lists.len(),
            list_with(lists@.take(i as int), face) is None,
        decreases lists.len() - i,
    {
        assert(lists@.take(i + 1).drop_last() =~= lists@.take(i as int));
        assert(lists@.take(i + 1).last() == lists@[i as int]);
        if list_contains(&lists[i], face) {
            proof {
                lemma_list_stays(lists@, face, i + 1);
            }
            return Some(i);
        }
        i = i + 1;
    }
    assert(lists@.take(lists@.len() as int) =~= lists@);
    None
}

/// A face and the edges around it.
#[derive(Debug)]
pub struct FaceEdges {
    pub face: u64,
    pub edges: Vec<u64>,
}

/// A face once for each time that an edge is around it.
pub open spec fn each_time(edges: Seq<u64>, edge: u64, face: u64) -> Seq<u64>
    decreases edges.len(),
{
    if edges.len() == 0 {
        Seq::empty()
    } else {
        let rest = each_time(edges.drop_last(), edge, face);
        if edges.last() == edge {
            rest.push(face)
        } else {
            rest
        }
    }
}

/// The faces that an edge is around.
pub open spec fn faces_around(faces: Seq<FaceEdges>, edge: u64) -> Seq<u64>
    decreases faces.len(),
{
    if faces.len() == 0 {
        Seq::empty()
    } else {
        faces_around(faces.drop_last(), edge) + each_time(
            faces.last().edges@,
            edge,
            faces.last().face,
        )
    }
}

/// All edges around faces.
pub open spec fn every_edge(faces: Seq<FaceEdges>) -> Seq<u64>
    decreases faces.len(),
{
    if faces.len() == 0 {
        Seq::empty()
    } else {
        every_edge(faces.drop_last()) + faces.last().edges@
    }
}

pub(crate) fn find_faces_around(faces: &Vec<FaceEdges>) -> (out: (HashMap<u64, Vec<u64>>, Vec<u64>))
    ensures
        forall|edge: u64| #[trigger] listed(out.0@, edge) == faces_around(faces@, edge),
        out.1@ == sorted_of(every_edge(faces@)),
{
    let mut table: HashMap<u64, Vec<u64>> = HashMap::new();
    let mut all: Vec<u64> = Vec::new();
    let mut i: usize = 0;
    assert(faces@.take(0) =~= Seq::<FaceEdges>::empty());
    while i < faces.len()
        invariant
            i <= faces.len(),
            forall|edge: u64| #[trigger]
                listed(table@, edge) == faces_around(faces@.take(i as int), edge),
            all@ == every_edge(faces@.take(i as int)),
        decreases faces.len() - i,
    {
        let face: u64 = faces[i].face;
        let edges = &faces[i].edges;
        assert(faces@.take(i + 1).drop_last() =~= faces@.take(i as int));
        assert(faces@.take(i + 1).last() == faces@[i as int]);
        append_ids(&mut all, edges);
        let ghost before = table@;
        let mut k: usize = 0;
        assert(edges@.take(0) =~= Seq::<u64>::empty());
        assert forall|edge: u64| #[trigger]
            listed(table@, edge) == listed(before, edge) + each_time(edges@.take(0), edge, face) by {
            assert(listed(before, edge) + each_time(edges@.take(0), edge, face) =~= listed(
                before,
                edge,
            ));
        }
        while k < edges.len()
            invariant
                k <= edges.len(),
                forall|edge: u64| #[trigger]
                    listed(table@, edge) == listed(before, edge) + each_time(
                        edges@.take(k as int),
                        edge,
                        face,
                    ),
            decreases edges.len() - k,
        {
            let one: u64 = edges[k];
            let ghost was = table@;
            add_entry(&mut table, one, face);
            assert forall|edge: u64| #[trigger]
                listed(table@, edge) == listed(before, edge) + each_time(
                    edges@.take(k + 1),
                    edge,
                    face,
                ) by {
                assert(edges@.take(k + 1).drop_last() =~= edges@.take(k as int));
                assert(edges@.take(k + 1).last() == one);
                let rest = each_time(edges@.take(k as int), edge, face);
                assert(listed(was, edge) == listed(before, edge) + rest);
                assert(table@.dom().contains(edge) == (was.dom().contains(edge) || edge == one));
                if edge == one {
                    assert(listed(table@, edge) =~= listed(was, edge).push(face));
                    assert((listed(before, edge) + rest).push(face) =~= listed(before, edge)
                        + rest.push(face));
                } else if was.contains_key(edge) {
                    assert(table@[edge] == was[edge]);
                }
            }
            k = k + 1;
        }
        assert(edges@.take(edges@.len() as int) =~= edges@);
        i = i + 1;
    }
    assert(faces@.take(faces@.len() as int) =~= faces@);
    let edges = sorted_set(&all);
    (table, edges)
}

/// Whether an edge lies between faces of two different sites.
pub open spec fn crosses(sites: Seq<Vec<u64>>, around: Seq<u64>) -> bool {
    around.len() == 2 && match (list_with(sites, around[0]), list_with(sites, around[1])) {
        (Some(a), Some(b)) => a != b,
        _ => false,
    }
}

/// How many of the first `n` edges do not lie between two faces.
pub open spec fn open_edges(faces: Seq<FaceEdges>, edges: Seq<u64>, n: nat) -> nat
    decreases n,
{
    if n == 0 {
        0
    } else {
        open_edges(faces, edges, (n - 1) as nat) + if faces_around(faces, edges[n - 1]).len() != 2 {
            1nat
        } else {
            0
        }
    }
}

/// How many of the first `n` edges lie between two different sites.
pub open spec fn cross_edges(
    sites: Seq<Vec<u64>>,
    faces: Seq<FaceEdges>,
    edges: Seq<u64>,
    n: nat,
) -> nat
    decreases n,
{
    if n == 0 {
        0
    } else {
        cross_edges(sites, faces, edges, (n - 1) as nat) + if crosses(
            sites,
            faces_around(faces, edges[n - 1]),
        ) {
            1nat
        } else {
            0
        }
    }
}

/// All of some values from one place up to another are the same.
pub open spec fn all_are(values: Seq<usize>, from: int, to: int, value: usize) -> bool {
    forall|i: int| from <= i < to ==> (#[trigger] values[i]) == value
}

fn find_all_are(values: &Vec<usize>, from: usize, to: usize, value: usize) -> (out: bool)
    requires
        from <= to <= values@.len(),
    ensures
        out == all_are(values@, from as int, to as int, value),
{
    let mut i: usize = from;
    while i < to
        invariant
            from <= i <= to <= values@.len(),
            forall|k: int| from <= k < i ==> (#[trigger] values@[k]) == value,
        decreases to - i,
    {
        if values[i] != value {
            assert(values@[i as int] != value);
            return false;
        }
        i = i + 1;
    }
    true
}

pub open spec fn total_size(lists: Seq<Vec<u64>>) -> nat
    decreases lists.len(),
{
    if lists.len() == 0 {
        0
    } else {
        total_size(lists.drop_last()) + lists.last()@.len()
    }
}

pub(crate) fn find_total_size(lists: &Vec<Vec<u64>>) -> (out: u128)
    requires
        lists@.len() <= u64::MAX,
    ensures
        out == total_size(lists@),
        out <= lists@.len() * 0xFFFF_FFFF_FFFF_FFFF,
{
    let mut out: u128 = 0;
    let mut i: usize = 0;
    assert(lists@.take(0) =~= Seq::<Vec<u64>>::empty());
    while i < lists.len()
        invariant
            i <= lists.len(),
            out == total_size(lists@.take(i as int)),
            out <= i * 0xFFFF_FFFF_FFFF_FFFF,
        decreases lists.len() - i,
    {
        assert(lists@.take(i + 1).drop_last() =~= lists@.take(i as int));
        assert(lists@.take(i + 1).last() == lists@[i as int]);
        out = out + lists[i].len() as u128;
        i = i + 1;
    }
    assert(lists@.take(lists@.len() as int) =~= lists@);
    out
}

/// What is known of a chain.
#[derive(Debug, Clone, Copy, PartialEq, Eq, Structural)]
pub struct ChainVerdict {
    pub nonmanifold_edges: usize,
    pub cross_site_edges: usize,
    pub interior_site_face_count: usize,
    pub interior_gap_face_count: usize,
    pub complete_partition: bool,
    pub read_only_proven: bool,
}

/// Whether the sites that are neither at an end nor next to one have as many faces.
pub open spec fn is_even_inside(sites: Seq<usize>, count: usize) -> bool {
    if sites.len() > 4 {
        all_are(sites, 2, sites.len() - 2, count)
    } else {
        all_are(sites, 0, sites.len() as int, count)
    }
}

/// Whether every face has a part in a chain.
pub open spec fn is_complete(partition: ChainPartition, all_faces: usize, unmeasured: usize) -> bool {
    unmeasured == 0 && total_size(partition.sites@) + total_size(partition.gaps@)
        + partition.stretch@.len() + partition.negative@.len() + partition.middle@.len()
        + partition.positive@.len() == all_faces
}

/// Whether a partition is shown to be a chain: enough rows agree, every face has a part, every
/// edge lies between two faces and none between two sites, both ends mirror each other, gaps
/// and inner sites are alike, and at least half of the faces repeat.
pub open spec fn is_proven(
    partition: ChainPartition,
    verdict: ChainVerdict,
    votes: usize,
    all_faces: usize,
) -> bool {
    let sites = sizes(partition.sites@);
    let gaps = sizes(partition.gaps@);
    &&& votes >= MIN_LATTICE_FAMILY_VOTES
    &&& verdict.complete_partition
    &&& verdict.nonmanifold_edges == 0
    &&& verdict.cross_site_edges == 0
    &&& mirror_difference(sites, sites.len() as int / 2) == 0
    &&& mirror_difference(gaps, gaps.len() as int / 2) == 0
    &&& partition.negative@.len() == partition.positive@.len()
    &&& partition.middle@.len() == 0
    &&& all_are(gaps, 0, gaps.len() as int, verdict.interior_gap_face_count)
    &&& is_even_inside(sites, verdict.interior_site_face_count)
    &&& 2 * (total_size(partition.sites@) + total_size(partition.gaps@)) >= if all_faces == 0 {
        1
    } else {
        all_faces as int
    }
}

/// Whether a verdict is that on a partition.
pub open spec fn is_verdict(
    partition: ChainPartition,
    faces: Seq<FaceEdges>,
    votes: usize,
    all_faces: usize,
    unmeasured: usize,
    verdict: ChainVerdict,
) -> bool {
    let edges = sorted_of(every_edge(faces));
    let sites = sizes(partition.sites@);
    let gaps = sizes(partition.gaps@);
    &&& verdict.nonmanifold_edges == open_edges(faces, edges, edges.len())
    &&& verdict.cross_site_edges == cross_edges(partition.sites@, faces, edges, edges.len())
    &&& if sites.len() == 0 {
        verdict.interior_site_face_count == 0
    } else {
        is_mode(sites, verdict.interior_site_face_count)
    }
    &&& if gaps.len() == 0 {
        verdict.interior_gap_face_count == 0
    } else {
        is_mode(gaps, verdict.interior_gap_face_count)
    }
    &&& verdict.complete_partition == is_complete(partition, all_faces, unmeasured)
    &&& verdict.read_only_proven == is_proven(partition, verdict, votes, all_faces)
}

/// Judges a partition.
pub fn judge_chain(
    partition: &ChainPartition,
    faces: &Vec<FaceEdges>,
    votes: usize,
    all_faces: usize,
    unmeasured: usize,
) -> (verdict: ChainVerdict)
    ensures
        is_verdict(*partition, faces@, votes, all_faces, unmeasured, verdict),
{
    let sites = sizes_of(&partition.sites);
    let gaps = sizes_of(&partition.gaps);
    let (table, edges) = find_faces_around(faces);
    let mut nonmanifold_edges: usize = 0;
    let mut cross_site_edges: usize = 0;
    let mut i: usize = 0;
    while i < edges.len()
        invariant
            i <= edges.len(),
            forall|edge: u64| #[trigger] listed(table@, edge) == faces_around(faces@, edge),
            nonmanifold_edges <= i,
            cross_site_edges <= i,
            nonmanifold_edges == open_edges(faces@, edges@, i as nat),
            cross_site_edges == cross_edges(partition.sites@, faces@, edges@, i as nat),
        decreases edges.len() - i,
    {
        assert(listed(table@, edges@[i as int]) == faces_around(faces@, edges@[i as int]));
        match table.get(&edges[i]) {
            Some(around) => {
                if around.len() != 2 {
                    nonmanifold_edges = nonmanifold_edges + 1;
                } else {
                    let a = find_list(&partition.sites, around[0]);
                    let b = find_list(&partition.sites, around[1]);
                    if let (Some(x), Some(y)) = (a, b) {
                        if x != y {
                            cross_site_edges = cross_site_edges + 1;
                        }
                    }
                }
            },
            None => {
                nonmanifold_edges = nonmanifold_edges + 1;
            },
        }
        i = i + 1;
    }
    let interior_site_face_count: usize = match mode_value(&sites) {
        Some(mode) => mode,
        None => 0,
    };
    let interior_gap_face_count: usize = match mode_value(&gaps) {
        Some(mode) => mode,
        None => 0,
    };
    assert(partition.sites.len() <= u64::MAX && partition.gaps.len() <= u64::MAX);
    let in_sites: u128 = find_total_size(&partition.sites);
    let in_gaps: u128 = find_total_size(&partition.gaps);
    let repeated: Option<u128> = in_sites.checked_add(in_gaps);
    let rest: u128 = partition.stretch.len() as u128 + partition.negative.len() as u128
        + partition.middle.len() as u128 + partition.positive.len() as u128;
    let complete_partition = unmeasured == 0 && match repeated {
        Some(n) => match n.checked_add(rest) {
            Some(all) => all == all_faces as u128,
            None => false,
        },
        None => false,
    };
    let least: u128 = if all_faces == 0 {
        1
    } else {
        all_faces as u128
    };
    let covers = match repeated {
        Some(n) => n >= least || n + n >= least,
        None => true,
    };
    let even_inside = if sites.len() > 4 {
        find_all_are(&sites, 2, sites.len() - 2, interior_site_face_count)
    } else {
        find_all_are(&sites, 0, sites.len(), interior_site_face_count)
    };
    let read_only_proven = votes >= MIN_LATTICE_FAMILY_VOTES && complete_partition
        && nonmanifold_edges == 0 && cross_site_edges == 0 && symmetric_abs_difference(
        sites.as_slice(),
    ) == 0 && symmetric_abs_difference(gaps.as_slice()) == 0 && partition.negative.len()
        == partition.positive.len() && partition.middle.len() == 0 && find_all_are(
        &gaps,
        0,
        gaps.len(),
        interior_gap_face_count,
    ) && even_inside && covers;
    ChainVerdict {
        nonmanifold_edges,
        cross_site_edges,
        interior_site_face_count,
        interior_gap_face_count,
        complete_partition,
        read_only_proven,
    }
}

/// In a chain that is shown to be one, every edge lies between two faces, and no face touches
/// one of another site.
pub proof fn law_proven_sites_are_apart(
    partition: ChainPartition,
    faces: Seq<FaceEdges>,
    votes: usize,
    all_faces: usize,
    unmeasured: usize,
    verdict: ChainVerdict,
    i: int,
)
    requires
        is_verdict(partition, faces, votes, all_faces, unmeasured, verdict),
        verdict.read_only_proven,
        0 <= i < sorted_of(every_edge(faces)).len(),
    ensures
        ({
            let around = faces_around(faces, sorted_of(every_edge(faces))[i]);
            around.len() == 2 && !crosses(partition.sites@, around)
        }),
{
    let edges = sorted_of(every_edge(faces));
    lemma_none_open(faces, edges, edges.len(), i);
    lemma_none_crosses(partition.sites@, faces, edges, edges.len(), i);
}

proof fn lemma_none_open(faces: Seq<FaceEdges>, edges: Seq<u64>, n: nat, i: int)
    requires
        open_edges(faces, edges, n) == 0,
        0 <= i < n,
    ensures
        faces_around(faces, edges[i]).len() == 2,
    decreases n,
{
    if i < n - 1 {
        lemma_none_open(faces, edges, (n - 1) as nat, i);
    }
}

proof fn lemma_none_crosses(
    sites: Seq<Vec<u64>>,
    faces: Seq<FaceEdges>,
    edges: Seq<u64>,
    n: nat,
    i: int,
)
    requires
        cross_edges(sites, faces, edges, n) == 0,
        0 <= i < n,
    ensures
        !crosses(sites, faces_around(faces, edges[i])),
    decreases n,
{
    if i < n - 1 {
        lemma_none_crosses(sites, faces, edges, (n - 1) as nat, i);
    }
}

} // verus!
