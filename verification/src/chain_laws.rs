//! What parts of chains, better candidates, numbers and new ids are.

use vstd::prelude::*;

use crate::ast::{EntityView, ParamView};
use crate::chain_partition::{
    faces_at, fixed, is_gap_face, is_partition, own_site, stretched, FacePlace, Side,
};
use crate::chain_pattern::{
    comes_before, is_better, ChainPartition, LatticeCandidate, PartitionScore,
};
use crate::formed_sheet::{is_likelier, pairs_at, planes_at, SheetMeasure};
use crate::instances::inserted;
use crate::number::{halvings, nearest_double, power_of_two, same_number};
use crate::refs::{entity_refs, lookup, map_entity};
use crate::renumber::{numbering, renumbered};
use crate::settled::{distinct, lemma_mapped_entity};

verus! {

/// Whether a face lies within one site alone.
pub open spec fn lies_at(place: FacePlace, site: usize) -> bool {
    place.sites@ == seq![site]
}

/// Whether a face lies within no site alone that there is.
pub open spec fn lies_at_none(place: FacePlace, count: usize) -> bool {
    forall|site: usize| site < count ==> !#[trigger] lies_at(place, site)
}

proof fn lemma_own_site(place: FacePlace, count: usize, site: usize)
    ensures
        site < count ==> (own_site(place, count) == Some(site)) == lies_at(place, site),
        own_site(place, count) is None == lies_at_none(place, count),
{
    if place.sites@.len() == 1 {
        assert(place.sites@ =~= seq![place.sites@[0]]);
        assert(lies_at(place, place.sites@[0]));
        if lies_at(place, site) {
            assert(place.sites@[0] == seq![site][0]);
        }
    } else {
        assert forall|other: usize| other < count implies !#[trigger] lies_at(place, other) by {
            assert(seq![other].len() == 1);
        }
    }
}

pub proof fn lemma_inserted(sorted: Seq<u64>, id: u64, face: u64)
    ensures
        inserted(sorted, id).contains(face) == (sorted.contains(face) || id == face),
        inserted(sorted, id).len() == sorted.len() + 1,
    decreases sorted.len(),
{
    let out = inserted(sorted, id);
    if sorted.len() == 0 || sorted.last() <= id {
        assert(out[sorted.len() as int] == id);
        if sorted.contains(face) {
            let k = choose|k: int| 0 <= k < sorted.len() && sorted[k] == face;
            assert(out[k] == face);
        }
        if out.contains(face) {
            let k = choose|k: int| 0 <= k < out.len() && out[k] == face;
            if k < sorted.len() {
                assert(sorted[k] == face);
            }
        }
    } else {
        let front = sorted.drop_last();
        lemma_inserted(front, id, face);
        let rest = inserted(front, id);
        assert(out[rest.len() as int] == sorted.last());
        assert(sorted[sorted.len() - 1] == sorted.last());
        if front.contains(face) {
            let k = choose|k: int| 0 <= k < front.len() && front[k] == face;
            assert(sorted[k] == face);
        }
        if sorted.contains(face) {
            let k = choose|k: int| 0 <= k < sorted.len() && sorted[k] == face;
            if k < front.len() {
                assert(front[k] == face);
            }
        }
        if rest.contains(face) {
            let k = choose|k: int| 0 <= k < rest.len() && rest[k] == face;
            assert(out[k] == face);
        }
        if out.contains(face) {
            let k = choose|k: int| 0 <= k < out.len() && out[k] == face;
            if k < rest.len() {
                assert(rest[k] == face);
            }
        }
    }
}

proof fn lemma_faces_at(places: Seq<FacePlace>, count: usize, site: usize, n: nat, face: u64)
    requires
        n <= places.len(),
        site < count,
    ensures
        faces_at(places, count, site, n).contains(face) == exists|k: int|
            0 <= k < n && (#[trigger] places[k]).face == face && lies_at(places[k], site),
    decreases n,
{
    if n > 0 {
        lemma_faces_at(places, count, site, (n - 1) as nat, face);
        lemma_own_site(places[n - 1], count, site);
        lemma_inserted(
            faces_at(places, count, site, (n - 1) as nat),
            places[n - 1].face,
            face,
        );
    }
}

proof fn lemma_stretched(places: Seq<FacePlace>, count: usize, n: nat, face: u64)
    requires
        n <= places.len(),
    ensures
        stretched(places, count, n).contains(face) == exists|k: int|
            0 <= k < n && (#[trigger] places[k]).face == face && places[k].wide && lies_at_none(
                places[k],
                count,
            ),
    decreases n,
{
    if n > 0 {
        lemma_stretched(places, count, (n - 1) as nat, face);
        lemma_own_site(places[n - 1], count, 0);
        lemma_inserted(stretched(places, count, (n - 1) as nat), places[n - 1].face, face);
    }
}

proof fn lemma_fixed(
    places: Seq<FacePlace>,
    count: usize,
    typical: Seq<u64>,
    side: Side,
    n: nat,
    face: u64,
)
    requires
        n <= places.len(),
    ensures
        fixed(places, count, typical, side, n).contains(face) == exists|k: int|
            0 <= k < n && (#[trigger] places[k]).face == face && places[k].side == side
                && !places[k].wide && lies_at_none(places[k], count) && !is_gap_face(
                places,
                count,
                typical,
                places[k],
            ),
    decreases n,
{
    if n > 0 {
        lemma_fixed(places, count, typical, side, (n - 1) as nat, face);
        lemma_own_site(places[n - 1], count, 0);
        lemma_inserted(
            fixed(places, count, typical, side, (n - 1) as nat),
            places[n - 1].face,
            face,
        );
    }
}

/// A site has the faces that lie within it alone. What lies within no site alone is stretched
/// where it is longer than the distance between sites. What is neither, nor fills a gap, is
/// fixed on its own side. Nothing else is at a site, stretched or fixed.
pub proof fn law_faces_are_where_they_lie(
    places: Seq<FacePlace>,
    count: usize,
    typical: Seq<u64>,
    partition: ChainPartition,
    site: usize,
    face: u64,
)
    requires
        is_partition(places, count, typical, partition),
        site < count,
    ensures
        partition.sites@[site as int]@.contains(face) == exists|k: int|
            0 <= k < places.len() && (#[trigger] places[k]).face == face && lies_at(
                places[k],
                site,
            ),
        partition.stretch@.contains(face) == exists|k: int|
            0 <= k < places.len() && (#[trigger] places[k]).face == face && places[k].wide
                && lies_at_none(places[k], count),
        partition.negative@.contains(face) == exists|k: int|
            0 <= k < places.len() && (#[trigger] places[k]).face == face && places[k].side
                == Side::Negative && !places[k].wide && lies_at_none(places[k], count)
                && !is_gap_face(places, count, typical, places[k]),
        partition.middle@.contains(face) == exists|k: int|
            0 <= k < places.len() && (#[trigger] places[k]).face == face && places[k].side
                == Side::Middle && !places[k].wide && lies_at_none(places[k], count)
                && !is_gap_face(places, count, typical, places[k]),
        partition.positive@.contains(face) == exists|k: int|
            0 <= k < places.len() && (#[trigger] places[k]).face == face && places[k].side
                == Side::Positive && !places[k].wide && lies_at_none(places[k], count)
                && !is_gap_face(places, count, typical, places[k]),
{
    lemma_faces_at(places, count, site, places.len(), face);
    lemma_stretched(places, count, places.len(), face);
    lemma_fixed(places, count, typical, Side::Negative, places.len(), face);
    lemma_fixed(places, count, typical, Side::Middle, places.len(), face);
    lemma_fixed(places, count, typical, Side::Positive, places.len(), face);
}

/// Whether one partition is at least as good as another in every respect: its ends, sites and
/// gaps are no less even, as many gaps and sites are alike, no more faces are fixed or in the
/// middle, and no fewer observations speak for it.
pub open spec fn is_no_worse(a: PartitionScore, b: PartitionScore) -> bool {
    &&& a.uneven_ends <= b.uneven_ends
    &&& a.uneven_sites <= b.uneven_sites
    &&& a.uneven_gaps <= b.uneven_gaps
    &&& a.like_gaps >= b.like_gaps
    &&& a.like_sites >= b.like_sites
    &&& a.fixed <= b.fixed
    &&& a.middle <= b.middle
    &&& a.observations >= b.observations
}

/// Of two partitions one that is no worse in any respect, and differs, is better. More even ends
/// count before all else. Of two that differ just one is better, and the better of a better one
/// is better.
pub proof fn law_better_partitions_are_ranked(
    a: PartitionScore,
    b: PartitionScore,
    c: PartitionScore,
)
    ensures
        is_no_worse(a, b) && a != b ==> is_better(a, b),
        a.uneven_ends < b.uneven_ends ==> is_better(a, b),
        !is_better(a, a),
        a != b ==> is_better(a, b) != is_better(b, a),
        is_better(a, b) && is_better(b, c) ==> is_better(a, c),
{
}

/// A lattice that no fewer rows vote for, with no fewer sites and no larger distance, comes
/// before another, unless they are alike. Votes count first, then sites.
pub proof fn law_lattices_are_ranked(
    votes: nat,
    sites: usize,
    pitch: i64,
    other: LatticeCandidate,
)
    ensures
        votes >= other.votes && sites >= other.sites && pitch <= other.pitch_ticks && !(votes
            == other.votes && sites == other.sites && pitch == other.pitch_ticks) ==> comes_before(
            votes,
            sites,
            pitch,
            other,
        ),
        votes > other.votes ==> comes_before(votes, sites, pitch, other),
        votes < other.votes ==> !comes_before(votes, sites, pitch, other),
        votes == other.votes && sites < other.sites ==> !comes_before(votes, sites, pitch, other),
{
}

/// A thickness that no fewer cylinders and no fewer planes speak for, and that is smaller, is
/// likelier. Cylinders count first.
pub proof fn law_thicknesses_are_ranked(measure: SheetMeasure, a: i64, b: i64)
    ensures
        pairs_at(measure.pairs@, a).len() >= pairs_at(measure.pairs@, b).len() && planes_at(
            measure.separations@,
            a,
        ) >= planes_at(measure.separations@, b) && a < b ==> is_likelier(measure, a, b),
        pairs_at(measure.pairs@, a).len() > pairs_at(measure.pairs@, b).len() ==> is_likelier(
            measure,
            a,
            b,
        ),
        a != b ==> is_likelier(measure, a, b) != is_likelier(measure, b, a),
{
}

/// A whole number that a double holds is its own nearest double. Any other is no farther from
/// its nearest double than half the step between doubles of its size, and a double that is as
/// near has an odd significand.
pub proof fn law_nearest_double_is_nearest(n: nat)
    ensures
        n < 0x20_0000_0000_0000 ==> nearest_double(n) == n,
        ({
            let step = power_of_two(halvings(n));
            let near = nearest_double(n);
            &&& step >= 1
            &&& near % step == 0
            &&& 2 * (near - n) <= step
            &&& 2 * (n - near) <= step
            &&& (2 * (near - n) == step || 2 * (n - near) == step) ==> (near / step) % 2 == 0
        }),
{
    let k = halvings(n);
    let step = power_of_two(k);
    lemma_power(k);
    let low = n / step;
    let rest = n % step;
    assert(n == low * step + rest && 0 <= rest < step) by (nonlinear_arith)
        requires
            step >= 1,
            low == n / step,
            rest == n % step,
    ;
    assert((low + 1) * step == low * step + step) by (nonlinear_arith);
    assert((low * step) % step == 0 && (low * step) / step == low) by (nonlinear_arith)
        requires
            step >= 1,
    ;
    assert(((low + 1) * step) % step == 0 && ((low + 1) * step) / step == low + 1)
        by (nonlinear_arith)
        requires
            step >= 1,
    ;
    if n < 0x20_0000_0000_0000 {
        assert(k == 0);
        assert(step == 1);
    }
}

proof fn lemma_power(k: nat)
    ensures
        power_of_two(k) >= 1,
    decreases k,
{
    if k > 0 {
        lemma_power((k - 1) as nat);
    }
}

/// Being the same number does not depend on the order, every number is the same as itself, and
/// whole numbers that doubles hold are the same only where they are equal.
pub proof fn law_same_numbers(a: ParamView, b: ParamView, v: i64, w: i64)
    ensures
        same_number(a, a),
        same_number(a, b) == same_number(b, a),
        -0x20_0000_0000_0000 < v < 0x20_0000_0000_0000 && -0x20_0000_0000_0000 < w
            < 0x20_0000_0000_0000 ==> same_number(ParamView::Integer(v), ParamView::Integer(w)) == (
        v == w),
{
    law_nearest_double_is_nearest(crate::number::magnitude(v));
    law_nearest_double_is_nearest(crate::number::magnitude(w));
}

proof fn lemma_numbering(entities: Seq<EntityView>, n: nat, id: u64)
    requires
        distinct(entities),
        n <= entities.len() <= u64::MAX,
    ensures
        numbering(entities, n).contains_key(id) == exists|j: int|
            0 <= j < n && (#[trigger] entities[j]).id() == id,
        forall|j: int|
            0 <= j < n && (#[trigger] entities[j]).id() == id ==> numbering(entities, n)[id] == j
                + 1,
    decreases n,
{
    if n > 0 {
        lemma_numbering(entities, (n - 1) as nat, id);
        if entities[n - 1].id() == id {
            assert forall|j: int| 0 <= j < n && (#[trigger] entities[j]).id() == id implies j == n
                - 1 by {
                if j < n - 1 {
                    assert(entities[j].id() != entities[n - 1].id());
                }
            }
        }
    }
}

/// Numbering anew gives every entity its place, counted from one, for an id, and keeps what it
/// refers to: where it referred to an entity it refers to the same one, and where it referred to
/// none it goes on as before. Nothing else changes.
pub proof fn law_renumbered_refers_to_the_same(
    entities: Seq<EntityView>,
    i: int,
    k: int,
    j: int,
)
    requires
        distinct(entities),
        entities.len() <= u64::MAX,
        0 <= i < entities.len(),
        0 <= k < entity_refs(entities[i]).len(),
        0 <= j < entities.len(),
    ensures
        ({
            let out = renumbered(entities);
            let target = entity_refs(entities[i])[k];
            &&& out.len() == entities.len()
            &&& out[i].id() == i + 1
            &&& out[i] is Simple == entities[i] is Simple
            &&& out[i].records().len() == entities[i].records().len()
            &&& entity_refs(out[i]).len() == entity_refs(entities[i]).len()
            &&& entities[j].id() == target ==> entity_refs(out[i])[k] == out[j].id()
            &&& (forall|m: int| 0 <= m < entities.len() ==> (#[trigger] entities[m]).id() != target)
                ==> entity_refs(out[i])[k] == target
        }),
{
    let out = renumbered(entities);
    let ids = numbering(entities, entities.len());
    let target = entity_refs(entities[i])[k];
    lemma_numbering(entities, entities.len(), target);
    lemma_numbering(entities, entities.len(), entities[i].id());
    lemma_numbering(entities, entities.len(), entities[j].id());
    lemma_mapped_entity(entities[i], lookup(ids));
    let mapped = map_entity(entities[i], lookup(ids));
    assert(out[i] == mapped.with_id(ids[entities[i].id()]));
    assert(out[i].records() == mapped.records());
    assert(entity_refs(out[i]) == entity_refs(mapped));
    assert(entity_refs(mapped)[k] == lookup(ids)(target));
    assert(out[j].id() == ids[entities[j].id()]);
}

} // verus!
