//! How turned solids are seen, and how the places of instances are kept.

use vstd::prelude::*;

use crate::congruence::{
    at_quarter, is_only_quarter, pair_of, place_less, place_put, places_seen, pose_of, poses_of,
    shape_of, KeyView, PoseView,
};
use crate::instance_groups::GroupView;
use crate::instance_lattices::{is_farther, pattern_of, placed, put_place, LatticeFit};
use crate::instance_laws::quarter_turn;
use crate::signatures::{turned, walked_text, Sight};

verus! {

/// Whether a coordinate is one that can be turned: none of those that stand for numbers that are
/// too large.
pub open spec fn is_in_range(v: i64) -> bool {
    i64::MIN + 1 < v < i64::MAX
}

/// A place is seen turned around the third axis by the cosine and the sine of the quarters.
pub proof fn law_places_turn_by_quarters(place: [i64; 3], quarter: u8)
    requires
        is_in_range(place[0]),
        is_in_range(place[1]),
    ensures
        ({
            let (c, s) = quarter_turn(quarter as nat);
            let seen = turned(place, quarter);
            &&& seen.0 == c * place[0] - s * place[1]
            &&& seen.1 == s * place[0] + c * place[1]
            &&& seen.2 == place[2]
        }),
    decreases quarter,
{
    reveal_with_fuel(quarter_turn, 5);
    if quarter >= 4 {
        law_places_turn_by_quarters(place, (quarter - 4) as u8);
        crate::instance_laws::law_four_quarters((quarter - 4) as nat);
        assert((quarter - 4) as u8 % 4 == quarter % 4);
        assert((quarter - 4) as nat + 4 == quarter as nat);
    } else {
        let (c, s) = quarter_turn(quarter as nat);
        let x = place[0] as int;
        let y = place[1] as int;
        assert(0 * x == 0 && 1 * x == x && -1 * x == -x) by (nonlinear_arith);
        assert(0 * y == 0 && 1 * y == y && -1 * y == -y) by (nonlinear_arith);
    }
}

/// Turning by some quarters and then by more is turning by all of them.
pub proof fn law_turns_add_up(place: [i64; 3], again: [i64; 3], a: u8, b: u8)
    requires
        is_in_range(place[0]),
        is_in_range(place[1]),
        a + b <= u8::MAX,
        turned(place, a) == (again[0], again[1], again[2]),
    ensures
        turned(again, b) == turned(place, (a + b) as u8),
{
    assert((a + b) % 4 == (a % 4 + b % 4) % 4);
}

/// Places have a strict order: of two that differ, just one comes before the other, and what
/// comes before a place comes before all that it comes before.
pub proof fn law_place_order_is_strict(
    a: (i64, i64, i64),
    b: (i64, i64, i64),
    c: (i64, i64, i64),
)
    ensures
        !place_less(a, a),
        a != b ==> place_less(a, b) != place_less(b, a),
        place_less(a, b) && place_less(b, c) ==> place_less(a, c),
{
}

/// Whether places are in order.
pub open spec fn in_order(places: Seq<(i64, i64, i64)>) -> bool {
    forall|i: int, j: int|
        #![trigger places[i], places[j]]
        0 <= i < j < places.len() ==> !place_less(places[j], places[i])
}

proof fn lemma_place_put(sorted: Seq<(i64, i64, i64)>, item: (i64, i64, i64))
    requires
        in_order(sorted),
    ensures
        in_order(place_put(sorted, item)),
        place_put(sorted, item).to_multiset() == sorted.to_multiset().insert(item),
        place_put(sorted, item).len() == sorted.len() + 1,
        forall|x: (i64, i64, i64)| #[trigger]
            place_put(sorted, item).contains(x) ==> x == item || sorted.contains(x),
    decreases sorted.len(),
{
    broadcast use vstd::seq_lib::group_to_multiset_ensures;

    let out = place_put(sorted, item);
    if sorted.len() == 0 || !place_less(item, sorted.last()) {
        assert(out[sorted.len() as int] == item);
        assert forall|i: int, j: int|
            #![trigger out[i], out[j]]
            0 <= i < j < out.len() implies !place_less(out[j], out[i]) by {
            if j == sorted.len() {
                let last = sorted.len() - 1;
                if i < last {
                    assert(!place_less(sorted[last], sorted[i]));
                }
                assert(sorted[last] == sorted.last());
            } else {
                assert(!place_less(sorted[j], sorted[i]));
            }
        }
        assert forall|x: (i64, i64, i64)| #[trigger] out.contains(x) implies x == item
            || sorted.contains(x) by {
            let k = choose|k: int| 0 <= k < out.len() && out[k] == x;
            if k < sorted.len() {
                assert(sorted[k] == x);
            }
        }
    } else {
        let front = sorted.drop_last();
        assert forall|i: int, j: int|
            #![trigger front[i], front[j]]
            0 <= i < j < front.len() implies !place_less(front[j], front[i]) by {
            assert(front[i] == sorted[i] && front[j] == sorted[j]);
        }
        lemma_place_put(front, item);
        let rest = place_put(front, item);
        let last = sorted.last();
        assert(sorted =~= front.push(last));
        assert(out =~= rest.push(last));
        assert(sorted.to_multiset() =~= front.to_multiset().insert(last));
        assert(out.to_multiset() =~= rest.to_multiset().insert(last));
        assert(out.to_multiset() =~= sorted.to_multiset().insert(item));
        assert forall|i: int, j: int|
            #![trigger out[i], out[j]]
            0 <= i < j < out.len() implies !place_less(out[j], out[i]) by {
            if j == rest.len() {
                assert(rest.contains(rest[i]));
                if rest[i] != item {
                    let k = choose|k: int| 0 <= k < front.len() && front[k] == rest[i];
                    assert(!place_less(sorted[sorted.len() - 1], sorted[k]));
                } else {
                    law_place_order_is_strict(item, last, item);
                }
            } else {
                assert(!place_less(rest[j], rest[i]));
            }
        }
        assert forall|x: (i64, i64, i64)| #[trigger] out.contains(x) implies x == item
            || sorted.contains(x) by {
            let k = choose|k: int| 0 <= k < out.len() && out[k] == x;
            if k < rest.len() {
                assert(rest.contains(x));
                if x != item {
                    let q = choose|q: int| 0 <= q < front.len() && front[q] == x;
                    assert(sorted[q] == x);
                }
            } else {
                assert(sorted[sorted.len() - 1] == x);
            }
        }
    }
}

/// The places of points where they are seen are those of the points, turned, each as often as it
/// is met, in their order.
pub proof fn law_all_points_are_seen(points: Seq<[i64; 3]>, quarter: u8, n: nat)
    requires
        n <= points.len(),
    ensures
        places_seen(points, quarter, n).to_multiset() == Seq::new(
            n,
            |i: int| turned(points[i], quarter),
        ).to_multiset(),
        places_seen(points, quarter, n).len() == n,
        in_order(places_seen(points, quarter, n)),
    decreases n,
{
    broadcast use vstd::seq_lib::group_to_multiset_ensures;

    let all = Seq::new(n, |i: int| turned(points[i], quarter));
    if n > 0 {
        let m = (n - 1) as nat;
        law_all_points_are_seen(points, quarter, m);
        let rest = Seq::new(m, |i: int| turned(points[i], quarter));
        lemma_place_put(places_seen(points, quarter, m), turned(points[n - 1], quarter));
        assert(all =~= rest.push(turned(points[n - 1], quarter)));
    } else {
        assert(places_seen(points, quarter, n) =~= all);
    }
}

proof fn lemma_poses(s: Sight, solid: u64, n: nat, q: int)
    requires
        poses_of(s, solid, n) is Some,
        0 <= q < n <= 4,
    ensures
        poses_of(s, solid, n)->Some_0.len() == n,
        pose_of(at_quarter(s, q as u8), solid) == Some(poses_of(s, solid, n)->Some_0[q]),
    decreases n,
{
    if q < n - 1 {
        lemma_poses(s, solid, (n - 1) as nat, q);
    } else if n > 1 {
        lemma_poses(s, solid, (n - 1) as nat, 0);
    }
}

/// Where one solid is found to be another one turned, it looks, turned so, just as the other one
/// does as it is, and turned by no other quarters does it look so.
pub proof fn law_turned_solid_looks_as_the_other(
    solids: Seq<u64>,
    shapes: Seq<Option<(KeyView, Seq<PoseView>)>>,
    i: int,
    k: int,
    source: Sight,
    target: Sight,
    other: u8,
)
    requires
        0 <= i < solids.len() == shapes.len(),
        0 <= k < solids.len(),
        shapes[i] == shape_of(source, solids[i]),
        shapes[k] == shape_of(target, solids[k]),
        pair_of(solids, shapes, i, k) is Some,
        other < 4,
    ensures
        ({
            let pair = pair_of(solids, shapes, i, k)->Some_0;
            let seen = pose_of(at_quarter(target, 0), solids[k]);
            &&& pair.source == solids[i]
            &&& pair.target == solids[k]
            &&& pair.source != pair.target
            &&& pair.quarter < 4
            &&& seen is Some
            &&& pose_of(at_quarter(source, pair.quarter), solids[i]) == seen
            &&& other != pair.quarter ==> pose_of(at_quarter(source, other), solids[i]) != seen
        }),
{
    let poses = shapes[i]->Some_0.1;
    let seen = shapes[k]->Some_0.1;
    lemma_poses(source, solids[i], 4, 0);
    lemma_poses(source, solids[i], 4, other as int);
    lemma_poses(target, solids[k], 4, 0);
    let q = choose|q: int| is_only_quarter(poses, seen[0], q);
    assert(exists|q: int| is_only_quarter(poses, seen[0], q));
    assert(is_only_quarter(poses, seen[0], q));
    lemma_poses(source, solids[i], 4, q);
    assert(poses[other as int] == seen[0] ==> other == q);
}

proof fn lemma_put_place(sorted: Seq<([i64; 2], u64)>, item: ([i64; 2], u64))
    ensures
        put_place(sorted, item).len() == sorted.len() + 1,
        put_place(sorted, item).to_multiset() == sorted.to_multiset().insert(item),
    decreases sorted.len(),
{
    broadcast use vstd::seq_lib::group_to_multiset_ensures;

    if !(sorted.len() == 0 || !is_farther(sorted.last(), item)) {
        let front = sorted.drop_last();
        lemma_put_place(front, item);
        let rest = put_place(front, item);
        assert(sorted =~= front.push(sorted.last()));
        assert(put_place(sorted, item).to_multiset() =~= sorted.to_multiset().insert(item));
    }
}

proof fn lemma_placed(items: Seq<u64>, places: Seq<[i64; 2]>, n: nat)
    requires
        n <= items.len(),
        n <= places.len(),
    ensures
        placed(items, places, n).len() == n,
        placed(items, places, n).to_multiset() == Seq::new(
            n,
            |i: int| (places[i], items[i]),
        ).to_multiset(),
    decreases n,
{
    broadcast use vstd::seq_lib::group_to_multiset_ensures;

    let all = Seq::new(n, |i: int| (places[i], items[i]));
    if n > 0 {
        let m = (n - 1) as nat;
        lemma_placed(items, places, m);
        let rest = Seq::new(m, |i: int| (places[i], items[i]));
        lemma_put_place(placed(items, places, m), (places[n - 1], items[n - 1]));
        assert(all =~= rest.push((places[n - 1], items[n - 1])));
    } else {
        assert(placed(items, places, n) =~= all);
    }
}

/// A lattice names each instance of its group once, with the place that was measured of it.
pub proof fn law_lattice_keeps_places(group: GroupView, fit: LatticeFit)
    requires
        fit.occupancy@.len() == group.items.len(),
    ensures
        ({
            let pattern = pattern_of(group, fit);
            let n = group.items.len();
            &&& pattern.item_ids.len() == n
            &&& pattern.occupancy.len() == n
            &&& Seq::new(
                n,
                |i: int| (pattern.occupancy[i], pattern.item_ids[i]),
            ).to_multiset() == Seq::new(
                n,
                |i: int| (fit.occupancy@[i], group.items[i]),
            ).to_multiset()
        }),
{
    let pattern = pattern_of(group, fit);
    let n = group.items.len();
    let order = placed(group.items, fit.occupancy@, n);
    lemma_placed(group.items, fit.occupancy@, n);
    assert(Seq::new(n, |i: int| (pattern.occupancy[i], pattern.item_ids[i])) =~= order);
}

/// An edge that is walked backward is seen like one that is walked forward from its end to its
/// start, but for the direction itself.
pub proof fn law_backward_walk_swaps_ends(
    sense: Seq<char>,
    first: Seq<char>,
    second: Seq<char>,
    carrier: Seq<char>,
)
    ensures
        exists|way: Seq<char>|
            walked_text(".F."@, sense, first, second, carrier) == #[trigger] ("OE(.F.;"@ + way)
                && walked_text(".T."@, sense, second, first, carrier) == "OE(.T.;"@ + way,
{
    reveal_strlit(".F.");
    reveal_strlit(".T.");
    reveal_strlit("OE(");
    reveal_strlit(";");
    reveal_strlit("OE(.F.;");
    reveal_strlit("OE(.T.;");
    assert(".F."@[1] != ".T."@[1]);
    let way = sense + ";"@ + second + "->"@ + first + ";"@ + carrier + ")"@;
    assert(walked_text(".F."@, sense, first, second, carrier) =~= "OE(.F.;"@ + way);
    assert(walked_text(".T."@, sense, second, first, carrier) =~= "OE(.T.;"@ + way);
}

} // verus!
