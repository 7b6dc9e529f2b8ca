//! Places along an axis that can be the sites of a chain.

use vstd::prelude::*;

verus! {

/// Sites at the same distance from one another, by the place of the first, and how often faces
/// were seen at them. Places are in ticks.
#[derive(Debug, Clone, Copy, PartialEq, Eq, Structural)]
pub struct Window {
    pub start: i64,
    pub observations: usize,
}

/// The place of a site.
pub open spec fn site_place(start: i64, pitch: i64, k: int) -> int {
    start + k * pitch
}

/// Whether something was seen at a place.
pub open spec fn is_seen(ticks: Seq<i64>, place: int) -> bool {
    exists|i: int| 0 <= i < ticks.len() && #[trigger] ticks[i] as int == place
}

/// Whether something was seen at each of some sites.
pub open spec fn is_window(ticks: Seq<i64>, pitch: i64, sites: nat, start: i64) -> bool {
    forall|k: int| 0 <= k < sites ==> is_seen(ticks, #[trigger] site_place(start, pitch, k))
}

/// Whether a place is a site.
pub open spec fn is_site(pitch: i64, sites: usize, start: i64, tick: i64) -> bool {
    start <= tick <= site_place(start, pitch, sites - 1) && (tick - start) % pitch as int == 0
}

/// How often something was seen at a site.
pub open spec fn observed(ticks: Seq<i64>, pitch: i64, sites: usize, start: i64) -> nat
    decreases ticks.len(),
{
    if ticks.len() == 0 {
        0
    } else {
        observed(ticks.drop_last(), pitch, sites, start) + if is_site(
            pitch,
            sites,
            start,
            ticks.last(),
        ) {
            1nat
        } else {
            0
        }
    }
}

/// Places in ascending order.
pub open spec fn rises(ticks: Seq<i64>) -> bool {
    forall|i: int, j: int| 0 <= i < j < ticks.len() ==> #[trigger] ticks[i] < #[trigger] ticks[j]
}

fn find_seen(ticks: &Vec<i64>, place: i128) -> (out: bool)
    ensures
        out == is_seen(ticks@, place as int),
{
    let mut i: usize = 0;
    while i < ticks.len()
        invariant
            i <= ticks.len(),
            forall|j: int| 0 <= j < i ==> (#[trigger] ticks@[j]) as int != place as int,
        decreases ticks.len() - i,
    {
        if ticks[i] as i128 == place {
            assert(ticks@[i as int] as int == place as int);
            return true;
        }
        i = i + 1;
    }
    false
}

/// The different places, in ascending order.
pub(crate) fn distinct(ticks: &Vec<i64>) -> (out: Vec<i64>)
    ensures
        rises(out@),
        forall|t: i64| #[trigger] out@.contains(t) == ticks@.contains(t),
{
    let mut out: Vec<i64> = Vec::new();
    let mut i: usize = 0;
    while i < ticks.len()
        invariant
            i <= ticks.len(),
            rises(out@),
            forall|t: i64| #[trigger] out@.contains(t) == ticks@.take(i as int).contains(t),
        decreases ticks.len() - i,
    {
        let tick: i64 = ticks[i];
        let mut at: usize = out.len();
        while at > 0 && out[at - 1] > tick
            invariant
                at <= out.len(),
                forall|k: int| at <= k < out.len() ==> (#[trigger] out@[k]) > tick,
            decreases at,
        {
            at = at - 1;
        }
        let ghost before = out@;
        if at > 0 && out[at - 1] == tick {
            assert(before.contains(before[at - 1]));
            assert forall|t: i64| #[trigger] out@.contains(t) == ticks@.take(i + 1).contains(t) by {
                lemma_taken(ticks@, i as int, t);
            }
        } else {
            out.insert(at, tick);
            assert forall|t: i64| #[trigger] out@.contains(t) == ticks@.take(i + 1).contains(t) by {
                lemma_taken(ticks@, i as int, t);
                if before.contains(t) {
                    let k = before.index_of(t);
                    if k < at {
                        assert(out@[k] == t);
                    } else {
                        assert(out@[k + 1] == t);
                    }
                }
                assert(out@[at as int] == tick);
                if out@.contains(t) && t != tick {
                    let k = out@.index_of(t);
                    if k < at {
                        assert(before[k] == t);
                    } else {
                        assert(before[k - 1] == t);
                    }
                }
            }
        }
        i = i + 1;
    }
    assert(ticks@.take(ticks@.len() as int) =~= ticks@);
    out
}

proof fn lemma_taken(ticks: Seq<i64>, i: int, t: i64)
    requires
        0 <= i < ticks.len(),
    ensures
        ticks.take(i + 1).contains(t) == (ticks.take(i).contains(t) || ticks[i] == t),
{
    let more = ticks.take(i + 1);
    if more.contains(t) {
        let k = more.index_of(t);
        if k < i {
            assert(ticks.take(i)[k] == t);
        }
    }
    if ticks.take(i).contains(t) {
        let k = ticks.take(i).index_of(t);
        assert(more[k] == t);
    }
    assert(more[i] == ticks[i]);
}

/// Whether something was seen at each site of a window; if so, the place of the last.
fn find_window(ticks: &Vec<i64>, pitch: i64, sites: usize, start: i64) -> (out: Option<i128>)
    requires
        pitch > 0,
        sites > 0,
    ensures
        out is Some == is_window(ticks@, pitch, sites as nat, start),
        out matches Some(end) ==> end == site_place(start, pitch, sites - 1),
{
    let mut place: i128 = start as i128;
    let mut k: usize = 0;
    assert(site_place(start, pitch, 0) == start) by (nonlinear_arith)
        requires
            site_place(start, pitch, 0) == start + 0 * pitch,
    ;
    loop
        invariant
            pitch > 0,
            k < sites,
            place == site_place(start, pitch, k as int),
            i64::MIN <= place <= i64::MAX + pitch,
            is_window(ticks@, pitch, k as nat, start),
        decreases sites - k,
    {
        if !find_seen(ticks, place) {
            assert(!is_seen(ticks@, site_place(start, pitch, k as int)));
            return None;
        }
        assert(place <= i64::MAX);
        assert forall|j: int| 0 <= j < k + 1 implies is_seen(
            ticks@,
            #[trigger] site_place(start, pitch, j),
        ) by {
            if j < k {
                assert(is_seen(ticks@, site_place(start, pitch, j)));
            }
        }
        if k + 1 == sites {
            return Some(place);
        }
        proof {
            lemma_next_site(start, pitch, k as int);
        }
        place = place + pitch as i128;
        k = k + 1;
    }
}

proof fn lemma_next_site(start: i64, pitch: i64, k: int)
    ensures
        site_place(start, pitch, k + 1) == site_place(start, pitch, k) + pitch,
{
    assert((k + 1) * pitch == k * pitch + pitch) by (nonlinear_arith);
}

/// How often something was seen at a site of a window that ends at a place.
fn count_observed(ticks: &Vec<i64>, pitch: i64, sites: usize, start: i64, end: i128) -> (n: usize)
    requires
        pitch > 0,
        end == site_place(start, pitch, sites - 1),
    ensures
        n == observed(ticks@, pitch, sites, start),
{
    let mut n: usize = 0;
    let mut i: usize = 0;
    assert(ticks@.take(0) =~= Seq::empty());
    while i < ticks.len()
        invariant
            i <= ticks.len(),
            n <= i,
            pitch > 0,
            end == site_place(start, pitch, sites - 1),
            n == observed(ticks@.take(i as int), pitch, sites, start),
        decreases ticks.len() - i,
    {
        let tick: i64 = ticks[i];
        assert(ticks@.take(i + 1).drop_last() =~= ticks@.take(i as int));
        assert(ticks@.take(i + 1).last() == tick);
        if start <= tick && tick as i128 <= end {
            let ahead: i128 = tick as i128 - start as i128;
            let step: i128 = pitch as i128;
            if ahead % step == 0 {
                n = n + 1;
            }
        }
        i = i + 1;
    }
    assert(ticks@.take(ticks@.len() as int) =~= ticks@);
    n
}

/// The places where something was seen and from which something was seen at each of as many
/// sites, in ascending order, with how often something was seen at the sites.
pub fn find_windows(ticks: &Vec<i64>, pitch: i64, sites: usize) -> (out: Vec<Window>)
    requires
        pitch > 0,
        sites > 0,
    ensures
        forall|i: int, j: int|
            0 <= i < j < out@.len() ==> (#[trigger] out@[i]).start < (#[trigger] out@[j]).start,
        forall|i: int|
            0 <= i < out@.len() ==> ticks@.contains((#[trigger] out@[i]).start) && is_window(
                ticks@,
                pitch,
                sites as nat,
                out@[i].start,
            ) && out@[i].observations == observed(ticks@, pitch, sites, out@[i].start),
        forall|start: i64|
            ticks@.contains(start) && #[trigger] is_window(ticks@, pitch, sites as nat, start)
                ==> exists|i: int| 0 <= i < out@.len() && (#[trigger] out@[i]).start == start,
{
    let starts = distinct(ticks);
    let mut out: Vec<Window> = Vec::new();
    let mut i: usize = 0;
    while i < starts.len()
        invariant
            i <= starts.len(),
            pitch > 0,
            sites > 0,
            rises(starts@),
            forall|t: i64| #[trigger] starts@.contains(t) == ticks@.contains(t),
            forall|a: int, b: int|
                0 <= a < b < out@.len() ==> (#[trigger] out@[a]).start < (#[trigger] out@[b]).start,
            forall|a: int|
                0 <= a < out@.len() ==> starts@.take(i as int).contains((#[trigger] out@[a]).start)
                    && is_window(ticks@, pitch, sites as nat, out@[a].start)
                    && out@[a].observations == observed(ticks@, pitch, sites, out@[a].start),
            forall|b: int|
                0 <= b < i && is_window(ticks@, pitch, sites as nat, #[trigger] starts@[b])
                    ==> exists|a: int|
                    0 <= a < out@.len() && (#[trigger] out@[a]).start == starts@[b],
        decreases starts.len() - i,
    {
        let start: i64 = starts[i];
        let ghost before = out@;
        if let Some(end) = find_window(ticks, pitch, sites, start) {
            let observations: usize = count_observed(ticks, pitch, sites, start, end);
            out.push(Window { start, observations });
        }
        proof {
            assert forall|a: int| 0 <= a < out@.len() implies starts@.take(i + 1).contains(
                (#[trigger] out@[a]).start,
            ) by {
                lemma_taken(starts@, i as int, out@[a].start);
                if a < before.len() {
                    assert(before[a] == out@[a]);
                }
            }
            assert forall|a: int, b: int| 0 <= a < b < out@.len() implies (
            #[trigger] out@[a]).start < (#[trigger] out@[b]).start by {
                if b < before.len() {
                    assert(before[a] == out@[a] && before[b] == out@[b]);
                } else {
                    assert(before[a] == out@[a]);
                    let k = starts@.take(i as int).index_of(out@[a].start);
                    assert(starts@[k] < starts@[i as int]);
                }
            }
            assert forall|b: int|
                0 <= b < i + 1 && is_window(ticks@, pitch, sites as nat, #[trigger] starts@[b])
                implies exists|a: int|
                0 <= a < out@.len() && (#[trigger] out@[a]).start == starts@[b] by {
                if b < i {
                    let a = choose|a: int|
                        0 <= a < before.len() && (#[trigger] before[a]).start == starts@[b];
                    assert(out@[a] == before[a]);
                } else {
                    assert(out@[out@.len() - 1].start == starts@[b]);
                }
            }
        }
        i = i + 1;
    }
    proof {
        assert forall|start: i64|
            ticks@.contains(start) && #[trigger] is_window(ticks@, pitch, sites as nat, start)
            implies exists|a: int| 0 <= a < out@.len() && (#[trigger] out@[a]).start == start by {
            assert(starts@.contains(start));
            let b = starts@.index_of(start);
            assert(starts@[b] == start);
        }
        assert forall|a: int| 0 <= a < out@.len() implies ticks@.contains(
            (#[trigger] out@[a]).start,
        ) by {
            assert(starts@.take(starts@.len() as int) =~= starts@);
            assert(starts@.contains(out@[a].start));
        }
    }
    out
}

} // verus!
