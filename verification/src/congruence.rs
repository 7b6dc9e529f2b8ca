//! Which solids have one shape up to quarter turns, and how one is turned to give another.

use std::collections::HashMap;
use vstd::prelude::*;

use crate::ast::{
    entities_view, lemma_list_view, params_view, EntityInstance, EntityView, ParamView, Parameter,
    Record, RecordView,
};
use crate::body_detection::{find_solids, solids_of};
use crate::graph::{build_index, find_record, indexes, nth_entity_ref, nth_ref, record_at};
use crate::instances::{closure_from, closure_of, turns_view, InstanceEvidence, Turn, TurnView};
use crate::partition_plan::{ids_of_type, of_type};
use crate::placements::{Place, PlaceView};
use crate::signatures::{
    faces_text, find_vertex_spot, solid_text, turn, turned, vertex_spot, Observer, RealTicks, Sight,
};
use crate::text::{push_signed, same_text, signed_decimal};
use crate::texts::{is_less, put_text, same_texts, text_less, text_put, texts_view};

verus! {

broadcast use vstd::std_specs::hash::group_hash_axioms;

/// Whether a place comes before another.
pub open spec fn place_less(a: (i64, i64, i64), b: (i64, i64, i64)) -> bool {
    if a.0 != b.0 {
        a.0 < b.0
    } else if a.1 != b.1 {
        a.1 < b.1
    } else {
        a.2 < b.2
    }
}

fn is_place_less(a: (i64, i64, i64), b: (i64, i64, i64)) -> (out: bool)
    ensures
        out == place_less(a, b),
{
    if a.0 != b.0 {
        a.0 < b.0
    } else if a.1 != b.1 {
        a.1 < b.1
    } else {
        a.2 < b.2
    }
}

/// A list with one more place in its order.
pub open spec fn place_put(sorted: Seq<(i64, i64, i64)>, item: (i64, i64, i64)) -> Seq<
    (i64, i64, i64),
>
    decreases sorted.len(),
{
    if sorted.len() == 0 || !place_less(item, sorted.last()) {
        sorted.push(item)
    } else {
        place_put(sorted.drop_last(), item).push(sorted.last())
    }
}

proof fn lemma_place_put_at(sorted: Seq<(i64, i64, i64)>, item: (i64, i64, i64), at: int)
    requires
        0 <= at <= sorted.len(),
        at > 0 ==> !place_less(item, sorted[at - 1]),
        forall|k: int| at <= k < sorted.len() ==> place_less(item, #[trigger] sorted[k]),
    ensures
        place_put(sorted, item) == sorted.insert(at, item),
    decreases sorted.len(),
{
    if at == sorted.len() {
        assert(sorted.insert(at, item) =~= sorted.push(item));
    } else {
        let shorter = sorted.drop_last();
        assert(place_less(item, sorted.last()));
        lemma_place_put_at(shorter, item, at);
        assert(shorter.insert(at, item).push(sorted.last()) =~= sorted.insert(at, item));
    }
}

fn put_place(sorted: &mut Vec<(i64, i64, i64)>, item: (i64, i64, i64))
    ensures
        final(sorted)@ == place_put(old(sorted)@, item),
{
    let mut at: usize = sorted.len();
    while at > 0 && is_place_less(item, sorted[at - 1])
        invariant
            at <= sorted.len(),
            forall|k: int| at <= k < sorted.len() ==> place_less(item, #[trigger] sorted@[k]),
        decreases at,
    {
        at = at - 1;
    }
    proof {
        lemma_place_put_at(sorted@, item, at as int);
    }
    sorted.insert(at, item);
}

/// Whether a list of places comes before another: at the first place where they differ it has
/// the one that comes first, or it ends there.
pub open spec fn places_less(a: Seq<(i64, i64, i64)>, b: Seq<(i64, i64, i64)>) -> bool
    decreases a.len(),
{
    if b.len() == 0 {
        false
    } else if a.len() == 0 {
        true
    } else if a[0] == b[0] {
        places_less(a.skip(1), b.skip(1))
    } else {
        place_less(a[0], b[0])
    }
}

fn same_place(a: (i64, i64, i64), b: (i64, i64, i64)) -> (out: bool)
    ensures
        out == (a == b),
{
    a.0 == b.0 && a.1 == b.1 && a.2 == b.2
}

fn are_places_less(a: &Vec<(i64, i64, i64)>, b: &Vec<(i64, i64, i64)>) -> (out: bool)
    ensures
        out == places_less(a@, b@),
{
    let mut i: usize = 0;
    assert(a@.skip(0) =~= a@ && b@.skip(0) =~= b@);
    while i < a.len() && i < b.len()
        invariant
            i <= a.len(),
            i <= b.len(),
            places_less(a@, b@) == places_less(a@.skip(i as int), b@.skip(i as int)),
        decreases a.len() - i,
    {
        let ghost rest = a@.skip(i as int);
        let ghost other = b@.skip(i as int);
        assert(rest[0] == a@[i as int] && other[0] == b@[i as int]);
        if !same_place(a[i], b[i]) {
            return is_place_less(a[i], b[i]);
        }
        assert(rest.skip(1) =~= a@.skip(i + 1));
        assert(other.skip(1) =~= b@.skip(i + 1));
        i = i + 1;
    }
    i < b.len()
}

fn same_places(a: &Vec<(i64, i64, i64)>, b: &Vec<(i64, i64, i64)>) -> (out: bool)
    ensures
        out == (a@ == b@),
{
    if a.len() != b.len() {
        return false;
    }
    let mut i: usize = 0;
    while i < a.len()
        invariant
            i <= a.len(),
            a.len() == b.len(),
            forall|k: int| 0 <= k < i ==> a@[k] == b@[k],
        decreases a.len() - i,
    {
        if !same_place(a[i], b[i]) {
            return false;
        }
        i = i + 1;
    }
    assert(a@ =~= b@);
    true
}

/// How a solid looks to an observer: the places of its vertices in order, and its text.
#[derive(Debug)]
pub struct Pose {
    pub points: Vec<(i64, i64, i64)>,
    pub text: String,
}

#[verifier::ext_equal]
pub struct PoseView {
    pub points: Seq<(i64, i64, i64)>,
    pub text: Seq<char>,
}

impl View for Pose {
    type V = PoseView;

    open spec fn view(&self) -> PoseView {
        PoseView { points: self.points@, text: self.text@ }
    }
}

pub open spec fn poses_view(poses: Seq<Pose>) -> Seq<PoseView> {
    Seq::new(poses.len(), |i: int| poses[i]@)
}

/// Whether a pose comes before another.
pub open spec fn pose_less(a: PoseView, b: PoseView) -> bool {
    if a.points == b.points {
        text_less(a.text, b.text)
    } else {
        places_less(a.points, b.points)
    }
}

fn is_pose_less(a: &Pose, b: &Pose) -> (out: bool)
    ensures
        out == pose_less(a@, b@),
{
    if same_places(&a.points, &b.points) {
        is_less(a.text.as_str(), b.text.as_str())
    } else {
        are_places_less(&a.points, &b.points)
    }
}

fn same_pose(a: &Pose, b: &Pose) -> (out: bool)
    ensures
        out == (a@ == b@),
{
    same_places(&a.points, &b.points) && same_text(a.text.as_str(), b.text.as_str())
}

/// Where the points of the first `n` vertices are.
pub open spec fn vertex_ticks(s: Sight, vertices: Seq<u64>, n: nat) -> Option<Seq<[i64; 3]>>
    decreases n,
{
    if n == 0 {
        Some(Seq::empty())
    } else {
        match (vertex_ticks(s, vertices, (n - 1) as nat), vertex_spot(s.entities, vertices[n - 1])) {
            (Some(before), Some(point)) if s.ticks.contains_key(point) => Some(
                before.push(s.ticks[point]),
            ),
            _ => None,
        }
    }
}

proof fn lemma_no_ticks(s: Sight, vertices: Seq<u64>, i: nat, n: nat)
    requires
        i < n <= vertices.len(),
        match vertex_spot(s.entities, vertices[i as int]) {
            Some(point) => !s.ticks.contains_key(point),
            None => true,
        },
    ensures
        vertex_ticks(s, vertices, n) is None,
    decreases n,
{
    if n > i + 1 {
        lemma_no_ticks(s, vertices, i, (n - 1) as nat);
    }
}

/// Where the first `n` points are seen after a turn, in order.
pub open spec fn places_seen(points: Seq<[i64; 3]>, quarter: u8, n: nat) -> Seq<(i64, i64, i64)>
    decreases n,
{
    if n == 0 {
        Seq::empty()
    } else {
        place_put(places_seen(points, quarter, (n - 1) as nat), turned(points[n - 1], quarter))
    }
}

/// Finds where points are seen after a turn, in order.
pub fn normalized_points(points: &Vec<[i64; 3]>, quarter: u8) -> (out: Vec<(i64, i64, i64)>)
    ensures
        out@ == places_seen(points@, quarter, points@.len()),
{
    let mut out: Vec<(i64, i64, i64)> = Vec::new();
    let mut i: usize = 0;
    while i < points.len()
        invariant
            i <= points.len(),
            out@ == places_seen(points@, quarter, i as nat),
        decreases points.len() - i,
    {
        put_place(&mut out, turn(&points[i], quarter));
        i = i + 1;
    }
    out
}

/// The first of the first `n` quarter turns at which points are seen in the places that come
/// first.
pub open spec fn least_quarter(points: Seq<[i64; 3]>, n: nat) -> u8
    decreases n,
{
    if n <= 1 {
        0
    } else {
        let best = least_quarter(points, (n - 1) as nat);
        if places_less(
            places_seen(points, (n - 1) as u8, points.len()),
            places_seen(points, best, points.len()),
        ) {
            (n - 1) as u8
        } else {
            best
        }
    }
}

/// Finds the places of points up to quarter turns, and the turn at which they are seen there.
pub fn canonical_z90_points(points: &Vec<[i64; 3]>) -> (out: (Vec<(i64, i64, i64)>, u8))
    ensures
        out.1 == least_quarter(points@, 4),
        out.0@ == places_seen(points@, out.1, points@.len()),
{
    let mut best = normalized_points(points, 0);
    let mut at: u8 = 0;
    let mut quarter: u8 = 1;
    while quarter < 4
        invariant
            1 <= quarter <= 4,
            at == least_quarter(points@, quarter as nat),
            best@ == places_seen(points@, at, points@.len()),
        decreases 4 - quarter,
    {
        let candidate = normalized_points(points, quarter);
        if are_places_less(&candidate, &best) {
            best = candidate;
            at = quarter;
        }
        quarter = quarter + 1;
    }
    (best, at)
}

/// The vertices of a solid.
pub open spec fn solid_vertices(entities: Seq<EntityView>, solid: u64) -> Seq<u64> {
    of_type(entities, closure_of(entities, solid), "VERTEX_POINT"@)
}

/// How a solid looks.
pub open spec fn pose_of(s: Sight, solid: u64) -> Option<PoseView> {
    let vertices = solid_vertices(s.entities, solid);
    match (vertex_ticks(s, vertices, vertices.len()), solid_text(s, solid)) {
        (Some(points), Some(text)) => Some(
            PoseView { points: places_seen(points, s.quarter, points.len()), text },
        ),
        _ => None,
    }
}

/// The same sight after a turn.
pub open spec fn at_quarter(s: Sight, quarter: u8) -> Sight {
    Sight { quarter, ..s }
}

/// How a solid looks at the first `n` quarter turns.
pub open spec fn poses_of(s: Sight, solid: u64, n: nat) -> Option<Seq<PoseView>>
    decreases n,
{
    if n == 0 {
        Some(Seq::empty())
    } else {
        match (
            poses_of(s, solid, (n - 1) as nat),
            pose_of(at_quarter(s, (n - 1) as u8), solid),
        ) {
            (Some(before), Some(pose)) => Some(before.push(pose)),
            _ => None,
        }
    }
}

/// The first of the poses that come first among the first `n`.
pub open spec fn least_pose(poses: Seq<PoseView>, n: nat) -> int
    decreases n,
{
    if n <= 1 {
        0
    } else {
        let best = least_pose(poses, (n - 1) as nat);
        if pose_less(poses[n - 1], poses[best]) {
            n - 1
        } else {
            best
        }
    }
}

fn find_least_pose(poses: &Vec<Pose>) -> (out: usize)
    requires
        poses@.len() > 0,
    ensures
        out == least_pose(poses_view(poses@), poses@.len()),
        out < poses@.len(),
{
    let ghost views = poses_view(poses@);
    let mut best: usize = 0;
    let mut i: usize = 1;
    while i < poses.len()
        invariant
            1 <= i <= poses.len(),
            views == poses_view(poses@),
            best == least_pose(views, i as nat),
            best < poses.len(),
        decreases poses.len() - i,
    {
        assert(views[i as int] == poses@[i as int]@ && views[best as int] == poses@[best as int]@);
        if is_pose_less(&poses[i], &poses[best]) {
            best = i;
        }
        i = i + 1;
    }
    best
}

/// Whether an optional pose is one.
pub open spec fn is_pose(out: Option<Pose>, pose: Option<PoseView>) -> bool {
    match (out, pose) {
        (Some(found), Some(view)) => found@ == view,
        (None, None) => true,
        _ => false,
    }
}

fn find_ticks(observer: &Observer, vertices: &Vec<u64>) -> (out: Option<Vec<[i64; 3]>>)
    requires
        observer.wf(),
    ensures
        match (out, vertex_ticks(observer.sight(), vertices@, vertices@.len())) {
            (Some(found), Some(points)) => found@ == points,
            (None, None) => true,
            _ => false,
        },
{
    let mut out: Vec<[i64; 3]> = Vec::new();
    let mut i: usize = 0;
    while i < vertices.len()
        invariant
            i <= vertices.len(),
            observer.wf(),
            vertex_ticks(observer.sight(), vertices@, i as nat) == Some(out@),
        decreases vertices.len() - i,
    {
        let ticks = match find_vertex_spot(observer.entities, observer.index, vertices[i]) {
            None => None,
            Some(point) => observer.ticks.get(&point),
        };
        match ticks {
            None => {
                proof {
                    lemma_no_ticks(observer.sight(), vertices@, i as nat, vertices@.len());
                }
                return None;
            },
            Some(ticks) => {
                out.push(*ticks);
            },
        }
        i = i + 1;
    }
    Some(out)
}

fn find_pose(observer: &Observer, vertices: &Vec<u64>, solid: u64) -> (out: Option<Pose>)
    requires
        observer.wf(),
        vertices@ == solid_vertices(observer.sight().entities, solid),
    ensures
        is_pose(out, pose_of(observer.sight(), solid)),
{
    match (find_ticks(observer, vertices), observer.solid_signature(solid)) {
        (Some(points), Some(text)) => Some(
            Pose { points: normalized_points(&points, observer.quarter), text },
        ),
        _ => None,
    }
}

proof fn lemma_no_poses(s: Sight, solid: u64, i: nat, n: nat)
    requires
        i < n,
        pose_of(at_quarter(s, i as u8), solid) is None,
    ensures
        poses_of(s, solid, n) is None,
    decreases n,
{
    if n > i + 1 {
        lemma_no_poses(s, solid, i, (n - 1) as nat);
    }
}

fn find_poses(observer: &Observer, vertices: &Vec<u64>, solid: u64) -> (out: Option<Vec<Pose>>)
    requires
        observer.wf(),
        vertices@ == solid_vertices(observer.sight().entities, solid),
    ensures
        match (out, poses_of(observer.sight(), solid, 4)) {
            (Some(found), Some(poses)) => poses_view(found@) == poses && found@.len() == 4,
            (None, None) => true,
            _ => false,
        },
{
    let ghost s = observer.sight();
    let mut out: Vec<Pose> = Vec::new();
    let mut quarter: u8 = 0;
    assert(poses_view(out@) =~= Seq::empty());
    while quarter < 4
        invariant
            quarter <= 4,
            observer.wf(),
            s == observer.sight(),
            vertices@ == solid_vertices(s.entities, solid),
            out@.len() == quarter,
            poses_of(s, solid, quarter as nat) == Some(poses_view(out@)),
        decreases 4 - quarter,
    {
        let turned_observer = Observer {
            entities: observer.entities,
            index: observer.index,
            ticks: observer.ticks,
            reals: observer.reals,
            quarter,
        };
        assert(turned_observer.sight() == at_quarter(s, quarter));
        match find_pose(&turned_observer, vertices, solid) {
            None => {
                proof {
                    lemma_no_poses(s, solid, quarter as nat, 4);
                }
                return None;
            },
            Some(pose) => {
                let ghost before = out@;
                out.push(pose);
                assert(poses_view(out@) =~= poses_view(before).push(pose@));
            },
        }
        quarter = quarter + 1;
    }
    Some(out)
}

/// The turn at which a source looks as a target does, if there is only one.
pub open spec fn only_quarter(source: Seq<PoseView>, target: PoseView) -> Option<u8> {
    if exists|q: int| is_only_quarter(source, target, q) {
        Some((choose|q: int| is_only_quarter(source, target, q)) as u8)
    } else {
        None
    }
}

pub open spec fn is_only_quarter(source: Seq<PoseView>, target: PoseView, q: int) -> bool {
    &&& 0 <= q < 4
    &&& source[q] == target
    &&& forall|r: int| 0 <= r < 4 && r != q ==> #[trigger] source[r] != target
}

/// Finds the turn at which a source looks as a target does, if there is only one.
pub fn unique_relative_quarter(source: &Vec<Pose>, target: &Pose) -> (out: Option<u8>)
    requires
        source@.len() == 4,
    ensures
        out == only_quarter(poses_view(source@), target@),
        match out {
            Some(q) => is_only_quarter(poses_view(source@), target@, q as int),
            None => forall|q: int| !is_only_quarter(poses_view(source@), target@, q),
        },
{
    let ghost views = poses_view(source@);
    let mut found: Option<u8> = None;
    let mut q: u8 = 0;
    while q < 4
        invariant
            q <= 4,
            source@.len() == 4,
            views == poses_view(source@),
            match found {
                Some(r) => r < q && views[r as int] == target@ && forall|k: int|
                    0 <= k < q && k != r ==> #[trigger] views[k] != target@,
                None => forall|k: int| 0 <= k < q ==> #[trigger] views[k] != target@,
            },
        decreases 4 - q,
    {
        assert(views[q as int] == source@[q as int]@);
        if same_pose(&source[q as usize], target) {
            match found {
                Some(r) => {
                    proof {
                        assert forall|k: int| !is_only_quarter(views, target@, k) by {
                            if is_only_quarter(views, target@, k) {
                                assert(views[r as int] == target@ && views[q as int] == target@);
                            }
                        }
                    }
                    return None;
                },
                None => {
                    found = Some(q);
                },
            }
        }
        q = q + 1;
    }
    proof {
        match found {
            Some(r) => {
                assert(is_only_quarter(views, target@, r as int));
                let c = choose|k: int| is_only_quarter(views, target@, k);
                assert(c == r) by {
                    if c != r {
                        assert(views[c] == target@);
                    }
                }
            },
            None => {
                assert forall|k: int| !is_only_quarter(views, target@, k) by {
                    if is_only_quarter(views, target@, k) {
                        assert(views[k] == target@);
                    }
                }
            },
        }
    }
    found
}

/// The numbers of a parameter that are no references, each followed by a comma.
pub open spec fn scalars_text(reals: Map<Seq<char>, i64>, p: ParamView) -> Option<Seq<char>>
    decreases p, 0nat,
{
    match p {
        ParamView::Real(text) => if reals.contains_key(text) {
            Some(signed_decimal(reals[text] as int) + ","@)
        } else {
            None
        },
        ParamView::Integer(v) => Some(signed_decimal(v as int) + ","@),
        ParamView::List(items) => list_scalars_text(reals, items, items.len()),
        ParamView::Typed { parameter, .. } => scalars_text(reals, *parameter),
        _ => Some(Seq::empty()),
    }
}

pub open spec fn list_scalars_text(
    reals: Map<Seq<char>, i64>,
    items: Seq<ParamView>,
    n: nat,
) -> Option<Seq<char>>
    decreases items, n,
{
    if n == 0 || n > items.len() {
        Some(Seq::empty())
    } else {
        match (list_scalars_text(reals, items, (n - 1) as nat), scalars_text(reals, items[n - 1])) {
            (Some(before), Some(text)) => Some(before + text),
            _ => None,
        }
    }
}

proof fn lemma_no_scalars(reals: Map<Seq<char>, i64>, items: Seq<ParamView>, i: nat, n: nat)
    requires
        i < n <= items.len(),
        scalars_text(reals, items[i as int]) is None,
    ensures
        list_scalars_text(reals, items, n) is None,
    decreases n,
{
    if n > i + 1 {
        lemma_no_scalars(reals, items, i, (n - 1) as nat);
    }
}

fn push_scalars(out: &mut String, param: &Parameter, reals: &RealTicks) -> (done: bool)
    ensures
        match scalars_text(reals@, param@) {
            Some(text) => done && final(out)@ == old(out)@ + text,
            None => !done,
        },
    decreases param, 0int,
{
    match param {
        Parameter::Real(text) => match reals.get(text.as_str()) {
            None => false,
            Some(ticks) => {
                push_signed(out, ticks);
                out.append(",");
                assert(out@ =~= old(out)@ + (signed_decimal(ticks as int) + ","@));
                true
            },
        },
        Parameter::Integer(v) => {
            push_signed(out, *v);
            out.append(",");
            assert(out@ =~= old(out)@ + (signed_decimal(*v as int) + ","@));
            true
        },
        Parameter::List(items) => {
            proof {
                lemma_list_view(*items);
            }
            assert(decreases_to!(param => items@));
            push_list_scalars(out, items, reals)
        },
        Parameter::Typed { parameter, .. } => push_scalars(out, &**parameter, reals),
        _ => {
            assert(out@ =~= old(out)@ + Seq::<char>::empty());
            true
        },
    }
}

fn push_list_scalars(out: &mut String, items: &Vec<Parameter>, reals: &RealTicks) -> (done: bool)
    ensures
        match list_scalars_text(reals@, params_view(items@), items@.len()) {
            Some(text) => done && final(out)@ == old(out)@ + text,
            None => !done,
        },
    decreases items@, 1int,
{
    let ghost views = params_view(items@);
    let ghost start = out@;
    let mut i: usize = 0;
    assert(out@ =~= start + Seq::<char>::empty());
    while i < items.len()
        invariant
            i <= items.len(),
            views == params_view(items@),
            views.len() == items@.len(),
            start == old(out)@,
            list_scalars_text(reals@, views, i as nat) matches Some(text) && out@ == start + text,
        decreases items.len() - i,
    {
        let ghost before = list_scalars_text(reals@, views, i as nat)->Some_0;
        assert(views[i as int] == items@[i as int]@);
        if !push_scalars(out, &items[i], reals) {
            proof {
                lemma_no_scalars(reals@, views, i as nat, views.len());
            }
            return false;
        }
        i = i + 1;
        assert(out@ =~= start + (before + scalars_text(reals@, views[i - 1])->Some_0));
    }
    true
}

/// The numbers and the type of the curve or the surface that a record refers to.
pub open spec fn carrier_key(s: Sight, record: RecordView, n: int) -> Option<Seq<char>> {
    match nth_ref(record, n) {
        None => None,
        Some(id) => match record_at(s.entities, id) {
            None => None,
            Some(carrier) => match scalars_text(s.reals, carrier.parameter) {
                Some(text) => Some(text + ":"@ + carrier.name),
                None => None,
            },
        },
    }
}

/// The keys of the carriers of the first `n` faces or edges, in order.
pub open spec fn carrier_keys(s: Sight, ids: Seq<u64>, slot: int, n: nat) -> Option<Seq<Seq<char>>>
    decreases n,
{
    if n == 0 {
        Some(Seq::empty())
    } else {
        match (carrier_keys(s, ids, slot, (n - 1) as nat), record_at(s.entities, ids[n - 1])) {
            (Some(before), Some(record)) => match carrier_key(s, record, slot) {
                Some(key) => Some(text_put(before, key)),
                None => None,
            },
            _ => None,
        }
    }
}

proof fn lemma_no_keys(s: Sight, ids: Seq<u64>, slot: int, i: nat, n: nat)
    requires
        i < n <= ids.len(),
        match record_at(s.entities, ids[i as int]) {
            Some(record) => carrier_key(s, record, slot) is None,
            None => true,
        },
    ensures
        carrier_keys(s, ids, slot, n) is None,
    decreases n,
{
    if n > i + 1 {
        lemma_no_keys(s, ids, slot, i, (n - 1) as nat);
    }
}

fn find_carrier_key(observer: &Observer, record: &Record, n: usize) -> (out: Option<String>)
    requires
        observer.wf(),
    ensures
        crate::signatures::is_text(out, carrier_key(observer.sight(), record@, n as int)),
{
    match nth_entity_ref(record, n) {
        None => None,
        Some(id) => match find_record(observer.entities, observer.index, id) {
            None => None,
            Some(carrier) => {
                let mut out = String::new();
                if push_scalars(&mut out, &carrier.parameter, observer.reals) {
                    out.append(":");
                    out.append(carrier.name.as_str());
                    assert(out@ =~= carrier_key(observer.sight(), record@, n as int)->Some_0);
                    Some(out)
                } else {
                    None
                }
            },
        },
    }
}

fn find_carrier_keys(observer: &Observer, ids: &Vec<u64>, slot: usize) -> (out: Option<Vec<String>>)
    requires
        observer.wf(),
    ensures
        crate::signatures::are_texts(
            out,
            carrier_keys(observer.sight(), ids@, slot as int, ids@.len()),
        ),
{
    let mut out: Vec<String> = Vec::new();
    let mut i: usize = 0;
    assert(texts_view(out@) =~= Seq::empty());
    while i < ids.len()
        invariant
            i <= ids.len(),
            observer.wf(),
            carrier_keys(observer.sight(), ids@, slot as int, i as nat) == Some(texts_view(out@)),
        decreases ids.len() - i,
    {
        let key = match find_record(observer.entities, observer.index, ids[i]) {
            None => None,
            Some(record) => find_carrier_key(observer, record, slot),
        };
        match key {
            None => {
                proof {
                    lemma_no_keys(observer.sight(), ids@, slot as int, i as nat, ids@.len());
                }
                return None;
            },
            Some(key) => {
                put_text(&mut out, key);
            },
        }
        i = i + 1;
    }
    Some(out)
}

/// What two solids share that have one shape up to quarter turns.
#[derive(Debug)]
pub struct ShapeKey {
    pub vertices: usize,
    pub edges: usize,
    pub oriented_edges: usize,
    pub faces: usize,
    pub pose: Pose,
    pub edge_geometry: Vec<String>,
    pub face_geometry: Vec<String>,
}

#[verifier::ext_equal]
pub struct KeyView {
    pub vertices: nat,
    pub edges: nat,
    pub oriented_edges: nat,
    pub faces: nat,
    pub pose: PoseView,
    pub edge_geometry: Seq<Seq<char>>,
    pub face_geometry: Seq<Seq<char>>,
}

impl View for ShapeKey {
    type V = KeyView;

    open spec fn view(&self) -> KeyView {
        KeyView {
            vertices: self.vertices as nat,
            edges: self.edges as nat,
            oriented_edges: self.oriented_edges as nat,
            faces: self.faces as nat,
            pose: self.pose@,
            edge_geometry: texts_view(self.edge_geometry@),
            face_geometry: texts_view(self.face_geometry@),
        }
    }
}

fn same_key(a: &ShapeKey, b: &ShapeKey) -> (out: bool)
    ensures
        out == (a@ == b@),
{
    a.vertices == b.vertices && a.edges == b.edges && a.oriented_edges == b.oriented_edges
        && a.faces == b.faces && same_pose(&a.pose, &b.pose) && same_texts(
        &a.edge_geometry,
        &b.edge_geometry,
    ) && same_texts(&a.face_geometry, &b.face_geometry)
}

/// What is known of the shape of a solid, and how it looks at each quarter turn.
pub open spec fn shape_of(s: Sight, solid: u64) -> Option<(KeyView, Seq<PoseView>)> {
    let ids = closure_of(s.entities, solid);
    let faces = of_type(s.entities, ids, "ADVANCED_FACE"@);
    let edges = of_type(s.entities, ids, "EDGE_CURVE"@);
    match (
        carrier_keys(s, faces, 2, faces.len()),
        carrier_keys(s, edges, 3, edges.len()),
        poses_of(s, solid, 4),
    ) {
        (Some(face_geometry), Some(edge_geometry), Some(poses)) => Some(
            (
                KeyView {
                    vertices: solid_vertices(s.entities, solid).len(),
                    edges: edges.len(),
                    oriented_edges: of_type(s.entities, ids, "ORIENTED_EDGE"@).len(),
                    faces: faces.len(),
                    pose: poses[least_pose(poses, 4)],
                    edge_geometry,
                    face_geometry,
                },
                poses,
            ),
        ),
        _ => None,
    }
}

/// The shape of a solid.
#[derive(Debug)]
pub struct Shape {
    pub key: ShapeKey,
    pub poses: Vec<Pose>,
}

impl View for Shape {
    type V = (KeyView, Seq<PoseView>);

    open spec fn view(&self) -> (KeyView, Seq<PoseView>) {
        (self.key@, poses_view(self.poses@))
    }
}

fn copy_pose(pose: &Pose) -> (out: Pose)
    ensures
        out@ == pose@,
{
    let mut points: Vec<(i64, i64, i64)> = Vec::new();
    let mut i: usize = 0;
    while i < pose.points.len()
        invariant
            i <= pose.points.len(),
            points@ == pose.points@.take(i as int),
        decreases pose.points.len() - i,
    {
        points.push(pose.points[i]);
        i = i + 1;
        assert(pose.points@.take(i as int) =~= pose.points@.take(i - 1).push(pose.points@[i - 1]));
    }
    assert(pose.points@.take(i as int) =~= pose.points@);
    Pose { points, text: pose.text.clone() }
}

/// Finds the shape of a solid.
pub fn find_shape(observer: &Observer, solid: u64) -> (out: Option<Shape>)
    requires
        observer.wf(),
    ensures
        match (out, shape_of(observer.sight(), solid)) {
            (Some(shape), Some(view)) => shape@ == view && shape.poses@.len() == 4,
            (None, None) => true,
            _ => false,
        },
{
    let entities = observer.entities;
    let index = observer.index;
    let ids = closure_from(solid, entities, index);
    let vertices = ids_of_type(&ids, entities, index, "VERTEX_POINT");
    let faces = ids_of_type(&ids, entities, index, "ADVANCED_FACE");
    let edges = ids_of_type(&ids, entities, index, "EDGE_CURVE");
    let oriented = ids_of_type(&ids, entities, index, "ORIENTED_EDGE");
    match (
        find_carrier_keys(observer, &faces, 2),
        find_carrier_keys(observer, &edges, 3),
        find_poses(observer, &vertices, solid),
    ) {
        (Some(face_geometry), Some(edge_geometry), Some(poses)) => {
            let best = find_least_pose(&poses);
            assert(poses_view(poses@)[best as int] == poses@[best as int]@);
            let key = ShapeKey {
                vertices: vertices.len(),
                edges: edges.len(),
                oriented_edges: oriented.len(),
                faces: faces.len(),
                pose: copy_pose(&poses[best]),
                edge_geometry,
                face_geometry,
            };
            Some(Shape { key, poses })
        },
        _ => None,
    }
}

pub open spec fn shape_view(shape: Option<Shape>) -> Option<(KeyView, Seq<PoseView>)> {
    match shape {
        Some(found) => Some(found@),
        None => None,
    }
}

pub open spec fn shapes_view(shapes: Seq<Option<Shape>>) -> Seq<
    Option<(KeyView, Seq<PoseView>)>,
> {
    Seq::new(shapes.len(), |i: int| shape_view(shapes[i]))
}

/// Whether two solids have shapes, and the same one.
pub open spec fn same_shape(
    shapes: Seq<Option<(KeyView, Seq<PoseView>)>>,
    i: int,
    k: int,
) -> bool {
    match (shapes[i], shapes[k]) {
        (Some(a), Some(b)) => a.0 == b.0,
        _ => false,
    }
}

/// The first of the first `n` solids that has the shape of a solid.
pub open spec fn first_of_shape(
    shapes: Seq<Option<(KeyView, Seq<PoseView>)>>,
    i: int,
    n: nat,
) -> int
    decreases n,
{
    if n == 0 {
        i
    } else {
        let before = first_of_shape(shapes, i, (n - 1) as nat);
        if before < n - 1 {
            before
        } else if same_shape(shapes, i, n - 1) {
            n - 1
        } else {
            i
        }
    }
}

/// The classes of the first `n` solids: each is numbered by the first solid of its shape.
pub open spec fn classes_of(
    solids: Seq<u64>,
    shapes: Seq<Option<(KeyView, Seq<PoseView>)>>,
    n: nat,
) -> Map<u64, u64>
    decreases n,
{
    if n == 0 {
        Map::empty()
    } else {
        let before = classes_of(solids, shapes, (n - 1) as nat);
        if shapes[n - 1] is Some {
            before.insert(
                solids[n - 1],
                first_of_shape(shapes, n - 1, (n - 1) as nat) as u64,
            )
        } else {
            before
        }
    }
}

proof fn lemma_first_of_shape(
    shapes: Seq<Option<(KeyView, Seq<PoseView>)>>,
    i: int,
    n: nat,
)
    requires
        0 <= n <= i < shapes.len(),
        shapes[i] is Some,
    ensures
        0 <= first_of_shape(shapes, i, n) <= i,
        same_shape(shapes, i, first_of_shape(shapes, i, n)),
        first_of_shape(shapes, i, n) < n || first_of_shape(shapes, i, n) == i,
        forall|k: int|
            0 <= k < n && k < first_of_shape(shapes, i, n) ==> !#[trigger] same_shape(shapes, i, k),
    decreases n,
{
    if n > 0 {
        lemma_first_of_shape(shapes, i, (n - 1) as nat);
    }
}

/// Two solids are of one class where they have one shape, and only there.
pub proof fn law_class_is_shape(
    shapes: Seq<Option<(KeyView, Seq<PoseView>)>>,
    i: int,
    k: int,
)
    requires
        0 <= i < shapes.len(),
        0 <= k < shapes.len(),
        shapes[i] is Some,
        shapes[k] is Some,
    ensures
        (first_of_shape(shapes, i, i as nat) == first_of_shape(shapes, k, k as nat)) == same_shape(
            shapes,
            i,
            k,
        ),
{
    lemma_first_of_shape(shapes, i, i as nat);
    lemma_first_of_shape(shapes, k, k as nat);
    let a = first_of_shape(shapes, i, i as nat);
    let b = first_of_shape(shapes, k, k as nat);
    if same_shape(shapes, i, k) {
        if a < b {
            assert(same_shape(shapes, k, a));
        }
        if b < a {
            assert(same_shape(shapes, i, b));
        }
    }
}

/// One solid is another one, turned.
#[derive(Debug, Clone, Copy, PartialEq, Eq, Structural)]
pub struct TurnPair {
    pub source: u64,
    pub target: u64,
    pub quarter: u8,
}

/// How one solid is turned to give another one.
pub open spec fn pair_of(
    solids: Seq<u64>,
    shapes: Seq<Option<(KeyView, Seq<PoseView>)>>,
    i: int,
    k: int,
) -> Option<TurnPair> {
    match (shapes[i], shapes[k]) {
        (Some(source), Some(target)) if source.0 == target.0 && solids[i] != solids[k] => {
            match only_quarter(source.1, target.1[0]) {
                Some(quarter) => Some(TurnPair { source: solids[i], target: solids[k], quarter }),
                None => None,
            }
        },
        _ => None,
    }
}

/// The pairs of the first `a` solids with all solids, and of the next with the first `b`.
pub open spec fn pairs_of(
    solids: Seq<u64>,
    shapes: Seq<Option<(KeyView, Seq<PoseView>)>>,
    a: nat,
    b: nat,
) -> Seq<TurnPair>
    decreases a, b,
{
    if b > 0 {
        let before = pairs_of(solids, shapes, a, (b - 1) as nat);
        match pair_of(solids, shapes, a as int, b - 1) {
            Some(pair) => before.push(pair),
            None => before,
        }
    } else if a > 0 {
        pairs_of(solids, shapes, (a - 1) as nat, solids.len())
    } else {
        Seq::empty()
    }
}

fn find_pair(solids: &Vec<u64>, shapes: &Vec<Option<Shape>>, i: usize, k: usize) -> (out: Option<
    TurnPair,
>)
    requires
        i < solids@.len(),
        k < solids@.len(),
        shapes@.len() == solids@.len(),
        forall|n: int|
            0 <= n < shapes@.len() ==> (#[trigger] shapes@[n] matches Some(shape)
                ==> shape.poses@.len() == 4),
    ensures
        out == pair_of(solids@, shapes_view(shapes@), i as int, k as int),
{
    assert(shapes_view(shapes@)[i as int] == shape_view(shapes@[i as int]));
    assert(shapes_view(shapes@)[k as int] == shape_view(shapes@[k as int]));
    match (&shapes[i], &shapes[k]) {
        (Some(source), Some(target)) => {
            if solids[i] == solids[k] || !same_key(&source.key, &target.key) {
                return None;
            }
            assert(poses_view(target.poses@)[0] == target.poses@[0]@);
            match unique_relative_quarter(&source.poses, &target.poses[0]) {
                Some(quarter) => Some(
                    TurnPair { source: solids[i], target: solids[k], quarter },
                ),
                None => None,
            }
        },
        _ => None,
    }
}

/// The shapes of the solids of a section: their classes, and which are turned how.
#[derive(Debug)]
pub struct Congruence {
    pub classes: HashMap<u64, u64>,
    pub pairs: Vec<TurnPair>,
}

/// The sight of an observer who looks at a solid.
pub open spec fn sight_of(
    entities: Seq<EntityView>,
    ticks: Map<u64, [i64; 3]>,
    reals: Map<Seq<char>, i64>,
) -> Sight {
    Sight { entities, ticks, reals, quarter: 0 }
}

/// The shapes of the solids.
pub open spec fn all_shapes(
    entities: Seq<EntityView>,
    solids: Seq<u64>,
    ticks: Seq<HashMap<u64, [i64; 3]>>,
    reals: Map<Seq<char>, i64>,
) -> Seq<Option<(KeyView, Seq<PoseView>)>> {
    Seq::new(
        solids.len(),
        |i: int| shape_of(sight_of(entities, ticks[i]@, reals), solids[i]),
    )
}

/// Whether classes and pairs are those of the solids of a section.
pub open spec fn is_congruence(
    entities: Seq<EntityView>,
    ticks: Seq<HashMap<u64, [i64; 3]>>,
    reals: Map<Seq<char>, i64>,
    out: Congruence,
) -> bool {
    let solids = solids_of(entities, entities.len());
    let shapes = all_shapes(entities, solids, ticks, reals);
    &&& out.classes@ == classes_of(solids, shapes, solids.len())
    &&& out.pairs@ == pairs_of(solids, shapes, solids.len(), 0)
}

fn find_shapes(
    entities: &Vec<EntityInstance>,
    solids: &Vec<u64>,
    ticks: &Vec<HashMap<u64, [i64; 3]>>,
    reals: &RealTicks,
) -> (out: Vec<Option<Shape>>)
    requires
        ticks@.len() == solids@.len(),
    ensures
        shapes_view(out@) == all_shapes(entities_view(entities@), solids@, ticks@, reals@),
        forall|n: int|
            0 <= n < out@.len() ==> (#[trigger] out@[n] matches Some(shape) ==> shape.poses@.len()
                == 4),
{
    let ghost views = entities_view(entities@);
    let ghost wanted = all_shapes(views, solids@, ticks@, reals@);
    let index = build_index(entities);
    let mut out: Vec<Option<Shape>> = Vec::new();
    let mut i: usize = 0;
    while i < solids.len()
        invariant
            i <= solids.len(),
            out@.len() == i,
            ticks@.len() == solids@.len(),
            views == entities_view(entities@),
            wanted == all_shapes(views, solids@, ticks@, reals@),
            indexes(index@, views),
            shapes_view(out@) == wanted.take(i as int),
            forall|n: int|
                0 <= n < out@.len() ==> (#[trigger] out@[n] matches Some(shape)
                    ==> shape.poses@.len() == 4),
        decreases solids.len() - i,
    {
        let observer = Observer { entities, index: &index, ticks: &ticks[i], reals, quarter: 0 };
        assert(observer.sight() == sight_of(views, ticks@[i as int]@, reals@));
        let shape = find_shape(&observer, solids[i]);
        let ghost before = out@;
        let ghost view = shape_view(shape);
        assert(view == wanted[i as int]);
        out.push(shape);
        assert(shapes_view(out@) =~= shapes_view(before).push(view));
        i = i + 1;
        assert(wanted.take(i as int) =~= wanted.take(i - 1).push(wanted[i - 1]));
    }
    assert(wanted.take(i as int) =~= wanted);
    out
}

fn find_first_of_shape(shapes: &Vec<Option<Shape>>, i: usize) -> (out: usize)
    requires
        i < shapes@.len(),
    ensures
        out == first_of_shape(shapes_view(shapes@), i as int, i as nat),
        out <= i,
{
    let ghost views = shapes_view(shapes@);
    let mut best: usize = i;
    let mut n: usize = 0;
    while n < i
        invariant
            n <= i < shapes.len(),
            views == shapes_view(shapes@),
            best == first_of_shape(views, i as int, n as nat),
            best < n || best == i,
        decreases i - n,
    {
        if best == i {
            assert(views[i as int] == shape_view(shapes@[i as int]));
            assert(views[n as int] == shape_view(shapes@[n as int]));
            match (&shapes[i], &shapes[n]) {
                (Some(a), Some(b)) => {
                    if same_key(&a.key, &b.key) {
                        best = n;
                    }
                },
                _ => {},
            }
        }
        n = n + 1;
    }
    best
}

fn find_classes(solids: &Vec<u64>, shapes: &Vec<Option<Shape>>) -> (out: HashMap<u64, u64>)
    requires
        shapes@.len() == solids@.len(),
    ensures
        out@ == classes_of(solids@, shapes_view(shapes@), solids@.len()),
{
    let ghost views = shapes_view(shapes@);
    let mut out: HashMap<u64, u64> = HashMap::new();
    let mut i: usize = 0;
    assert(out@ =~= Map::<u64, u64>::empty());
    while i < solids.len()
        invariant
            i <= solids.len(),
            shapes@.len() == solids@.len(),
            views == shapes_view(shapes@),
            out@ == classes_of(solids@, views, i as nat),
        decreases solids.len() - i,
    {
        assert(views[i as int] is Some == shapes@[i as int] is Some);
        match &shapes[i] {
            Some(_) => {
                let class = find_first_of_shape(shapes, i);
                out.insert(solids[i], class as u64);
            },
            None => {},
        }
        i = i + 1;
    }
    out
}

/// Finds which solids of a section have one shape, and how one is turned to give another. For
/// each solid in the order of the file it is given where its observer sees points and
/// directions; where this is given for more or for fewer, nothing is found out.
pub fn compare_solids(
    entities: &Vec<EntityInstance>,
    ticks: &Vec<HashMap<u64, [i64; 3]>>,
    reals: &RealTicks,
) -> (out: Option<Congruence>)
    ensures
        out is Some == (ticks@.len() == solids_of(
            entities_view(entities@),
            entities@.len(),
        ).len()),
        out matches Some(found) ==> is_congruence(
            entities_view(entities@),
            ticks@,
            reals@,
            found,
        ),
{
    let ghost views = entities_view(entities@);
    assert(views.len() == entities@.len());
    let solids = find_solids(entities);
    if ticks.len() != solids.len() {
        return None;
    }
    let shapes = find_shapes(entities, &solids, ticks, reals);
    let ghost seen = shapes_view(shapes@);
    assert(seen.len() == solids@.len());
    assert(shapes@.len() == seen.len());
    let classes = find_classes(&solids, &shapes);
    let mut pairs: Vec<TurnPair> = Vec::new();
    let mut i: usize = 0;
    while i < solids.len()
        invariant
            i <= solids.len(),
            shapes@.len() == solids@.len(),
            seen == shapes_view(shapes@),
            forall|n: int|
                0 <= n < shapes@.len() ==> (#[trigger] shapes@[n] matches Some(shape)
                    ==> shape.poses@.len() == 4),
            pairs@ == pairs_of(solids@, seen, i as nat, 0),
        decreases solids.len() - i,
    {
        let mut k: usize = 0;
        while k < solids.len()
            invariant
                i < solids.len(),
                k <= solids.len(),
                shapes@.len() == solids@.len(),
                seen == shapes_view(shapes@),
                forall|n: int|
                    0 <= n < shapes@.len() ==> (#[trigger] shapes@[n] matches Some(shape)
                        ==> shape.poses@.len() == 4),
                pairs@ == pairs_of(solids@, seen, i as nat, k as nat),
            decreases solids.len() - k,
        {
            match find_pair(&solids, &shapes, i, k) {
                Some(pair) => {
                    pairs.push(pair);
                },
                None => {},
            }
            k = k + 1;
        }
        i = i + 1;
    }
    Some(Congruence { classes, pairs })
}

/// How far a turned solid is moved. The numbers are kept as their shortest decimal texts.
#[derive(Debug)]
pub struct Shift {
    pub x: String,
    pub y: String,
    pub z: String,
}

/// The turns with the moves that follow them.
pub open spec fn placed_turns(pairs: Seq<TurnPair>, shifts: Seq<Shift>) -> Seq<TurnView> {
    Seq::new(
        pairs.len(),
        |i: int|
            TurnView {
                source: pairs[i].source,
                target: pairs[i].target,
                place: PlaceView {
                    quarter: pairs[i].quarter,
                    x: shifts[i].x@,
                    y: shifts[i].y@,
                    z: shifts[i].z@,
                },
            },
    )
}

/// What is needed to make instances of solids. For each pair it is given how far the turned
/// source is moved to stand where the target does; where this is given for more or for fewer,
/// nothing is settled.
pub fn settle_turns(found: Congruence, shifts: &Vec<Shift>) -> (out: Option<InstanceEvidence>)
    ensures
        out is Some == (shifts@.len() == found.pairs@.len()),
        out matches Some(evidence) ==> evidence.shape_class@ == found.classes@ && turns_view(
            evidence.turns@,
        ) == placed_turns(found.pairs@, shifts@),
{
    if shifts.len() != found.pairs.len() {
        return None;
    }
    let ghost wanted = placed_turns(found.pairs@, shifts@);
    let mut turns: Vec<Turn> = Vec::new();
    let mut i: usize = 0;
    assert(turns_view(turns@) =~= wanted.take(0));
    while i < shifts.len()
        invariant
            i <= shifts.len(),
            shifts@.len() == found.pairs@.len(),
            wanted == placed_turns(found.pairs@, shifts@),
            turns_view(turns@) == wanted.take(i as int),
        decreases shifts.len() - i,
    {
        let pair = found.pairs[i];
        let ghost before = turns@;
        turns.push(
            Turn {
                source: pair.source,
                target: pair.target,
                place: Place {
                    quarter: pair.quarter,
                    x: shifts[i].x.clone(),
                    y: shifts[i].y.clone(),
                    z: shifts[i].z.clone(),
                },
            },
        );
        assert(turns_view(turns@) =~= turns_view(before).push(wanted[i as int]));
        i = i + 1;
        assert(wanted.take(i as int) =~= wanted.take(i - 1).push(wanted[i - 1]));
    }
    assert(wanted.take(i as int) =~= wanted);
    Some(InstanceEvidence { shape_class: found.classes, turns })
}

/// What is seen of faces at the first `n` quarter turns: the text that comes first, and the
/// first turn at which it is seen.
pub open spec fn least_faces(s: Sight, faces: Seq<u64>, n: nat) -> Option<(Seq<char>, u8)>
    decreases n,
{
    if n == 0 {
        None
    } else {
        match faces_text(at_quarter(s, (n - 1) as u8), faces) {
            None => None,
            Some(text) => if n == 1 {
                Some((text, 0))
            } else {
                match least_faces(s, faces, (n - 1) as nat) {
                    None => None,
                    Some(best) => if text_less(text, best.0) {
                        Some((text, (n - 1) as u8))
                    } else {
                        Some(best)
                    },
                }
            },
        }
    }
}

proof fn lemma_no_least(s: Sight, faces: Seq<u64>, i: nat, n: nat)
    requires
        i < n,
        faces_text(at_quarter(s, i as u8), faces) is None,
    ensures
        least_faces(s, faces, n) is None,
    decreases n,
{
    if n > i + 1 {
        lemma_no_least(s, faces, i, (n - 1) as nat);
    }
}

/// Finds the text of faces up to quarter turns, and the turn at which it is seen.
pub fn component_signature(observer: &Observer, faces: &Vec<u64>) -> (out: Option<(String, u8)>)
    requires
        observer.wf(),
    ensures
        match (out, least_faces(observer.sight(), faces@, 4)) {
            (Some(found), Some(least)) => found.0@ == least.0 && found.1 == least.1,
            (None, None) => true,
            _ => false,
        },
{
    let ghost s = observer.sight();
    let mut best: Option<(String, u8)> = None;
    let mut quarter: u8 = 0;
    while quarter < 4
        invariant
            quarter <= 4,
            observer.wf(),
            s == observer.sight(),
            match (best, least_faces(s, faces@, quarter as nat)) {
                (Some(found), Some(least)) => found.0@ == least.0 && found.1 == least.1,
                (None, None) => quarter == 0,
                _ => false,
            },
        decreases 4 - quarter,
    {
        let turned_observer = Observer {
            entities: observer.entities,
            index: observer.index,
            ticks: observer.ticks,
            reals: observer.reals,
            quarter,
        };
        assert(turned_observer.sight() == at_quarter(s, quarter));
        match turned_observer.faces_signature(faces) {
            None => {
                proof {
                    lemma_no_least(s, faces@, quarter as nat, 4);
                }
                return None;
            },
            Some(text) => {
                let first = match &best {
                    None => true,
                    Some(found) => is_less(text.as_str(), found.0.as_str()),
                };
                if first {
                    best = Some((text, quarter));
                }
            },
        }
        quarter = quarter + 1;
    }
    best
}

/// The first of the first `n` texts that is a text.
pub open spec fn first_same_text(texts: Seq<Seq<char>>, i: int, n: nat) -> int
    decreases n,
{
    if n == 0 {
        i
    } else {
        let before = first_same_text(texts, i, (n - 1) as nat);
        if before < n - 1 {
            before
        } else if texts[n - 1] == texts[i] {
            n - 1
        } else {
            i
        }
    }
}

/// Numbers texts: each has the number of the first that is the same.
pub fn number_texts(texts: &Vec<String>) -> (out: Vec<u64>)
    ensures
        out@.len() == texts@.len(),
        forall|i: int|
            0 <= i < texts@.len() ==> #[trigger] out@[i] == first_same_text(
                texts_view(texts@),
                i,
                i as nat,
            ),
{
    let ghost views = texts_view(texts@);
    let mut out: Vec<u64> = Vec::new();
    let mut i: usize = 0;
    while i < texts.len()
        invariant
            i <= texts.len(),
            out@.len() == i,
            views == texts_view(texts@),
            forall|k: int|
                0 <= k < i ==> #[trigger] out@[k] == first_same_text(views, k, k as nat),
        decreases texts.len() - i,
    {
        let mut best: usize = i;
        let mut n: usize = 0;
        while n < i
            invariant
                n <= i < texts.len(),
                views == texts_view(texts@),
                best == first_same_text(views, i as int, n as nat),
                best < n || best == i,
            decreases i - n,
        {
            assert(views[n as int] == texts@[n as int]@ && views[i as int] == texts@[i as int]@);
            if best == i && same_text(texts[n].as_str(), texts[i].as_str()) {
                best = n;
            }
            n = n + 1;
        }
        out.push(best as u64);
        i = i + 1;
    }
    out
}

proof fn lemma_first_same_text(texts: Seq<Seq<char>>, i: int, n: nat)
    requires
        n <= i < texts.len(),
    ensures
        0 <= first_same_text(texts, i, n) <= i,
        texts[first_same_text(texts, i, n)] == texts[i],
        first_same_text(texts, i, n) < n || first_same_text(texts, i, n) == i,
        forall|k: int|
            0 <= k < n && k < first_same_text(texts, i, n) ==> #[trigger] texts[k] != texts[i],
    decreases n,
{
    if n > 0 {
        lemma_first_same_text(texts, i, (n - 1) as nat);
    }
}

/// Texts have one number where they are the same, and only there.
pub proof fn law_number_is_text(texts: Seq<Seq<char>>, i: int, k: int)
    requires
        0 <= i < texts.len(),
        0 <= k < texts.len(),
    ensures
        (first_same_text(texts, i, i as nat) == first_same_text(texts, k, k as nat)) == (texts[i]
            == texts[k]),
{
    lemma_first_same_text(texts, i, i as nat);
    lemma_first_same_text(texts, k, k as nat);
}

} // verus!
