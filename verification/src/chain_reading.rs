//! What a file says of the faces of a solid that may hold a chain.

use std::collections::HashMap;
use vstd::prelude::*;

use crate::ast::{entities_view, EntityInstance, EntityView};
use crate::body_detection::{closed_faces, find_closed_faces};
use crate::body_graph::{boundary, face_edges_ordered};
use crate::chain_pattern::{
    comes_before, infer_lattice, is_lattice, votes_for, votes_of, FaceEdges, FaceRow,
    LatticeCandidate, MIN_LATTICE_FAMILY_VOTES,
};
use crate::chain_windows::{distinct, find_windows, is_window, observed, rises, Window};
use crate::graph::indexes;
use crate::sets::{sorted_of, sorted_set};

verus! {

broadcast use vstd::std_specs::hash::group_hash_axioms;

/// The fewest faces of a solid that can hold a chain.
pub const MIN_CHAIN_FACES: usize = 16;

/// What was measured of a face: a number that it shares with faces of the same form, and the
/// place of its middle in ticks.
#[derive(Debug, Clone, Copy)]
pub struct FaceForm {
    pub form: u64,
    pub center: [i64; 3],
}

/// The faces of a solid: how many there are, and those that were measured, with their edges.
#[derive(Debug)]
pub struct SolidFaces {
    pub total: usize,
    pub faces: Vec<FaceEdges>,
}

/// Whether a face can be looked at: it was measured, and its edges can be read.
pub open spec fn is_measured(
    entities: Seq<EntityView>,
    forms: Map<u64, FaceForm>,
    face: u64,
) -> bool {
    forms.contains_key(face) && boundary(entities, face) is Some
}

/// Those of some faces that can be looked at.
pub open spec fn measured_among(
    entities: Seq<EntityView>,
    forms: Map<u64, FaceForm>,
    ids: Seq<u64>,
    n: nat,
) -> Seq<u64>
    decreases n,
{
    if n == 0 {
        Seq::empty()
    } else {
        let before = measured_among(entities, forms, ids, (n - 1) as nat);
        if is_measured(entities, forms, ids[n - 1]) {
            before.push(ids[n - 1])
        } else {
            before
        }
    }
}

/// Whether faces are those of a solid that can be looked at, in ascending order, each with the
/// edges around it, in ascending order.
pub open spec fn are_faces_of(
    entities: Seq<EntityView>,
    forms: Map<u64, FaceForm>,
    solid: u64,
    found: SolidFaces,
) -> bool {
    &&& closed_faces(entities, solid) matches Some(list)
    &&& found.total == list.len()
    &&& {
        let ids = sorted_of(list);
        let wanted = measured_among(entities, forms, ids, ids.len());
        &&& found.faces@.len() == wanted.len()
        &&& forall|i: int|
            0 <= i < wanted.len() ==> (#[trigger] found.faces@[i]).face == wanted[i]
                && boundary(entities, wanted[i]) is Some && found.faces@[i].edges@ == sorted_of(
                boundary(entities, wanted[i])->Some_0,
            ) && forms.contains_key(wanted[i])
    }
}

/// Reads the faces of a solid. A solid without a closed shell has none.
pub fn read_faces(
    solid: u64,
    entities: &Vec<EntityInstance>,
    index: &HashMap<u64, usize>,
    forms: &HashMap<u64, FaceForm>,
) -> (out: Option<SolidFaces>)
    requires
        indexes(index@, entities_view(entities@)),
    ensures
        out is Some == closed_faces(entities_view(entities@), solid) is Some,
        out matches Some(found) ==> are_faces_of(entities_view(entities@), forms@, solid, found),
{
    let ghost views = entities_view(entities@);
    let list = match find_closed_faces(solid, entities, index) {
        Some(list) => list,
        None => {
            return None;
        },
    };
    let ids = sorted_set(&list);
    let mut faces: Vec<FaceEdges> = Vec::new();
    let mut i: usize = 0;
    while i < ids.len()
        invariant
            i <= ids.len(),
            indexes(index@, entities_view(entities@)),
            views == entities_view(entities@),
            faces@.len() == measured_among(views, forms@, ids@, i as nat).len(),
            forall|k: int|
                0 <= k < faces@.len() ==> {
                    let face = measured_among(views, forms@, ids@, i as nat)[k];
                    &&& (#[trigger] faces@[k]).face == face
                    &&& boundary(views, face) is Some
                    &&& faces@[k].edges@ == sorted_of(boundary(views, face)->Some_0)
                    &&& forms@.contains_key(face)
                },
        decreases ids.len() - i,
    {
        let face: u64 = ids[i];
        if forms.contains_key(&face) {
            if let Some(edges) = face_edges_ordered(face, entities, index) {
                faces.push(FaceEdges { face, edges: sorted_set(&edges) });
            }
        }
        i = i + 1;
    }
    Some(SolidFaces { total: list.len(), faces })
}

/// What was measured of one of some faces.
pub open spec fn form_at(faces: Seq<FaceEdges>, forms: Map<u64, FaceForm>, i: int) -> FaceForm {
    forms[faces[i].face]
}

/// Whether two faces of one form lie in a row along an axis.
pub open spec fn in_row(a: FaceForm, b: FaceForm, axis: usize) -> bool {
    &&& a.form == b.form
    &&& axis != 0 ==> a.center@[0] == b.center@[0]
    &&& axis != 1 ==> a.center@[1] == b.center@[1]
    &&& axis != 2 ==> a.center@[2] == b.center@[2]
}

/// Whether a face is the first one of its row.
pub open spec fn starts_row(
    faces: Seq<FaceEdges>,
    forms: Map<u64, FaceForm>,
    axis: usize,
    i: int,
) -> bool {
    forall|j: int|
        0 <= j < i ==> !in_row(#[trigger] form_at(faces, forms, j), form_at(faces, forms, i), axis)
}

/// The first faces of the rows among the first `n` faces.
pub open spec fn row_starts(
    faces: Seq<FaceEdges>,
    forms: Map<u64, FaceForm>,
    axis: usize,
    n: nat,
) -> Seq<int>
    decreases n,
{
    if n == 0 {
        Seq::empty()
    } else {
        let before = row_starts(faces, forms, axis, (n - 1) as nat);
        if starts_row(faces, forms, axis, n - 1) {
            before.push(n - 1)
        } else {
            before
        }
    }
}

/// Whether a face of a row lies at a place.
pub open spec fn row_has(
    faces: Seq<FaceEdges>,
    forms: Map<u64, FaceForm>,
    axis: usize,
    start: int,
    tick: i64,
) -> bool {
    exists|j: int|
        0 <= j < faces.len() && in_row(
            #[trigger] form_at(faces, forms, j),
            form_at(faces, forms, start),
            axis,
        ) && form_at(faces, forms, j).center@[axis as int] == tick
}

/// Whether a row holds the places of the faces in line with one face, in ascending order.
pub open spec fn is_row_of(
    faces: Seq<FaceEdges>,
    forms: Map<u64, FaceForm>,
    axis: usize,
    start: int,
    row: FaceRow,
) -> bool {
    &&& row.axis == axis
    &&& rises(row.ticks@)
    &&& forall|tick: i64| #[trigger]
        row.ticks@.contains(tick) == row_has(faces, forms, axis, start, tick)
}

/// Whether rows are those of some faces along an axis.
pub open spec fn are_rows_along(
    faces: Seq<FaceEdges>,
    forms: Map<u64, FaceForm>,
    axis: usize,
    n: nat,
    rows: Seq<FaceRow>,
) -> bool {
    let starts = row_starts(faces, forms, axis, n);
    &&& rows.len() == starts.len()
    &&& forall|k: int|
        0 <= k < rows.len() ==> is_row_of(faces, forms, axis, starts[k], #[trigger] rows[k])
}

/// Whether rows are those of some faces, along the three axes in turn.
pub open spec fn are_rows(
    faces: Seq<FaceEdges>,
    forms: Map<u64, FaceForm>,
    rows: Seq<FaceRow>,
) -> bool {
    exists|a: Seq<FaceRow>, b: Seq<FaceRow>, c: Seq<FaceRow>|
        rows == a + b + c && #[trigger] are_rows_along(faces, forms, 0, faces.len(), a)
            && #[trigger] are_rows_along(faces, forms, 1, faces.len(), b)
            && #[trigger] are_rows_along(faces, forms, 2, faces.len(), c)
}

/// Whether all faces were measured.
pub open spec fn all_measured(faces: Seq<FaceEdges>, forms: Map<u64, FaceForm>) -> bool {
    forall|i: int| 0 <= i < faces.len() ==> forms.contains_key((#[trigger] faces[i]).face)
}

fn find_form(faces: &Vec<FaceEdges>, forms: &HashMap<u64, FaceForm>, i: usize) -> (out: FaceForm)
    requires
        i < faces@.len(),
        all_measured(faces@, forms@),
    ensures
        out == form_at(faces@, forms@, i as int),
{
    assert(forms@.contains_key(faces@[i as int].face));
    match forms.get(&faces[i].face) {
        Some(form) => *form,
        None => {
            assert(false);
            FaceForm { form: 0, center: [0, 0, 0] }
        },
    }
}

fn are_in_row(a: &FaceForm, b: &FaceForm, axis: usize) -> (out: bool)
    ensures
        out == in_row(*a, *b, axis),
{
    a.form == b.form && (axis == 0 || a.center[0] == b.center[0]) && (axis == 1 || a.center[1]
        == b.center[1]) && (axis == 2 || a.center[2] == b.center[2])
}

fn is_row_start(
    faces: &Vec<FaceEdges>,
    forms: &HashMap<u64, FaceForm>,
    axis: usize,
    i: usize,
) -> (out: bool)
    requires
        i < faces@.len(),
        all_measured(faces@, forms@),
    ensures
        out == starts_row(faces@, forms@, axis, i as int),
{
    let own = find_form(faces, forms, i);
    let mut j: usize = 0;
    while j < i
        invariant
            j <= i,
            i < faces@.len(),
            all_measured(faces@, forms@),
            own == form_at(faces@, forms@, i as int),
            forall|k: int|
                0 <= k < j ==> !in_row(#[trigger] form_at(faces@, forms@, k), own, axis),
        decreases i - j,
    {
        let other = find_form(faces, forms, j);
        if are_in_row(&other, &own, axis) {
            assert(in_row(form_at(faces@, forms@, j as int), own, axis));
            return false;
        }
        j = j + 1;
    }
    true
}

fn make_row(
    faces: &Vec<FaceEdges>,
    forms: &HashMap<u64, FaceForm>,
    axis: usize,
    start: usize,
) -> (out: FaceRow)
    requires
        axis < 3,
        start < faces@.len(),
        all_measured(faces@, forms@),
    ensures
        is_row_of(faces@, forms@, axis, start as int, out),
{
    let own = find_form(faces, forms, start);
    let mut ticks: Vec<i64> = Vec::new();
    let mut from: Ghost<Seq<int>> = Ghost(Seq::empty());
    let mut j: usize = 0;
    while j < faces.len()
        invariant
            j <= faces.len(),
            axis < 3,
            all_measured(faces@, forms@),
            own == form_at(faces@, forms@, start as int),
            from@.len() == ticks@.len(),
            forall|k: int|
                0 <= k < ticks@.len() ==> 0 <= #[trigger] from@[k] < j && in_row(
                    form_at(faces@, forms@, from@[k]),
                    own,
                    axis,
                ) && form_at(faces@, forms@, from@[k]).center@[axis as int] == ticks@[k],
            forall|i: int|
                0 <= i < j && in_row(#[trigger] form_at(faces@, forms@, i), own, axis)
                    ==> ticks@.contains(form_at(faces@, forms@, i).center@[axis as int]),
        decreases faces.len() - j,
    {
        let other = find_form(faces, forms, j);
        if are_in_row(&other, &own, axis) {
            let ghost before = ticks@;
            ticks.push(other.center[axis]);
            proof {
                from@ = from@.push(j as int);
                assert(ticks@[before.len() as int] == other.center@[axis as int]);
                assert forall|i: int|
                    0 <= i < j + 1 && in_row(
                        #[trigger] form_at(faces@, forms@, i),
                        own,
                        axis,
                    ) implies ticks@.contains(form_at(faces@, forms@, i).center@[axis as int]) by {
                    if i < j {
                        let t = form_at(faces@, forms@, i).center@[axis as int];
                        let at = choose|at: int| 0 <= at < before.len() && before[at] == t;
                        assert(ticks@[at] == t);
                    }
                }
            }
        }
        j = j + 1;
    }
    let row = FaceRow { axis, ticks: distinct(&ticks) };
    assert forall|tick: i64| #[trigger] row.ticks@.contains(tick) == row_has(
        faces@,
        forms@,
        axis,
        start as int,
        tick,
    ) by {
        assert(row.ticks@.contains(tick) == ticks@.contains(tick));
        if ticks@.contains(tick) {
            let k = choose|k: int| 0 <= k < ticks@.len() && ticks@[k] == tick;
            let j = from@[k];
            assert(in_row(form_at(faces@, forms@, j), own, axis));
        }
    }
    row
}

fn rows_along(faces: &Vec<FaceEdges>, forms: &HashMap<u64, FaceForm>, axis: usize) -> (out: Vec<
    FaceRow,
>)
    requires
        axis < 3,
        all_measured(faces@, forms@),
    ensures
        are_rows_along(faces@, forms@, axis, faces@.len(), out@),
{
    let mut out: Vec<FaceRow> = Vec::new();
    let mut i: usize = 0;
    while i < faces.len()
        invariant
            i <= faces.len(),
            axis < 3,
            all_measured(faces@, forms@),
            are_rows_along(faces@, forms@, axis, i as nat, out@),
        decreases faces.len() - i,
    {
        if is_row_start(faces, forms, axis, i) {
            out.push(make_row(faces, forms, axis, i));
        }
        i = i + 1;
    }
    out
}

/// Puts faces of one form into rows along the three axes.
pub fn face_rows(faces: &Vec<FaceEdges>, forms: &HashMap<u64, FaceForm>) -> (out: Vec<FaceRow>)
    requires
        all_measured(faces@, forms@),
    ensures
        are_rows(faces@, forms@, out@),
        forall|i: int| 0 <= i < out@.len() ==> (#[trigger] out@[i]).axis < 3,
{
    let mut out = rows_along(faces, forms, 0);
    let mut more = rows_along(faces, forms, 1);
    let mut last = rows_along(faces, forms, 2);
    let ghost a = out@;
    let ghost b = more@;
    let ghost c = last@;
    out.append(&mut more);
    out.append(&mut last);
    assert(out@ =~= a + b + c);
    assert forall|i: int| 0 <= i < out@.len() implies (#[trigger] out@[i]).axis < 3 by {
        if i < a.len() {
            assert(out@[i] == a[i]);
        } else if i < a.len() + b.len() {
            assert(out@[i] == b[i - a.len()]);
        } else {
            assert(out@[i] == c[i - a.len() - b.len()]);
        }
    }
    out
}

/// Whether a lattice is the one that the faces of a solid follow. There must be enough faces,
/// enough of them must be measured, and enough rows must agree.
pub open spec fn is_candidate(
    total_faces: usize,
    measured_faces: usize,
    rows: Seq<FaceRow>,
    out: Option<LatticeCandidate>,
) -> bool {
    if total_faces < MIN_CHAIN_FACES || measured_faces < MIN_CHAIN_FACES {
        out is None
    } else {
        match out {
            Some(found) => {
                &&& found.votes >= MIN_LATTICE_FAMILY_VOTES
                &&& found.votes == votes_of(
                    rows,
                    found.axis_index,
                    found.pitch_ticks,
                    found.sites,
                )
                &&& forall|i: int, pitch: i64|
                    0 <= i < rows.len() && #[trigger] is_lattice(rows[i].ticks@, pitch as int)
                        ==> !comes_before(
                        votes_of(rows, rows[i].axis, pitch, rows[i].ticks@.len() as usize),
                        rows[i].ticks@.len() as usize,
                        pitch,
                        found,
                    )
            },
            None => forall|i: int, pitch: i64|
                0 <= i < rows.len() && #[trigger] is_lattice(rows[i].ticks@, pitch as int)
                    ==> votes_of(rows, rows[i].axis, pitch, rows[i].ticks@.len() as usize)
                    < MIN_LATTICE_FAMILY_VOTES,
        }
    }
}

/// A lattice with a vote is one that a row follows.
proof fn lemma_voted(rows: Seq<FaceRow>, axis: usize, pitch: i64, sites: usize)
    requires
        votes_of(rows, axis, pitch, sites) > 0,
    ensures
        exists|i: int| 0 <= i < rows.len() && #[trigger] votes_for(rows[i], axis, pitch, sites),
    decreases rows.len(),
{
    if votes_for(rows.last(), axis, pitch, sites) {
        assert(rows[rows.len() - 1] == rows.last());
    } else {
        let front = rows.drop_last();
        lemma_voted(front, axis, pitch, sites);
        let i = choose|i: int|
            0 <= i < front.len() && #[trigger] votes_for(front[i], axis, pitch, sites);
        assert(rows[i] == front[i]);
    }
}

/// Finds the lattice that the faces of a solid follow.
pub fn find_candidate(total_faces: usize, measured_faces: usize, rows: &Vec<FaceRow>) -> (out:
    Option<LatticeCandidate>)
    requires
        forall|i: int| 0 <= i < rows@.len() ==> (#[trigger] rows@[i]).axis < 3,
    ensures
        is_candidate(total_faces, measured_faces, rows@, out),
        out matches Some(found) ==> found.axis_index < 3 && found.pitch_ticks > 0 && found.sites
            >= 4,
{
    if total_faces < MIN_CHAIN_FACES || measured_faces < MIN_CHAIN_FACES {
        return None;
    }
    match infer_lattice(rows) {
        Some(found) => if found.votes >= MIN_LATTICE_FAMILY_VOTES {
            proof {
                lemma_voted(rows@, found.axis_index, found.pitch_ticks, found.sites);
                let i = choose|i: int|
                    0 <= i < rows@.len() && #[trigger] votes_for(
                        rows@[i],
                        found.axis_index,
                        found.pitch_ticks,
                        found.sites,
                    );
                assert(rows@[i].axis < 3);
            }
            Some(found)
        } else {
            None
        },
        None => None,
    }
}

/// Whether a face is no longer than the distance between sites.
pub open spec fn is_narrow(narrow: Map<u64, bool>, face: u64) -> bool {
    narrow.contains_key(face) && narrow[face]
}

/// The places along an axis of those of the first `n` faces that are not too long.
pub open spec fn seen_places(
    faces: Seq<FaceEdges>,
    forms: Map<u64, FaceForm>,
    narrow: Map<u64, bool>,
    axis: usize,
    n: nat,
) -> Seq<i64>
    decreases n,
{
    if n == 0 {
        Seq::empty()
    } else {
        let before = seen_places(faces, forms, narrow, axis, (n - 1) as nat);
        if is_narrow(narrow, faces[n - 1].face) {
            before.push(form_at(faces, forms, n - 1).center@[axis as int])
        } else {
            before
        }
    }
}

/// Whether windows are all those where a chain can lie, in ascending order.
pub open spec fn are_windows(
    ticks: Seq<i64>,
    pitch: i64,
    sites: usize,
    windows: Seq<Window>,
) -> bool {
    &&& forall|i: int, j: int|
        0 <= i < j < windows.len() ==> (#[trigger] windows[i]).start < (
        #[trigger] windows[j]).start
    &&& forall|i: int|
        0 <= i < windows.len() ==> ticks.contains((#[trigger] windows[i]).start) && is_window(
            ticks,
            pitch,
            sites as nat,
            windows[i].start,
        ) && windows[i].observations == observed(ticks, pitch, sites, windows[i].start)
    &&& forall|start: i64|
        ticks.contains(start) && #[trigger] is_window(ticks, pitch, sites as nat, start)
            ==> exists|i: int| 0 <= i < windows.len() && (#[trigger] windows[i]).start == start
}

/// Finds the windows where the chain of a solid can lie.
pub fn chain_windows(
    faces: &Vec<FaceEdges>,
    forms: &HashMap<u64, FaceForm>,
    narrow: &HashMap<u64, bool>,
    candidate: &LatticeCandidate,
) -> (out: Vec<Window>)
    requires
        all_measured(faces@, forms@),
        candidate.axis_index < 3,
        candidate.pitch_ticks > 0,
        candidate.sites > 0,
    ensures
        are_windows(
            seen_places(faces@, forms@, narrow@, candidate.axis_index, faces@.len()),
            candidate.pitch_ticks,
            candidate.sites,
            out@,
        ),
{
    let mut ticks: Vec<i64> = Vec::new();
    let mut i: usize = 0;
    while i < faces.len()
        invariant
            i <= faces.len(),
            all_measured(faces@, forms@),
            candidate.axis_index < 3,
            ticks@ == seen_places(faces@, forms@, narrow@, candidate.axis_index, i as nat),
        decreases faces.len() - i,
    {
        let close = match narrow.get(&faces[i].face) {
            Some(close) => *close,
            None => false,
        };
        if close {
            let form = find_form(faces, forms, i);
            ticks.push(form.center[candidate.axis_index]);
        }
        i = i + 1;
    }
    find_windows(&ticks, candidate.pitch_ticks, candidate.sites)
}

} // verus!
