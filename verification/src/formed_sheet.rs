//! Solids that look like formed sheets: many pairs of cylinders around one axis, and of parallel
//! planes, are as far apart as the sheet is thick.

use vstd::prelude::*;

use crate::sets::{sorted_of, sorted_set};

verus! {

/// The fewest pairs of cylinders.
pub const MIN_COAXIAL_PAIRS: usize = 3;

/// The fewest pairs of planes.
pub const MIN_PARALLEL_PLANE_PAIRS: usize = 2;

/// Two cylinders around one axis. The radii and the axis are the bit patterns of doubles, and
/// how far the cylinders are apart is in ticks.
#[derive(Debug, Clone, Copy)]
pub struct SheetCylinderPair {
    pub inner_face_id: u64,
    pub outer_face_id: u64,
    pub inner_radius: u64,
    pub outer_radius: u64,
    pub axis: [u64; 3],
    pub ticks: i64,
}

/// What was measured of a solid: its cylinders and planes, which of the cylinders lie around one
/// axis, and how far parallel planes are apart, in ticks.
#[derive(Debug)]
pub struct SheetMeasure {
    pub solid_id: u64,
    pub cylinders: usize,
    pub planes: usize,
    pub pairs: Vec<SheetCylinderPair>,
    pub separations: Vec<i64>,
}

/// A solid that looks like a formed sheet, and how thick it is in ticks.
#[derive(Debug)]
pub struct FormedSheetEvidence {
    pub solid_id: u64,
    pub thickness: i64,
    pub cylindrical_faces: usize,
    pub paired_cylindrical_faces: usize,
    pub coaxial_radius_pairs: usize,
    pub parallel_plane_pairs: usize,
    pub cylinder_pairs: Vec<SheetCylinderPair>,
}

#[verifier::ext_equal]
pub struct SheetView {
    pub solid_id: u64,
    pub thickness: i64,
    pub cylindrical_faces: usize,
    pub paired_cylindrical_faces: nat,
    pub coaxial_radius_pairs: nat,
    pub parallel_plane_pairs: nat,
    pub cylinder_pairs: Seq<SheetCylinderPair>,
}

impl View for FormedSheetEvidence {
    type V = SheetView;

    open spec fn view(&self) -> SheetView {
        SheetView {
            solid_id: self.solid_id,
            thickness: self.thickness,
            cylindrical_faces: self.cylindrical_faces,
            paired_cylindrical_faces: self.paired_cylindrical_faces as nat,
            coaxial_radius_pairs: self.coaxial_radius_pairs as nat,
            parallel_plane_pairs: self.parallel_plane_pairs as nat,
            cylinder_pairs: self.cylinder_pairs@,
        }
    }
}

/// The pairs of cylinders that are as far apart.
pub open spec fn pairs_at(pairs: Seq<SheetCylinderPair>, ticks: i64) -> Seq<SheetCylinderPair>
    decreases pairs.len(),
{
    if pairs.len() == 0 {
        Seq::empty()
    } else {
        let before = pairs_at(pairs.drop_last(), ticks);
        if pairs.last().ticks == ticks {
            before.push(pairs.last())
        } else {
            before
        }
    }
}

/// How many pairs of planes are as far apart.
pub open spec fn planes_at(separations: Seq<i64>, ticks: i64) -> nat
    decreases separations.len(),
{
    if separations.len() == 0 {
        0
    } else {
        planes_at(separations.drop_last(), ticks) + if separations.last() == ticks {
            1nat
        } else {
            0
        }
    }
}

/// Whether cylinders are apart by a distance that is one.
pub open spec fn is_distance(measure: SheetMeasure, ticks: i64) -> bool {
    ticks > 0 && exists|i: int|
        0 <= i < measure.pairs@.len() && (#[trigger] measure.pairs@[i]).ticks == ticks
}

/// Whether more speaks for one thickness than for another: more pairs of cylinders, more pairs
/// of planes, or less thickness.
pub open spec fn is_likelier(measure: SheetMeasure, a: i64, b: i64) -> bool {
    let pairs_a = pairs_at(measure.pairs@, a).len();
    let pairs_b = pairs_at(measure.pairs@, b).len();
    let planes_a = planes_at(measure.separations@, a);
    let planes_b = planes_at(measure.separations@, b);
    if pairs_a != pairs_b {
        pairs_a > pairs_b
    } else if planes_a != planes_b {
        planes_a > planes_b
    } else {
        a < b
    }
}

/// Whether a thickness is the likeliest.
pub open spec fn is_likeliest(measure: SheetMeasure, ticks: i64) -> bool {
    is_distance(measure, ticks) && forall|other: i64| #[trigger]
        is_distance(measure, other) ==> other == ticks || is_likelier(measure, ticks, other)
}

/// The faces of pairs.
pub open spec fn paired(pairs: Seq<SheetCylinderPair>) -> Seq<u64>
    decreases pairs.len(),
{
    if pairs.len() == 0 {
        Seq::empty()
    } else {
        paired(pairs.drop_last()).push(pairs.last().inner_face_id).push(pairs.last().outer_face_id)
    }
}

/// Whether a solid has a thickness, and enough speaks for it.
pub open spec fn is_thick(measure: SheetMeasure, ticks: i64) -> bool {
    &&& measure.cylinders >= 2 * MIN_COAXIAL_PAIRS
    &&& measure.planes >= 2
    &&& is_likeliest(measure, ticks)
    &&& pairs_at(measure.pairs@, ticks).len() >= MIN_COAXIAL_PAIRS
    &&& planes_at(measure.separations@, ticks) >= MIN_PARALLEL_PLANE_PAIRS
}

/// What is known of a solid with a thickness.
pub open spec fn sheet_of(measure: SheetMeasure, ticks: i64) -> SheetView {
    let pairs = pairs_at(measure.pairs@, ticks);
    SheetView {
        solid_id: measure.solid_id,
        thickness: ticks,
        cylindrical_faces: measure.cylinders,
        paired_cylindrical_faces: sorted_of(paired(pairs)).len(),
        coaxial_radius_pairs: pairs.len(),
        parallel_plane_pairs: planes_at(measure.separations@, ticks),
        cylinder_pairs: pairs,
    }
}

/// The thickness of a solid that looks like a sheet.
pub open spec fn thickness_of(measure: SheetMeasure) -> Option<i64> {
    if exists|ticks: i64| is_thick(measure, ticks) {
        Some(choose|ticks: i64| is_thick(measure, ticks))
    } else {
        None
    }
}

/// A solid has at most one thickness.
pub proof fn law_thickness_is_unique(measure: SheetMeasure, a: i64, b: i64)
    requires
        is_thick(measure, a),
        is_thick(measure, b),
    ensures
        a == b,
{
    assert(is_distance(measure, a) && is_distance(measure, b));
}

/// Whether a sheet comes behind another: a smaller part of its cylinders is paired, or as large
/// a part with fewer pairs, or as many and its id is larger.
pub open spec fn comes_behind(a: SheetView, b: SheetView) -> bool {
    let part_a = a.paired_cylindrical_faces * b.cylindrical_faces as nat;
    let part_b = b.paired_cylindrical_faces * a.cylindrical_faces as nat;
    if part_a != part_b {
        part_a < part_b
    } else if a.coaxial_radius_pairs != b.coaxial_radius_pairs {
        a.coaxial_radius_pairs < b.coaxial_radius_pairs
    } else {
        a.solid_id > b.solid_id
    }
}

pub open spec fn put_sheet(sorted: Seq<SheetView>, item: SheetView) -> Seq<SheetView>
    decreases sorted.len(),
{
    if sorted.len() == 0 || !comes_behind(sorted.last(), item) {
        sorted.push(item)
    } else {
        put_sheet(sorted.drop_last(), item).push(sorted.last())
    }
}

/// The sheets among the first `n` solids, in order.
pub open spec fn sheets_of(measures: Seq<SheetMeasure>, n: nat) -> Seq<SheetView>
    decreases n,
{
    if n == 0 {
        Seq::empty()
    } else {
        let before = sheets_of(measures, (n - 1) as nat);
        match thickness_of(measures[n - 1]) {
            Some(ticks) => put_sheet(before, sheet_of(measures[n - 1], ticks)),
            None => before,
        }
    }
}

pub open spec fn sheets_view(sheets: Seq<FormedSheetEvidence>) -> Seq<SheetView> {
    Seq::new(sheets.len(), |i: int| sheets[i]@)
}

fn find_pairs(pairs: &Vec<SheetCylinderPair>, ticks: i64) -> (out: Vec<SheetCylinderPair>)
    ensures
        out@ == pairs_at(pairs@, ticks),
        out@.len() <= pairs@.len(),
{
    let mut out: Vec<SheetCylinderPair> = Vec::new();
    let mut i: usize = 0;
    assert(pairs@.take(0) =~= Seq::empty());
    while i < pairs.len()
        invariant
            i <= pairs.len(),
            out@.len() <= i,
            out@ == pairs_at(pairs@.take(i as int), ticks),
        decreases pairs.len() - i,
    {
        assert(pairs@.take(i + 1).drop_last() =~= pairs@.take(i as int));
        if pairs[i].ticks == ticks {
            out.push(pairs[i]);
        }
        i = i + 1;
    }
    assert(pairs@.take(pairs@.len() as int) =~= pairs@);
    out
}

fn count_planes(separations: &Vec<i64>, ticks: i64) -> (n: usize)
    ensures
        n == planes_at(separations@, ticks),
{
    let mut n: usize = 0;
    let mut i: usize = 0;
    assert(separations@.take(0) =~= Seq::empty());
    while i < separations.len()
        invariant
            i <= separations.len(),
            n <= i,
            n == planes_at(separations@.take(i as int), ticks),
        decreases separations.len() - i,
    {
        assert(separations@.take(i + 1).drop_last() =~= separations@.take(i as int));
        if separations[i] == ticks {
            n = n + 1;
        }
        i = i + 1;
    }
    assert(separations@.take(separations@.len() as int) =~= separations@);
    n
}

fn find_likelier(measure: &SheetMeasure, a: i64, b: i64) -> (out: bool)
    ensures
        out == is_likelier(*measure, a, b),
{
    let pairs_a: usize = find_pairs(&measure.pairs, a).len();
    let pairs_b: usize = find_pairs(&measure.pairs, b).len();
    let planes_a: usize = count_planes(&measure.separations, a);
    let planes_b: usize = count_planes(&measure.separations, b);
    if pairs_a != pairs_b {
        pairs_a > pairs_b
    } else if planes_a != planes_b {
        planes_a > planes_b
    } else {
        a < b
    }
}

/// The likeliest thickness.
fn find_likeliest(measure: &SheetMeasure) -> (out: Option<i64>)
    ensures
        match out {
            Some(ticks) => is_likeliest(*measure, ticks),
            None => forall|ticks: i64| !#[trigger] is_distance(*measure, ticks),
        },
{
    let pairs = &measure.pairs;
    let mut best: Option<i64> = None;
    let mut i: usize = 0;
    while i < pairs.len()
        invariant
            i <= pairs.len(),
            *pairs == measure.pairs,
            best matches Some(ticks) ==> is_distance(*measure, ticks),
            forall|j: int|
                0 <= j < i && (#[trigger] pairs@[j]).ticks > 0 ==> (best matches Some(ticks)
                    && (pairs@[j].ticks == ticks || is_likelier(
                    *measure,
                    ticks,
                    pairs@[j].ticks,
                ))),
        decreases pairs.len() - i,
    {
        let ticks: i64 = pairs[i].ticks;
        if ticks > 0 {
            assert(measure.pairs@[i as int].ticks == ticks);
            match best {
                None => {
                    best = Some(ticks);
                },
                Some(now) => {
                    if find_likelier(measure, ticks, now) {
                        best = Some(ticks);
                    }
                },
            }
        }
        i = i + 1;
    }
    proof {
        assert forall|other: i64| #[trigger] is_distance(*measure, other) implies (
        best matches Some(ticks) && (other == ticks || is_likelier(*measure, ticks, other))) by {
            let j = choose|j: int|
                0 <= j < measure.pairs@.len() && (#[trigger] measure.pairs@[j]).ticks == other;
            assert(pairs@[j].ticks == other);
        }
    }
    best
}

fn find_paired(pairs: &Vec<SheetCylinderPair>) -> (out: Vec<u64>)
    ensures
        out@ == paired(pairs@),
{
    let mut out: Vec<u64> = Vec::new();
    let mut i: usize = 0;
    assert(pairs@.take(0) =~= Seq::empty());
    while i < pairs.len()
        invariant
            i <= pairs.len(),
            out@ == paired(pairs@.take(i as int)),
        decreases pairs.len() - i,
    {
        assert(pairs@.take(i + 1).drop_last() =~= pairs@.take(i as int));
        out.push(pairs[i].inner_face_id);
        out.push(pairs[i].outer_face_id);
        i = i + 1;
    }
    assert(pairs@.take(pairs@.len() as int) =~= pairs@);
    out
}

/// What is known of a solid that looks like a sheet.
fn find_sheet(measure: &SheetMeasure) -> (out: Option<FormedSheetEvidence>)
    ensures
        match out {
            Some(sheet) => thickness_of(*measure) matches Some(ticks) && sheet@ == sheet_of(
                *measure,
                ticks,
            ),
            None => thickness_of(*measure) is None,
        },
{
    if measure.cylinders < 2 * MIN_COAXIAL_PAIRS || measure.planes < 2 {
        return None;
    }
    let ticks: i64 = match find_likeliest(measure) {
        Some(ticks) => ticks,
        None => {
            return None;
        },
    };
    let pairs = find_pairs(&measure.pairs, ticks);
    let planes: usize = count_planes(&measure.separations, ticks);
    if pairs.len() < MIN_COAXIAL_PAIRS || planes < MIN_PARALLEL_PLANE_PAIRS {
        proof {
            assert forall|other: i64| !is_thick(*measure, other) by {
                if is_thick(*measure, other) {
                    assert(is_distance(*measure, other) && is_distance(*measure, ticks));
                }
            }
        }
        return None;
    }
    proof {
        assert(is_thick(*measure, ticks));
        law_thickness_is_unique(*measure, ticks, thickness_of(*measure)->Some_0);
    }
    let faces = sorted_set(&find_paired(&pairs));
    Some(
        FormedSheetEvidence {
            solid_id: measure.solid_id,
            thickness: ticks,
            cylindrical_faces: measure.cylinders,
            paired_cylindrical_faces: faces.len(),
            coaxial_radius_pairs: pairs.len(),
            parallel_plane_pairs: planes,
            cylinder_pairs: pairs,
        },
    )
}

fn is_behind(a: &FormedSheetEvidence, b: &FormedSheetEvidence) -> (out: bool)
    ensures
        out == comes_behind(a@, b@),
{
    proof {
        lemma_product(a.paired_cylindrical_faces, b.cylindrical_faces);
        lemma_product(b.paired_cylindrical_faces, a.cylindrical_faces);
    }
    let part_a: u128 = a.paired_cylindrical_faces as u128 * b.cylindrical_faces as u128;
    let part_b: u128 = b.paired_cylindrical_faces as u128 * a.cylindrical_faces as u128;
    if part_a != part_b {
        part_a < part_b
    } else if a.coaxial_radius_pairs != b.coaxial_radius_pairs {
        a.coaxial_radius_pairs < b.coaxial_radius_pairs
    } else {
        a.solid_id > b.solid_id
    }
}

proof fn lemma_product(a: usize, b: usize)
    ensures
        0 <= a * b <= u128::MAX,
{
    assert(0 <= a * b <= 0xffff_ffff_ffff_ffff * 0xffff_ffff_ffff_ffff) by (nonlinear_arith)
        requires
            0 <= a <= 0xffff_ffff_ffff_ffff,
            0 <= b <= 0xffff_ffff_ffff_ffff,
    ;
}

proof fn lemma_put_sheet_at(sorted: Seq<SheetView>, item: SheetView, at: int)
    requires
        0 <= at <= sorted.len(),
        forall|k: int| at <= k < sorted.len() ==> comes_behind(#[trigger] sorted[k], item),
        at > 0 ==> !comes_behind(sorted[at - 1], item),
    ensures
        put_sheet(sorted, item) == sorted.insert(at, item),
    decreases sorted.len(),
{
    if at == sorted.len() {
        assert(sorted.insert(at, item) =~= sorted.push(item));
    } else {
        lemma_put_sheet_at(sorted.drop_last(), item, at);
        assert(sorted.insert(at, item) =~= sorted.drop_last().insert(at, item).push(sorted.last()));
    }
}

fn insert_sheet(sorted: &mut Vec<FormedSheetEvidence>, item: FormedSheetEvidence)
    ensures
        sheets_view(final(sorted)@) == put_sheet(sheets_view(old(sorted)@), item@),
{
    let ghost views = sheets_view(sorted@);
    let ghost added = item@;
    let mut at: usize = sorted.len();
    while at > 0 && is_behind(&sorted[at - 1], &item)
        invariant
            at <= sorted.len(),
            views == sheets_view(sorted@),
            added == item@,
            forall|k: int| at <= k < sorted.len() ==> comes_behind(#[trigger] views[k], added),
        decreases at,
    {
        assert(views[at - 1] == sorted@[at - 1]@);
        at = at - 1;
    }
    proof {
        if at > 0 {
            assert(views[at - 1] == sorted@[at - 1]@);
        }
        lemma_put_sheet_at(views, added, at as int);
        assert(sheets_view(sorted@.insert(at as int, item)) =~= views.insert(at as int, added));
    }
    sorted.insert(at, item);
}

/// The solids that look like formed sheets, those first of which the largest part of the
/// cylinders is paired.
pub fn detect_formed_sheet_evidence(measures: &Vec<SheetMeasure>) -> (out: Vec<FormedSheetEvidence>)
    ensures
        sheets_view(out@) == sheets_of(measures@, measures@.len()),
{
    let mut out: Vec<FormedSheetEvidence> = Vec::new();
    let mut i: usize = 0;
    assert(sheets_view(out@) =~= Seq::empty());
    while i < measures.len()
        invariant
            i <= measures.len(),
            sheets_view(out@) == sheets_of(measures@, i as nat),
        decreases measures.len() - i,
    {
        if let Some(sheet) = find_sheet(&measures[i]) {
            insert_sheet(&mut out, sheet);
        }
        i = i + 1;
    }
    out
}

} // verus!
