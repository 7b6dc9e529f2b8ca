//! Finding of solids in which groups of faces repeat as often as the instances of a row.

use std::collections::HashMap;
use vstd::prelude::*;

use crate::ast::{entities_view, entity_id, EntityInstance, EntityView};
use crate::face_coalesce::append_ids;
use crate::graph::{
    build_index, find_record, find_typed, indexes, nth_entity_ref, nth_entity_ref_list, nth_ref,
    nth_ref_list, record_at, simple_record, simple_record_of, typed_record,
};
use crate::instances::{insert_id, inserted};
use crate::minify::capped;
use crate::pattern_resize::{find_full, is_full};
use crate::patterns::InstancePattern;
use crate::periodic_bodies::{
    families_view, BodyView, FamilyView, PeriodicBodyPattern, PeriodicFaceFamily,
};
use crate::sets::{list_contains, sorted_of, sorted_set};
use crate::text::same_text;

verus! {

broadcast use vstd::std_specs::hash::group_hash_axioms;

/// The fewest instances of a row that a solid can follow.
pub const LEAST_SITES: usize = 4;

/// The fewest families of faces that must repeat.
pub const LEAST_FAMILIES: usize = 4;

/// What was measured of a row: its axis, the distance between neighbours, and the earlier rows
/// that agree with it in both. Numbers are the bit patterns of doubles.
#[derive(Debug)]
pub struct RowFit {
    pub axis: [u64; 3],
    pub pitch: u64,
    pub like: Vec<usize>,
}

/// What was measured of a face along a row: a number that it shares with the faces of the same
/// form at the same phase, how far along it lies, and whether it reaches over all sites.
#[derive(Debug, Clone, Copy, PartialEq, Eq, Structural)]
pub struct FaceMeasure {
    pub family: u64,
    pub place: u64,
    pub long: bool,
}

/// What was measured of the faces of one family: whether they stand at the same distance and
/// are of the same length, and where the family comes among others.
#[derive(Debug, Clone, Copy)]
pub struct FamilyMeasure {
    pub regular: bool,
    pub rank: u64,
    pub phase: u64,
    pub span: u64,
    pub orthogonal_center: [u64; 2],
    pub bounds: usize,
    pub edges: usize,
    pub residual: u64,
}

/// What was measured of a solid along a row. A face that cannot be measured has no entry.
pub struct SolidMeasure {
    pub faces: HashMap<u64, FaceMeasure>,
    pub families: HashMap<u64, FamilyMeasure>,
}

/// Whether instances stand in one row without a gap, and enough of them.
pub open spec fn is_row(pattern: InstancePattern) -> bool {
    &&& pattern.dimension == 1
    &&& pattern.item_ids@.len() >= LEAST_SITES
    &&& pattern.grid_shape@.len() == 1
    &&& pattern.grid_shape@[0] == pattern.item_ids@.len()
    &&& is_full(pattern.fill_ratio)
    &&& pattern.basis@.len() == 1
}

pub open spec fn fit_at(fits: Seq<Option<RowFit>>, i: int) -> Option<RowFit> {
    if 0 <= i < fits.len() {
        fits[i]
    } else {
        None
    }
}

/// Whether a pattern is a row that was measured.
pub open spec fn is_usable(
    patterns: Seq<InstancePattern>,
    fits: Seq<Option<RowFit>>,
    i: int,
) -> bool {
    is_row(patterns[i]) && fit_at(fits, i) is Some
}

/// Whether a row is like an earlier one.
pub open spec fn agrees(
    patterns: Seq<InstancePattern>,
    fits: Seq<Option<RowFit>>,
    first: usize,
    i: int,
) -> bool {
    patterns[first as int].item_ids@.len() == patterns[i].item_ids@.len() && (fit_at(
        fits,
        i,
    ) matches Some(fit) && fit.like@.contains(first))
}

/// The first of some earlier rows that a row is like.
pub open spec fn kin(
    patterns: Seq<InstancePattern>,
    fits: Seq<Option<RowFit>>,
    found: Seq<usize>,
    i: int,
) -> Option<usize>
    decreases found.len(),
{
    if found.len() == 0 {
        None
    } else {
        match kin(patterns, fits, found.drop_last(), i) {
            Some(first) => Some(first),
            None => if agrees(patterns, fits, found.last(), i) {
                Some(found.last())
            } else {
                None
            },
        }
    }
}

/// The rows among the first `n` patterns that are like no earlier one.
pub open spec fn lattices(
    patterns: Seq<InstancePattern>,
    fits: Seq<Option<RowFit>>,
    n: nat,
) -> Seq<usize>
    decreases n,
{
    if n == 0 {
        Seq::empty()
    } else {
        let before = lattices(patterns, fits, (n - 1) as nat);
        if is_usable(patterns, fits, n - 1) && kin(patterns, fits, before, n - 1) is None {
            before.push((n - 1) as usize)
        } else {
            before
        }
    }
}

/// The rows among the first `n` patterns that go with one of them.
pub open spec fn coupled(
    patterns: Seq<InstancePattern>,
    fits: Seq<Option<RowFit>>,
    first: usize,
    n: nat,
) -> Seq<usize>
    decreases n,
{
    if n == 0 {
        Seq::empty()
    } else {
        let before = coupled(patterns, fits, first, (n - 1) as nat);
        if is_usable(patterns, fits, n - 1) && (first == n - 1 || kin(
            patterns,
            fits,
            lattices(patterns, fits, (n - 1) as nat),
            n - 1,
        ) == Some(first)) {
            before.push((n - 1) as usize)
        } else {
            before
        }
    }
}

/// A list in order of keys with an item put in behind those whose key is not larger.
pub open spec fn put(sorted: Seq<(u64, u64)>, item: (u64, u64)) -> Seq<(u64, u64)>
    decreases sorted.len(),
{
    if sorted.len() == 0 || sorted.last().0 <= item.0 {
        sorted.push(item)
    } else {
        put(sorted.drop_last(), item).push(sorted.last())
    }
}

pub open spec fn items_of(sorted: Seq<(u64, u64)>) -> Seq<u64> {
    Seq::new(sorted.len(), |i: int| sorted[i].1)
}

/// The faces among the first `n` that belong to a family, each with its place, in order.
pub open spec fn family_faces(
    measures: Map<u64, FaceMeasure>,
    faces: Seq<u64>,
    family: u64,
    n: nat,
) -> Seq<(u64, u64)>
    decreases n,
{
    if n == 0 {
        Seq::empty()
    } else {
        let before = family_faces(measures, faces, family, (n - 1) as nat);
        let face = faces[n - 1];
        if measures.contains_key(face) && measures[face].family == family {
            put(before, (measures[face].place, face))
        } else {
            before
        }
    }
}

/// Whether no earlier face is of the family of a face.
pub open spec fn is_new_family(measures: Map<u64, FaceMeasure>, faces: Seq<u64>, i: int) -> bool {
    measures.contains_key(faces[i]) && forall|j: int|
        0 <= j < i ==> !(measures.contains_key(#[trigger] faces[j]) && measures[faces[j]].family
            == measures[faces[i]].family)
}

/// Whether a family has one face at each site.
pub open spec fn repeats(measure: SolidMeasure, faces: Seq<u64>, sites: usize, family: u64) -> bool {
    family_faces(measure.faces@, faces, family, faces.len()).len() == sites
        && measure.families@.contains_key(family) && measure.families@[family].regular
}

/// The families among the first `n` faces that repeat, each with its rank, in order.
pub open spec fn repeated(measure: SolidMeasure, faces: Seq<u64>, sites: usize, n: nat) -> Seq<
    (u64, u64),
>
    decreases n,
{
    if n == 0 {
        Seq::empty()
    } else {
        let before = repeated(measure, faces, sites, (n - 1) as nat);
        let family = measure.faces@[faces[n - 1]].family;
        if is_new_family(measure.faces@, faces, n - 1) && repeats(measure, faces, sites, family) {
            put(before, (measure.families@[family].rank, family))
        } else {
            before
        }
    }
}

/// The faces of families.
pub open spec fn faces_of(measures: Map<u64, FaceMeasure>, faces: Seq<u64>, families: Seq<u64>) -> Seq<
    u64,
>
    decreases families.len(),
{
    if families.len() == 0 {
        Seq::empty()
    } else {
        faces_of(measures, faces, families.drop_last()) + items_of(
            family_faces(measures, faces, families.last(), faces.len()),
        )
    }
}

pub open spec fn family_view(measure: SolidMeasure, faces: Seq<u64>, family: u64) -> FamilyView {
    let about = measure.families@[family];
    FamilyView {
        face_ids: items_of(family_faces(measure.faces@, faces, family, faces.len())),
        phase: about.phase,
        span: about.span,
        orthogonal_center: about.orthogonal_center,
        bounds: about.bounds,
        edges: about.edges,
        max_residual: about.residual,
    }
}

/// The largest residual of families.
pub open spec fn largest_residual(measure: SolidMeasure, families: Seq<u64>) -> u64
    decreases families.len(),
{
    if families.len() == 0 {
        0
    } else {
        let before = largest_residual(measure, families.drop_last());
        let last = measure.families@[families.last()].residual;
        if last > before {
            last
        } else {
            before
        }
    }
}

/// The faces among the first `n` that do not repeat and are long, or those that are not, in
/// order.
pub open spec fn apart(
    measures: Map<u64, FaceMeasure>,
    faces: Seq<u64>,
    repeating: Seq<u64>,
    long: bool,
    n: nat,
) -> Seq<u64>
    decreases n,
{
    if n == 0 {
        Seq::empty()
    } else {
        let before = apart(measures, faces, repeating, long, (n - 1) as nat);
        let face = faces[n - 1];
        if !repeating.contains(face) && long == (measures.contains_key(face)
            && measures[face].long) {
            inserted(before, face)
        } else {
            before
        }
    }
}

/// A solid whose faces repeat along a row; nothing where too few do.
pub open spec fn body_of(
    solid: u64,
    faces: Seq<u64>,
    sites: usize,
    rows: Seq<usize>,
    fit: RowFit,
    measure: SolidMeasure,
) -> Option<BodyView> {
    let families = items_of(repeated(measure, faces, sites, faces.len()));
    let repeating = sorted_of(faces_of(measure.faces@, faces, families));
    let least = capped((sites * 4) as nat);
    if faces.len() < least || families.len() < LEAST_FAMILIES || repeating.len() < least
        || sites == 0 || repeating.len() % sites as nat != 0 {
        None
    } else {
        Some(
            BodyView {
                solid_id: solid,
                axis: fit.axis,
                pitch: fit.pitch,
                sites,
                coupled_instance_patterns: rows,
                repeat_face_families: Seq::new(
                    families.len(),
                    |i: int| family_view(measure, faces, families[i]),
                ),
                repeat_faces: repeating.len() as usize,
                faces_per_site: (repeating.len() / sites as nat) as usize,
                stretch_face_ids: apart(measure.faces@, faces, repeating, true, faces.len()),
                fixed_face_ids: apart(measure.faces@, faces, repeating, false, faces.len()),
                total_faces: faces.len() as usize,
                max_residual: largest_residual(measure, families),
            },
        )
    }
}

/// The faces of a solid with a closed shell.
pub open spec fn closed_faces(entities: Seq<EntityView>, solid: u64) -> Option<Seq<u64>> {
    match record_at(entities, solid) {
        None => None,
        Some(record) => match nth_ref(record, 1) {
            None => None,
            Some(shell) => match typed_record(entities, shell, "CLOSED_SHELL"@) {
                None => None,
                Some(shell_record) => nth_ref_list(shell_record, 1),
            },
        },
    }
}

/// The solids among the first `n` entities.
pub open spec fn solids_of(entities: Seq<EntityView>, n: nat) -> Seq<u64>
    decreases n,
{
    if n == 0 {
        Seq::empty()
    } else {
        let before = solids_of(entities, (n - 1) as nat);
        if simple_record(entities[n - 1]) matches Some(record) && record.name
            == "MANIFOLD_SOLID_BREP"@ {
            before.push(entities[n - 1].id())
        } else {
            before
        }
    }
}

/// A solid that was found, and the place of its lattice among the lattices.
#[verifier::ext_equal]
pub struct FoundView {
    pub lattice: int,
    pub body: BodyView,
}

/// What a solid is along a lattice.
pub open spec fn look(
    entities: Seq<EntityView>,
    patterns: Seq<InstancePattern>,
    fits: Seq<Option<RowFit>>,
    measures: Seq<Vec<SolidMeasure>>,
    lattice: int,
    solid: int,
) -> Option<BodyView> {
    let first = lattices(patterns, fits, patterns.len())[lattice];
    let id = solids_of(entities, entities.len())[solid];
    match closed_faces(entities, id) {
        Some(faces) if lattice < measures.len() && solid < measures[lattice]@.len() => body_of(
            id,
            faces,
            patterns[first as int].item_ids@.len() as usize,
            coupled(patterns, fits, first, patterns.len()),
            fit_at(fits, first as int)->Some_0,
            measures[lattice]@[solid],
        ),
        _ => None,
    }
}

/// Whether a solid that was found comes behind another: fewer of its faces repeat, or as many
/// and its id is larger.
pub open spec fn comes_behind(a: FoundView, b: FoundView) -> bool {
    a.body.repeat_faces < b.body.repeat_faces || (a.body.repeat_faces == b.body.repeat_faces
        && a.body.solid_id > b.body.solid_id)
}

pub open spec fn put_found(sorted: Seq<FoundView>, item: FoundView) -> Seq<FoundView>
    decreases sorted.len(),
{
    if sorted.len() == 0 || !comes_behind(sorted.last(), item) {
        sorted.push(item)
    } else {
        put_found(sorted.drop_last(), item).push(sorted.last())
    }
}

/// What is found of the first `n` solids along a lattice, put in among what was found before.
pub open spec fn found_along(
    entities: Seq<EntityView>,
    patterns: Seq<InstancePattern>,
    fits: Seq<Option<RowFit>>,
    measures: Seq<Vec<SolidMeasure>>,
    before: Seq<FoundView>,
    lattice: int,
    n: nat,
) -> Seq<FoundView>
    decreases n,
{
    if n == 0 {
        before
    } else {
        let rest = found_along(entities, patterns, fits, measures, before, lattice, (n - 1) as nat);
        match look(entities, patterns, fits, measures, lattice, n - 1) {
            Some(body) => put_found(rest, FoundView { lattice, body }),
            None => rest,
        }
    }
}

/// What is found along the first `n` lattices, in order.
pub open spec fn found_in(
    entities: Seq<EntityView>,
    patterns: Seq<InstancePattern>,
    fits: Seq<Option<RowFit>>,
    measures: Seq<Vec<SolidMeasure>>,
    n: nat,
) -> Seq<FoundView>
    decreases n,
{
    if n == 0 {
        Seq::empty()
    } else {
        found_along(
            entities,
            patterns,
            fits,
            measures,
            found_in(entities, patterns, fits, measures, (n - 1) as nat),
            n - 1,
            solids_of(entities, entities.len()).len(),
        )
    }
}

/// Whether two solids that were found are one along one lattice.
pub open spec fn is_same(a: FoundView, b: FoundView) -> bool {
    a.lattice == b.lattice && a.body.solid_id == b.body.solid_id
}

/// What was found, without what follows itself.
pub open spec fn once_each(found: Seq<FoundView>) -> Seq<FoundView>
    decreases found.len(),
{
    if found.len() == 0 {
        Seq::empty()
    } else {
        let rest = once_each(found.drop_last());
        if rest.len() > 0 && is_same(rest.last(), found.last()) {
            rest
        } else {
            rest.push(found.last())
        }
    }
}

fn find_row(pattern: &InstancePattern) -> (out: bool)
    ensures
        out == is_row(*pattern),
{
    pattern.dimension == 1 && pattern.item_ids.len() >= LEAST_SITES && pattern.grid_shape.len()
        == 1 && pattern.grid_shape[0] == pattern.item_ids.len() && find_full(pattern.fill_ratio)
        && pattern.basis.len() == 1
}

fn find_usable(patterns: &Vec<InstancePattern>, fits: &Vec<Option<RowFit>>, i: usize) -> (out: bool)
    requires
        i < patterns.len(),
    ensures
        out == is_usable(patterns@, fits@, i as int),
{
    find_row(&patterns[i]) && i < fits.len() && fits[i].is_some()
}

fn holds_place(list: &Vec<usize>, value: usize) -> (out: bool)
    ensures
        out == list@.contains(value),
{
    let mut i: usize = 0;
    while i < list.len()
        invariant
            i <= list.len(),
            forall|j: int| 0 <= j < i ==> #[trigger] list@[j] != value,
        decreases list.len() - i,
    {
        if list[i] == value {
            assert(list@[i as int] == value);
            return true;
        }
        i = i + 1;
    }
    false
}

proof fn lemma_kin_found(
    patterns: Seq<InstancePattern>,
    fits: Seq<Option<RowFit>>,
    found: Seq<usize>,
    i: int,
    n: int,
)
    requires
        0 <= n <= found.len(),
        kin(patterns, fits, found.take(n), i) is Some,
    ensures
        kin(patterns, fits, found, i) == kin(patterns, fits, found.take(n), i),
    decreases found.len(),
{
    if n < found.len() {
        assert(found.drop_last().take(n) =~= found.take(n));
        lemma_kin_found(patterns, fits, found.drop_last(), i, n);
    } else {
        assert(found.take(n) =~= found);
    }
}

/// The first of some earlier rows that a row is like.
fn find_kin(
    patterns: &Vec<InstancePattern>,
    fits: &Vec<Option<RowFit>>,
    found: &Vec<usize>,
    i: usize,
) -> (out: Option<usize>)
    requires
        i < patterns.len(),
        forall|k: int| 0 <= k < found.len() ==> #[trigger] found@[k] < patterns.len(),
    ensures
        out == kin(patterns@, fits@, found@, i as int),
{
    let mut k: usize = 0;
    assert(found@.take(0) =~= Seq::empty());
    while k < found.len()
        invariant
            k <= found.len(),
            i < patterns.len(),
            forall|k: int| 0 <= k < found.len() ==> #[trigger] found@[k] < patterns.len(),
            kin(patterns@, fits@, found@.take(k as int), i as int) is None,
        decreases found.len() - k,
    {
        let first: usize = found[k];
        assert(found@.take(k + 1).drop_last() =~= found@.take(k as int));
        let like = if i < fits.len() {
            match &fits[i] {
                Some(fit) => holds_place(&fit.like, first),
                None => false,
            }
        } else {
            false
        };
        if like && patterns[first].item_ids.len() == patterns[i].item_ids.len() {
            assert(agrees(patterns@, fits@, first, i as int));
            proof {
                lemma_kin_found(patterns@, fits@, found@, i as int, k + 1);
            }
            return Some(first);
        }
        k = k + 1;
    }
    assert(found@.take(found@.len() as int) =~= found@);
    None
}

/// The rows that are like no earlier one, by their places.
pub fn lattice_candidates(patterns: &Vec<InstancePattern>, fits: &Vec<Option<RowFit>>) -> (out: Vec<
    usize,
>)
    ensures
        out@ == lattices(patterns@, fits@, patterns@.len()),
        forall|k: int|
            0 <= k < out@.len() ==> (#[trigger] out@[k]) < patterns@.len() && is_usable(
                patterns@,
                fits@,
                out@[k] as int,
            ),
{
    let mut out: Vec<usize> = Vec::new();
    let mut i: usize = 0;
    while i < patterns.len()
        invariant
            i <= patterns.len(),
            out@ == lattices(patterns@, fits@, i as nat),
            forall|k: int|
                0 <= k < out@.len() ==> (#[trigger] out@[k]) < patterns@.len() && is_usable(
                    patterns@,
                    fits@,
                    out@[k] as int,
                ),
        decreases patterns.len() - i,
    {
        if find_usable(patterns, fits, i) && find_kin(patterns, fits, &out, i).is_none() {
            out.push(i);
        }
        i = i + 1;
    }
    out
}

/// The rows that go with one of them, by their places.
fn find_coupled(patterns: &Vec<InstancePattern>, fits: &Vec<Option<RowFit>>, first: usize) -> (out:
    Vec<usize>)
    ensures
        out@ == coupled(patterns@, fits@, first, patterns@.len()),
{
    let mut out: Vec<usize> = Vec::new();
    let mut before: Vec<usize> = Vec::new();
    let mut i: usize = 0;
    while i < patterns.len()
        invariant
            i <= patterns.len(),
            before@ == lattices(patterns@, fits@, i as nat),
            forall|k: int| 0 <= k < before@.len() ==> (#[trigger] before@[k]) < patterns@.len(),
            out@ == coupled(patterns@, fits@, first, i as nat),
        decreases patterns.len() - i,
    {
        if find_usable(patterns, fits, i) {
            let like = find_kin(patterns, fits, &before, i);
            if first == i || like == Some(first) {
                out.push(i);
            }
            if like.is_none() {
                before.push(i);
            }
        }
        i = i + 1;
    }
    out
}

proof fn lemma_put_at(sorted: Seq<(u64, u64)>, item: (u64, u64), at: int)
    requires
        0 <= at <= sorted.len(),
        forall|k: int| at <= k < sorted.len() ==> (#[trigger] sorted[k]).0 > item.0,
        at > 0 ==> sorted[at - 1].0 <= item.0,
    ensures
        put(sorted, item) == sorted.insert(at, item),
    decreases sorted.len(),
{
    if at == sorted.len() {
        assert(sorted.insert(at, item) =~= sorted.push(item));
    } else {
        lemma_put_at(sorted.drop_last(), item, at);
        assert(sorted.insert(at, item) =~= sorted.drop_last().insert(at, item).push(sorted.last()));
    }
}

pub(crate) fn put_item(sorted: &mut Vec<(u64, u64)>, item: (u64, u64))
    ensures
        final(sorted)@ == put(old(sorted)@, item),
{
    let mut at: usize = sorted.len();
    while at > 0 && sorted[at - 1].0 > item.0
        invariant
            at <= sorted.len(),
            forall|k: int| at <= k < sorted.len() ==> (#[trigger] sorted@[k]).0 > item.0,
        decreases at,
    {
        at = at - 1;
    }
    proof {
        lemma_put_at(sorted@, item, at as int);
    }
    sorted.insert(at, item);
}

fn find_items(sorted: &Vec<(u64, u64)>) -> (out: Vec<u64>)
    ensures
        out@ == items_of(sorted@),
{
    let mut out: Vec<u64> = Vec::new();
    let mut i: usize = 0;
    while i < sorted.len()
        invariant
            i <= sorted.len(),
            out.len() == i,
            forall|j: int| 0 <= j < i ==> out@[j] == (#[trigger] sorted@[j]).1,
        decreases sorted.len() - i,
    {
        out.push(sorted[i].1);
        i = i + 1;
    }
    assert(out@ =~= items_of(sorted@));
    out
}

fn find_family_faces(measures: &HashMap<u64, FaceMeasure>, faces: &Vec<u64>, family: u64) -> (out:
    Vec<(u64, u64)>)
    ensures
        out@ == family_faces(measures@, faces@, family, faces@.len()),
{
    let mut out: Vec<(u64, u64)> = Vec::new();
    let mut i: usize = 0;
    while i < faces.len()
        invariant
            i <= faces.len(),
            out@ == family_faces(measures@, faces@, family, i as nat),
        decreases faces.len() - i,
    {
        let face: u64 = faces[i];
        if let Some(measure) = measures.get(&face) {
            if measure.family == family {
                put_item(&mut out, (measure.place, face));
            }
        }
        i = i + 1;
    }
    out
}

fn find_new_family(measures: &HashMap<u64, FaceMeasure>, faces: &Vec<u64>, i: usize) -> (out:
    Option<u64>)
    requires
        i < faces.len(),
    ensures
        out is Some == is_new_family(measures@, faces@, i as int),
        out matches Some(family) ==> measures@[faces@[i as int]].family == family,
{
    let family: u64 = match measures.get(&faces[i]) {
        Some(measure) => measure.family,
        None => {
            return None;
        },
    };
    let mut j: usize = 0;
    while j < i
        invariant
            j <= i < faces.len(),
            forall|k: int|
                0 <= k < j ==> !(measures@.contains_key(#[trigger] faces@[k])
                    && measures@[faces@[k]].family == family),
            measures@.contains_key(faces@[i as int]),
            measures@[faces@[i as int]].family == family,
        decreases i - j,
    {
        if let Some(measure) = measures.get(&faces[j]) {
            if measure.family == family {
                assert(measures@.contains_key(faces@[j as int]) && measures@[faces@[j as int]].family
                    == family);
                return None;
            }
        }
        j = j + 1;
    }
    Some(family)
}

/// The families that repeat, each with its rank.
fn find_repeated(measure: &SolidMeasure, faces: &Vec<u64>, sites: usize) -> (out: Vec<(u64, u64)>)
    ensures
        out@ == repeated(*measure, faces@, sites, faces@.len()),
        forall|k: int|
            0 <= k < out@.len() ==> measure.families@.contains_key((#[trigger] out@[k]).1),
{
    let mut out: Vec<(u64, u64)> = Vec::new();
    let mut i: usize = 0;
    while i < faces.len()
        invariant
            i <= faces.len(),
            out@ == repeated(*measure, faces@, sites, i as nat),
            forall|k: int|
                0 <= k < out@.len() ==> measure.families@.contains_key((#[trigger] out@[k]).1),
        decreases faces.len() - i,
    {
        if let Some(family) = find_new_family(&measure.faces, faces, i) {
            if let Some(about) = measure.families.get(&family) {
                if about.regular && find_family_faces(&measure.faces, faces, family).len()
                    == sites {
                    let ghost before = out@;
                    put_item(&mut out, (about.rank, family));
                    proof {
                        lemma_put_members(before, (about.rank, family));
                        assert forall|k: int| 0 <= k < out@.len() implies measure.families@.contains_key(
                            (#[trigger] out@[k]).1,
                        ) by {
                            assert(out@.contains(out@[k]));
                            if before.contains(out@[k]) {
                                let j = before.index_of(out@[k]);
                                assert(measure.families@.contains_key(before[j].1));
                            }
                        }
                    }
                }
            }
        }
        i = i + 1;
    }
    out
}

proof fn lemma_put_members(sorted: Seq<(u64, u64)>, item: (u64, u64))
    ensures
        forall|x: (u64, u64)| #[trigger]
            put(sorted, item).contains(x) ==> x == item || sorted.contains(x),
    decreases sorted.len(),
{
    assert forall|x: (u64, u64)| #[trigger] put(sorted, item).contains(x) implies x == item
        || sorted.contains(x) by {
        let all = put(sorted, item);
        let k = all.index_of(x);
        if sorted.len() == 0 || sorted.last().0 <= item.0 {
            if k < sorted.len() {
                assert(sorted[k] == x);
            }
        } else {
            lemma_put_members(sorted.drop_last(), item);
            let front = put(sorted.drop_last(), item);
            if k < front.len() {
                assert(front.contains(front[k]));
                if sorted.drop_last().contains(x) {
                    let j = sorted.drop_last().index_of(x);
                    assert(sorted[j] == x);
                }
            } else {
                assert(x == sorted[sorted.len() - 1]);
            }
        }
    }
}

/// The faces among the others that are long, or those that are not.
fn find_apart(
    measures: &HashMap<u64, FaceMeasure>,
    faces: &Vec<u64>,
    repeating: &Vec<u64>,
    long: bool,
) -> (out: Vec<u64>)
    ensures
        out@ == apart(measures@, faces@, repeating@, long, faces@.len()),
{
    let mut out: Vec<u64> = Vec::new();
    let mut i: usize = 0;
    while i < faces.len()
        invariant
            i <= faces.len(),
            out@ == apart(measures@, faces@, repeating@, long, i as nat),
        decreases faces.len() - i,
    {
        let face: u64 = faces[i];
        let reaches = match measures.get(&face) {
            Some(measure) => measure.long,
            None => false,
        };
        if long == reaches && !list_contains(repeating, face) {
            insert_id(&mut out, face);
        }
        i = i + 1;
    }
    out
}

/// A solid whose faces repeat along a row.
fn find_body(
    solid: u64,
    faces: &Vec<u64>,
    sites: usize,
    rows: Vec<usize>,
    fit: &RowFit,
    measure: &SolidMeasure,
) -> (out: Option<PeriodicBodyPattern>)
    ensures
        out is Some == body_of(solid, faces@, sites, rows@, *fit, *measure) is Some,
        out matches Some(body) ==> body_of(solid, faces@, sites, rows@, *fit, *measure) == Some(
            body@,
        ),
{
    let least: usize = match sites.checked_mul(4) {
        Some(least) => least,
        None => usize::MAX,
    };
    let ranked = find_repeated(measure, faces, sites);
    let families = find_items(&ranked);
    let mut all: Vec<u64> = Vec::new();
    let mut list: Vec<PeriodicFaceFamily> = Vec::new();
    let mut residual: u64 = 0;
    let mut i: usize = 0;
    assert(families@.take(0) =~= Seq::empty());
    while i < families.len()
        invariant
            i <= families.len(),
            families@ == items_of(ranked@),
            forall|k: int|
                0 <= k < ranked@.len() ==> measure.families@.contains_key((#[trigger] ranked@[k]).1),
            all@ == faces_of(measure.faces@, faces@, families@.take(i as int)),
            residual == largest_residual(*measure, families@.take(i as int)),
            list.len() == i,
            forall|k: int|
                0 <= k < i ==> (#[trigger] list@[k])@ == family_view(
                    *measure,
                    faces@,
                    families@[k],
                ),
        decreases families.len() - i,
    {
        let family: u64 = families[i];
        assert(ranked@[i as int].1 == family);
        assert(families@.take(i + 1).drop_last() =~= families@.take(i as int));
        let members = find_family_faces(&measure.faces, faces, family);
        let face_ids = find_items(&members);
        append_ids(&mut all, &face_ids);
        if let Some(about) = measure.families.get(&family) {
            if about.residual > residual {
                residual = about.residual;
            }
            list.push(
                PeriodicFaceFamily {
                    face_ids,
                    phase: about.phase,
                    span: about.span,
                    orthogonal_center: about.orthogonal_center,
                    bounds: about.bounds,
                    edges: about.edges,
                    max_residual: about.residual,
                },
            );
        }
        i = i + 1;
    }
    assert(families@.take(families@.len() as int) =~= families@);
    let repeating = sorted_set(&all);
    if faces.len() < least || families.len() < LEAST_FAMILIES || repeating.len() < least || sites
        == 0 || repeating.len() % sites != 0 {
        return None;
    }
    let body = PeriodicBodyPattern {
        solid_id: solid,
        axis: fit.axis,
        pitch: fit.pitch,
        sites,
        coupled_instance_patterns: rows,
        repeat_face_families: list,
        repeat_faces: repeating.len(),
        faces_per_site: repeating.len() / sites,
        stretch_face_ids: find_apart(&measure.faces, faces, &repeating, true),
        fixed_face_ids: find_apart(&measure.faces, faces, &repeating, false),
        total_faces: faces.len(),
        max_residual: residual,
    };
    assert(families_view(body.repeat_face_families@) =~= Seq::new(
        families@.len(),
        |i: int| family_view(*measure, faces@, families@[i]),
    ));
    Some(body)
}

/// The faces of a solid with a closed shell.
pub(crate) fn find_closed_faces(solid: u64, entities: &Vec<EntityInstance>, index: &HashMap<u64, usize>) -> (out:
    Option<Vec<u64>>)
    requires
        indexes(index@, entities_view(entities@)),
    ensures
        out is Some == closed_faces(entities_view(entities@), solid) is Some,
        out matches Some(faces) ==> closed_faces(entities_view(entities@), solid) == Some(faces@),
{
    match find_record(entities, index, solid) {
        None => None,
        Some(record) => match nth_entity_ref(record, 1) {
            None => None,
            Some(shell) => match find_typed(entities, index, shell, "CLOSED_SHELL") {
                None => None,
                Some(shell_record) => nth_entity_ref_list(shell_record, 1),
            },
        },
    }
}

/// The solids among entities, in order.
pub fn find_solids(entities: &Vec<EntityInstance>) -> (out: Vec<u64>)
    ensures
        out@ == solids_of(entities_view(entities@), entities@.len()),
{
    let ghost views = entities_view(entities@);
    let mut out: Vec<u64> = Vec::new();
    let mut i: usize = 0;
    while i < entities.len()
        invariant
            i <= entities.len(),
            views == entities_view(entities@),
            out@ == solids_of(views, i as nat),
        decreases entities.len() - i,
    {
        assert(views[i as int] == entities@[i as int]@);
        if let Some(record) = simple_record_of(&entities[i]) {
            if same_text(record.name.as_str(), "MANIFOLD_SOLID_BREP") {
                out.push(entity_id(&entities[i]));
            }
        }
        i = i + 1;
    }
    out
}

/// A solid that was found, and the place of its lattice among the lattices.
struct Found {
    lattice: usize,
    body: PeriodicBodyPattern,
}

impl View for Found {
    type V = FoundView;

    closed spec fn view(&self) -> FoundView {
        FoundView { lattice: self.lattice as int, body: self.body@ }
    }
}

spec fn found_view(found: Seq<Found>) -> Seq<FoundView> {
    Seq::new(found.len(), |i: int| found[i]@)
}

proof fn lemma_put_found_at(sorted: Seq<FoundView>, item: FoundView, at: int)
    requires
        0 <= at <= sorted.len(),
        forall|k: int| at <= k < sorted.len() ==> comes_behind(#[trigger] sorted[k], item),
        at > 0 ==> !comes_behind(sorted[at - 1], item),
    ensures
        put_found(sorted, item) == sorted.insert(at, item),
    decreases sorted.len(),
{
    if at == sorted.len() {
        assert(sorted.insert(at, item) =~= sorted.push(item));
    } else {
        lemma_put_found_at(sorted.drop_last(), item, at);
        assert(sorted.insert(at, item) =~= sorted.drop_last().insert(at, item).push(sorted.last()));
    }
}

fn is_behind(a: &PeriodicBodyPattern, b: &PeriodicBodyPattern) -> (out: bool)
    ensures
        forall|i: int, j: int| #[trigger]
            comes_behind(FoundView { lattice: i, body: a@ }, FoundView { lattice: j, body: b@ })
                == out,
{
    a.repeat_faces < b.repeat_faces || (a.repeat_faces == b.repeat_faces && a.solid_id
        > b.solid_id)
}

fn insert_found(sorted: &mut Vec<Found>, item: Found)
    ensures
        found_view(final(sorted)@) == put_found(found_view(old(sorted)@), item@),
{
    let ghost views = found_view(sorted@);
    let ghost added = item@;
    let mut at: usize = sorted.len();
    while at > 0 && is_behind(&sorted[at - 1].body, &item.body)
        invariant
            at <= sorted.len(),
            views == found_view(sorted@),
            added == item@,
            forall|k: int| at <= k < sorted.len() ==> comes_behind(#[trigger] views[k], added),
        decreases at,
    {
        assert(views[at - 1] == sorted@[at - 1]@);
        assert(comes_behind(views[at - 1], added));
        at = at - 1;
    }
    proof {
        if at > 0 {
            assert(views[at - 1] == sorted@[at - 1]@);
        }
        lemma_put_found_at(views, added, at as int);
        assert(found_view(sorted@.insert(at as int, item)) =~= views.insert(at as int, added));
    }
    sorted.insert(at, item);
}

/// Finds the solids in which groups of faces repeat along a lattice of instances. For each
/// lattice, in the order of `lattice_candidates`, there is a measure of each solid, in the order
/// of `find_solids`; where one is missing, the solid is not looked at.
pub fn detect_periodic_bodies(
    entities: &Vec<EntityInstance>,
    patterns: &Vec<InstancePattern>,
    fits: &Vec<Option<RowFit>>,
    measures: &Vec<Vec<SolidMeasure>>,
) -> (out: Vec<PeriodicBodyPattern>)
    ensures
        ({
            let found = once_each(
                found_in(
                    entities_view(entities@),
                    patterns@,
                    fits@,
                    measures@,
                    lattices(patterns@, fits@, patterns@.len()).len(),
                ),
            );
            &&& out@.len() == found.len()
            &&& forall|i: int| 0 <= i < out@.len() ==> (#[trigger] out@[i])@ == found[i].body
        }),
{
    let ghost views = entities_view(entities@);
    let index = build_index(entities);
    let solids = find_solids(entities);
    let firsts = lattice_candidates(patterns, fits);
    assert(views.len() == entities@.len());
    let mut found: Vec<Found> = Vec::new();
    let mut k: usize = 0;
    assert(found_view(found@) =~= Seq::empty());
    while k < firsts.len()
        invariant
            k <= firsts.len(),
            views == entities_view(entities@),
            indexes(index@, views),
            solids@ == solids_of(views, views.len()),
            firsts@ == lattices(patterns@, fits@, patterns@.len()),
            forall|k: int|
                0 <= k < firsts@.len() ==> (#[trigger] firsts@[k]) < patterns@.len() && is_usable(
                    patterns@,
                    fits@,
                    firsts@[k] as int,
                ),
            found_view(found@) == found_in(views, patterns@, fits@, measures@, k as nat),
        decreases firsts.len() - k,
    {
        let first: usize = firsts[k];
        let sites: usize = patterns[first].item_ids.len();
        let ghost before = found_view(found@);
        let mut s: usize = 0;
        while s < solids.len()
            invariant
                s <= solids.len(),
                k < firsts.len(),
                first == firsts@[k as int],
                first < patterns@.len(),
                first < fits@.len(),
                fits@[first as int] is Some,
                sites == patterns@[first as int].item_ids@.len(),
                views == entities_view(entities@),
                indexes(index@, views),
                solids@ == solids_of(views, views.len()),
                firsts@ == lattices(patterns@, fits@, patterns@.len()),
                found_view(found@) == found_along(
                    views,
                    patterns@,
                    fits@,
                    measures@,
                    before,
                    k as int,
                    s as nat,
                ),
            decreases solids.len() - s,
        {
            if k < measures.len() && s < measures[k].len() {
                if let Some(faces) = find_closed_faces(solids[s], entities, &index) {
                    let rows = find_coupled(patterns, fits, first);
                    if let Some(fit) = &fits[first] {
                        match find_body(solids[s], &faces, sites, rows, fit, &measures[k][s]) {
                            Some(body) => insert_found(&mut found, Found { lattice: k, body }),
                            None => {},
                        }
                    }
                }
            }
            s = s + 1;
        }
        k = k + 1;
    }
    let ghost all = found_view(found@);
    let mut out: Vec<PeriodicBodyPattern> = Vec::new();
    let mut last: Option<usize> = None;
    let ghost mut kept: Seq<FoundView> = Seq::empty();
    let ghost mut n: int = 0;
    assert(all.take(0) =~= Seq::empty());
    assert(all.skip(0) =~= all);
    while found.len() > 0
        invariant
            0 <= n <= all.len(),
            found_view(found@) == all.skip(n),
            kept == once_each(all.take(n)),
            out@.len() == kept.len(),
            forall|i: int| 0 <= i < out@.len() ==> (#[trigger] out@[i])@ == kept[i].body,
            last is None == (kept.len() == 0),
            last matches Some(lattice) ==> lattice == kept.last().lattice,
        decreases found.len(),
    {
        let ghost views = found_view(found@);
        assert(views.len() == found@.len());
        assert(views[0] == found@[0]@);
        assert(views[0] == all[n]);
        let ghost before = found@;
        let item = found.remove(0);
        assert forall|i: int| 0 <= i < found@.len() implies found_view(found@)[i] == all.skip(n + 1)[i] by {
            assert(found@[i] == before[i + 1]);
            assert(views[i + 1] == before[i + 1]@);
        }
        assert(found_view(found@) =~= all.skip(n + 1));
        assert(all.take(n + 1).drop_last() =~= all.take(n));
        let again = match last {
            Some(lattice) => lattice == item.lattice && out[out.len() - 1].solid_id
                == item.body.solid_id,
            None => false,
        };
        assert(again == (kept.len() > 0 && is_same(kept.last(), all[n])));
        if !again {
            proof {
                kept = kept.push(item@);
            }
            last = Some(item.lattice);
            out.push(item.body);
        }
        proof {
            n = n + 1;
        }
    }
    assert(all.skip(n).len() == 0);
    assert(all.take(n) =~= all);
    out
}

proof fn lemma_repeated(measure: SolidMeasure, faces: Seq<u64>, sites: usize, n: nat)
    requires
        n <= faces.len(),
    ensures
        forall|k: int|
            0 <= k < repeated(measure, faces, sites, n).len() ==> repeats(
                measure,
                faces,
                sites,
                (#[trigger] repeated(measure, faces, sites, n)[k]).1,
            ),
    decreases n,
{
    if n > 0 {
        lemma_repeated(measure, faces, sites, (n - 1) as nat);
        let before = repeated(measure, faces, sites, (n - 1) as nat);
        let family = measure.faces@[faces[n - 1]].family;
        if is_new_family(measure.faces@, faces, n - 1) && repeats(measure, faces, sites, family) {
            let item = (measure.families@[family].rank, family);
            lemma_put_members(before, item);
            let all = put(before, item);
            assert forall|k: int| 0 <= k < all.len() implies repeats(
                measure,
                faces,
                sites,
                (#[trigger] all[k]).1,
            ) by {
                assert(all.contains(all[k]));
                if all[k] != item {
                    let j = before.index_of(all[k]);
                    assert(before[j] == all[k]);
                }
            }
        }
    }
}

/// In a solid that is found, each family has one face at each site, and as many faces repeat at
/// each site. As many faces as repeat must fit in a machine word.
pub proof fn law_sites_are_alike(
    solid: u64,
    faces: Seq<u64>,
    sites: usize,
    rows: Seq<usize>,
    fit: RowFit,
    measure: SolidMeasure,
)
    requires
        body_of(solid, faces, sites, rows, fit, measure) is Some,
        sorted_of(
            faces_of(
                measure.faces@,
                faces,
                items_of(repeated(measure, faces, sites, faces.len())),
            ),
        ).len() <= usize::MAX,
    ensures
        ({
            let body = body_of(solid, faces, sites, rows, fit, measure)->Some_0;
            &&& forall|i: int|
                0 <= i < body.repeat_face_families.len()
                    ==> (#[trigger] body.repeat_face_families[i]).face_ids.len() == sites
            &&& body.faces_per_site * sites == body.repeat_faces
        }),
{
    lemma_repeated(measure, faces, sites, faces.len());
    let ranked = repeated(measure, faces, sites, faces.len());
    let body = body_of(solid, faces, sites, rows, fit, measure)->Some_0;
    assert forall|i: int| 0 <= i < body.repeat_face_families.len() implies (
    #[trigger] body.repeat_face_families[i]).face_ids.len() == sites by {
        assert(repeats(measure, faces, sites, ranked[i].1));
    }
    let repeating = sorted_of(faces_of(measure.faces@, faces, items_of(ranked)));
    vstd::arithmetic::div_mod::lemma_fundamental_div_mod(repeating.len() as int, sites as int);
    vstd::arithmetic::mul::lemma_mul_is_commutative(
        sites as int,
        repeating.len() as int / sites as int,
    );
}

} // verus!
