//! Resizing of a row of instances.

use std::collections::{HashMap, HashSet};
use vstd::prelude::*;

use crate::ast::{
    clone_entities, entities_view, lemma_list_view, params_view, EntityInstance, EntityView, Name,
    ParamView, Parameter,
};
use crate::brep::{push_refs, with_param};
use crate::face_coalesce::{append_ids, ref_list_param, ref_param, ref_params};
use crate::face_plan::{face_styles, listed, same_ids, styles_by_target};
use crate::graph::{
    build_index, dead, descendants, entity_ref, entity_ref_value, find_dead, find_record, indexes,
    largest_id, lemma_position, max_id, nth, nth_entity_ref, nth_entity_ref_list, nth_param,
    nth_ref, nth_ref_list, position, push_simple, reachable, record_at, ref_value, remove_entities,
    replace_entity, simple_entity, simple_record, without,
};
use crate::instances::{find_mention, join_entities, mentions, presented};
use crate::partition_plan::{find_sole_style, holds_all, lists_all, sole_style};
use crate::partition_recovery::meets;
use crate::patterns::{InstancePattern, PatternAnchor, PatternResizeStats};
use crate::placements::{fresh, room, triple};
use crate::sets::set_of;
use crate::text::same_text;

verus! {

broadcast use vstd::std_specs::hash::group_hash_axioms;

/// Why a row cannot be resized.
#[derive(Debug, Clone, Copy, PartialEq, Eq, Structural)]
pub enum PatternError {
    NotOneDimensional,
    NoInstanceLeft,
    TooFewInstances,
    NotFullyOccupied,
    NotContiguous,
    MissingItem(u64),
    ComplexItem(u64),
    NoMappedItem(u64),
    MalformedItem(u64),
    OtherMap(u64),
    NoTarget(u64),
    MissingTarget(u64),
    ComplexTarget(u64),
    NoPlacement(u64),
    MalformedTarget(u64),
    IncompleteTarget(u64),
    AxesDiffer,
    NoStyle(u64),
    SeveralStyles(u64),
    StylesDiffer,
    MissingParent,
    ComplexParent,
    MalformedParent,
    NoItemList,
    ItemNotListed,
    OutOfIds,
    /// A place that an instance is to have was not measured.
    NotMeasured,
}

/// The place of an instance in a new row. The coordinates are kept as their shortest decimal
/// texts.
#[derive(Debug)]
pub struct Site {
    pub x: String,
    pub y: String,
    pub z: String,
}

#[verifier::ext_equal]
pub struct SiteView {
    pub x: Seq<char>,
    pub y: Seq<char>,
    pub z: Seq<char>,
}

impl View for Site {
    type V = SiteView;

    open spec fn view(&self) -> SiteView {
        SiteView { x: self.x@, y: self.y@, z: self.z@ }
    }
}

pub open spec fn sites_view(sites: Seq<Site>) -> Seq<SiteView> {
    Seq::new(sites.len(), |i: int| sites[i]@)
}

fn copy_site(site: &Site) -> (out: Site)
    ensures
        out@ == site@,
{
    Site { x: site.x.clone(), y: site.y.clone(), z: site.z.clone() }
}

/// How far the first instance of a row moves, in halves of the distance between instances. The
/// start stays, the middle, or the end.
pub open spec fn shift_of(anchor: PatternAnchor, old_count: int, new_count: int) -> int {
    match anchor {
        PatternAnchor::Start => 0,
        PatternAnchor::Center => old_count - new_count,
        PatternAnchor::End => 2 * (old_count - new_count),
    }
}

/// How far the first instance of a row moves, in halves of the distance between instances.
pub fn row_shift(anchor: PatternAnchor, old_count: usize, new_count: usize) -> (halves: i128)
    ensures
        halves == shift_of(anchor, old_count as int, new_count as int),
{
    match anchor {
        PatternAnchor::Start => 0,
        PatternAnchor::Center => old_count as i128 - new_count as i128,
        PatternAnchor::End => 2 * (old_count as i128 - new_count as i128),
    }
}

/// Places along a row, each half the distance between instances from the one before it. The
/// first instance of the row is at half-step zero; the places start at half-step `first`.
#[derive(Debug)]
pub struct HalfSteps {
    pub first: i128,
    pub places: Vec<Site>,
}

impl HalfSteps {
    /// Whether the place at a half-step was measured.
    pub open spec fn has(&self, half: int) -> bool {
        0 <= half - self.first < self.places@.len()
    }

    /// The place at a half-step.
    pub open spec fn at(&self, half: int) -> SiteView {
        self.places@[half - self.first]@
    }

    /// Whether the places of a row with another number of instances were measured.
    pub open spec fn has_row(&self, anchor: PatternAnchor, old_count: int, new_count: int) -> bool {
        forall|k: int|
            0 <= k < new_count ==> #[trigger] self.has(
                shift_of(anchor, old_count, new_count) + 2 * k,
            )
    }

    /// The places of a row with another number of instances.
    pub open spec fn row(
        &self,
        anchor: PatternAnchor,
        old_count: int,
        new_count: int,
    ) -> Seq<SiteView> {
        Seq::new(
            new_count as nat,
            |k: int| self.at(shift_of(anchor, old_count, new_count) + 2 * k),
        )
    }
}

/// Finds the places of a row with another number of instances, where all were measured.
pub fn row_sites(
    steps: &HalfSteps,
    anchor: PatternAnchor,
    old_count: usize,
    new_count: usize,
) -> (out: Option<Vec<Site>>)
    ensures
        out is Some == steps.has_row(anchor, old_count as int, new_count as int),
        out matches Some(sites) ==> sites_view(sites@) == steps.row(
            anchor,
            old_count as int,
            new_count as int,
        ),
{
    let shift: i128 = row_shift(anchor, old_count, new_count);
    let ghost from = shift_of(anchor, old_count as int, new_count as int);
    let mut out: Vec<Site> = Vec::new();
    let mut k: usize = 0;
    while k < new_count
        invariant
            k <= new_count,
            shift == from,
            from == shift_of(anchor, old_count as int, new_count as int),
            out@.len() == k,
            forall|j: int| 0 <= j < k ==> #[trigger] steps.has(from + 2 * j),
            forall|j: int| 0 <= j < k ==> (#[trigger] out@[j])@ == steps.at(from + 2 * j),
        decreases new_count - k,
    {
        let half: i128 = shift + 2 * (k as i128);
        assert(steps.has(from + 2 * k) == (0 <= half - steps.first < steps.places@.len()));
        let at: i128 = match half.checked_sub(steps.first) {
            Some(at) => at,
            None => {
                assert(steps.places.len() <= usize::MAX);
                assert(!steps.has(from + 2 * k));
                return None;
            },
        };
        if at < 0 || at >= steps.places.len() as i128 {
            assert(!steps.has(from + 2 * k));
            return None;
        }
        out.push(copy_site(&steps.places[at as usize]));
        k = k + 1;
    }
    assert(sites_view(out@) =~= steps.row(anchor, old_count as int, new_count as int));
    Some(out)
}

/// With the start kept, an instance that is left stays where it was; with the end kept, it is
/// the last one that does; and with the middle kept, the row moves half as far as with the end.
pub proof fn law_ends_stay(old_count: int, new_count: int)
    ensures
        shift_of(PatternAnchor::Start, old_count, new_count) == 0,
        shift_of(PatternAnchor::End, old_count, new_count) + 2 * (new_count - 1) == 2 * (old_count
            - 1),
        shift_of(PatternAnchor::Center, old_count, new_count) + (new_count - 1) == old_count - 1,
        2 * shift_of(PatternAnchor::Center, old_count, new_count) == shift_of(
            PatternAnchor::End,
            old_count,
            new_count,
        ),
{
}

/// The bit patterns of the doubles at most 1e-12 below and above one.
pub const LOW_FULL: u64 = 0x3FEF_FFFF_FFFF_DCD1;

pub const HIGH_FULL: u64 = 0x3FF0_0000_0000_1197;

/// Whether a ratio is one, up to 1e-12. What is no number counts too.
pub open spec fn is_full(ratio: u64) -> bool {
    ||| LOW_FULL <= ratio <= HIGH_FULL
    ||| 0x7FF0_0000_0000_0000 < ratio < 0x8000_0000_0000_0000
    ||| 0xFFF0_0000_0000_0000 < ratio
}

/// Whether the sites of a row are those from zero on.
pub open spec fn is_contiguous(occupancy: Seq<[i64; 2]>) -> bool {
    forall|i: int|
        0 <= i < occupancy.len() ==> (#[trigger] occupancy[i])@[0] == i && occupancy[i]@[1] == 0
}

/// Why a pattern is no row that can be resized.
pub open spec fn row_fault(pattern: InstancePattern, new_count: usize) -> Option<PatternError> {
    if pattern.dimension != 1 || pattern.basis@.len() != 1 || pattern.grid_shape@.len() != 1 {
        Some(PatternError::NotOneDimensional)
    } else if new_count == 0 {
        Some(PatternError::NoInstanceLeft)
    } else if pattern.item_ids@.len() < 2 || pattern.occupancy@.len() != pattern.item_ids@.len() {
        Some(PatternError::TooFewInstances)
    } else if pattern.grid_shape@[0] != pattern.item_ids@.len() || !is_full(pattern.fill_ratio) {
        Some(PatternError::NotFullyOccupied)
    } else if !is_contiguous(pattern.occupancy@) {
        Some(PatternError::NotContiguous)
    } else {
        None
    }
}

pub open spec fn is_zero_text(s: Seq<char>) -> bool {
    s == "0"@ || s == "-0"@
}

/// Whether two parameters have the same value. The two zeros are the same number.
pub open spec fn same_value(a: ParamView, b: ParamView) -> bool
    decreases a,
{
    match (a, b) {
        (ParamView::Real(x), ParamView::Real(y)) => x == y || is_zero_text(x) && is_zero_text(y),
        (ParamView::List(x), ParamView::List(y)) => same_values(x, y),
        (
            ParamView::Typed { keyword: k, parameter: p },
            ParamView::Typed { keyword: l, parameter: q },
        ) => k == l && same_value(*p, *q),
        _ => a == b,
    }
}

/// Whether the parameters of two lists have the same values.
pub open spec fn same_values(a: Seq<ParamView>, b: Seq<ParamView>) -> bool
    decreases a,
{
    if a.len() == 0 || b.len() == 0 {
        a.len() == b.len()
    } else {
        same_values(a.drop_last(), b.drop_last()) && same_value(a.last(), b.last())
    }
}

proof fn lemma_values_differ(a: Seq<ParamView>, b: Seq<ParamView>, n: int)
    requires
        a.len() == b.len(),
        0 <= n <= a.len(),
        !same_values(a.take(n), b.take(n)),
    ensures
        !same_values(a, b),
    decreases a.len(),
{
    if n < a.len() {
        assert(a.drop_last().take(n) =~= a.take(n));
        assert(b.drop_last().take(n) =~= b.take(n));
        lemma_values_differ(a.drop_last(), b.drop_last(), n);
    } else {
        assert(a.take(n) =~= a && b.take(n) =~= b);
    }
}

proof fn lemma_lengths_differ(a: Seq<ParamView>, b: Seq<ParamView>)
    requires
        same_values(a, b),
    ensures
        a.len() == b.len(),
    decreases a.len(),
{
    if a.len() > 0 && b.len() > 0 {
        lemma_lengths_differ(a.drop_last(), b.drop_last());
    }
}

/// The placement of an instance, with its axis and its direction.
pub open spec fn item_target(entities: Seq<EntityView>, map: u64, item: u64) -> Result<
    (u64, ParamView, ParamView),
    PatternError,
> {
    if position(entities, item) is None {
        Err(PatternError::MissingItem(item))
    } else {
        match record_at(entities, item) {
            None => Err(PatternError::ComplexItem(item)),
            Some(record) => if record.name != "MAPPED_ITEM"@ {
                Err(PatternError::NoMappedItem(item))
            } else if !(record.parameter is List) {
                Err(PatternError::MalformedItem(item))
            } else if nth(record, 2) is None || nth_ref(record, 1) != Some(map) {
                Err(PatternError::OtherMap(item))
            } else {
                match nth_ref(record, 2) {
                    None => Err(PatternError::NoTarget(item)),
                    Some(target) => target_axes(entities, target),
                }
            },
        }
    }
}

pub open spec fn target_axes(entities: Seq<EntityView>, target: u64) -> Result<
    (u64, ParamView, ParamView),
    PatternError,
> {
    if position(entities, target) is None {
        Err(PatternError::MissingTarget(target))
    } else {
        match record_at(entities, target) {
            None => Err(PatternError::ComplexTarget(target)),
            Some(record) => if record.name != "AXIS2_PLACEMENT_3D"@ {
                Err(PatternError::NoPlacement(target))
            } else if !(record.parameter is List) {
                Err(PatternError::MalformedTarget(target))
            } else {
                match (nth(record, 2), nth(record, 3)) {
                    (Some(axis), Some(direction)) => Ok((target, axis, direction)),
                    _ => Err(PatternError::IncompleteTarget(target)),
                }
            },
        }
    }
}

/// The styled item of an instance and the styles that it assigns.
pub open spec fn item_style(entities: Seq<EntityView>, item: u64) -> Result<
    (u64, Seq<u64>),
    PatternError,
> {
    if face_styles(entities, item).len() == 0 {
        Err(PatternError::NoStyle(item))
    } else {
        match sole_style(entities, item) {
            Some(style) => Ok(style),
            None => Err(PatternError::SeveralStyles(item)),
        }
    }
}

/// What the instances of a row have in common.
#[verifier::ext_equal]
pub struct RowView {
    pub targets: Seq<u64>,
    pub styles: Seq<u64>,
    pub axis: ParamView,
    pub direction: ParamView,
    pub assignments: Seq<u64>,
}

/// What the first `n` instances of a row have in common, or why they cannot be resized.
pub open spec fn row_of(entities: Seq<EntityView>, map: u64, items: Seq<u64>, n: nat) -> Result<
    RowView,
    PatternError,
>
    decreases n,
{
    if n == 0 {
        Err(PatternError::TooFewInstances)
    } else if n == 1 {
        match item_target(entities, map, items[0]) {
            Err(e) => Err(e),
            Ok((target, axis, direction)) => match item_style(entities, items[0]) {
                Err(e) => Err(e),
                Ok((id, assignments)) => Ok(
                    RowView {
                        targets: seq![target],
                        styles: seq![id],
                        axis,
                        direction,
                        assignments,
                    },
                ),
            },
        }
    } else {
        match row_of(entities, map, items, (n - 1) as nat) {
            Err(e) => Err(e),
            Ok(row) => match item_target(entities, map, items[n - 1]) {
                Err(e) => Err(e),
                Ok((target, axis, direction)) => if !same_value(row.axis, axis) || !same_value(
                    row.direction,
                    direction,
                ) {
                    Err(PatternError::AxesDiffer)
                } else {
                    match item_style(entities, items[n - 1]) {
                        Err(e) => Err(e),
                        Ok((id, assignments)) => if row.assignments != assignments {
                            Err(PatternError::StylesDiffer)
                        } else {
                            Ok(
                                RowView {
                                    targets: row.targets.push(target),
                                    styles: row.styles.push(id),
                                    ..row
                                },
                            )
                        },
                    }
                },
            },
        }
    }
}

/// Why the representation of a row cannot be changed.
pub open spec fn parent_fault(entities: Seq<EntityView>, parent: u64, items: Seq<u64>) -> Option<
    PatternError,
> {
    if position(entities, parent) is None {
        Some(PatternError::MissingParent)
    } else {
        match record_at(entities, parent) {
            None => Some(PatternError::ComplexParent),
            Some(record) => if !(record.parameter is List) {
                Some(PatternError::MalformedParent)
            } else {
                match nth_ref_list(record, 1) {
                    None => Some(PatternError::NoItemList),
                    Some(listed) => if holds_all(listed, items) {
                        None
                    } else {
                        Some(PatternError::ItemNotListed)
                    },
                }
            },
        }
    }
}

pub open spec fn smaller(a: usize, b: usize) -> usize {
    if a < b {
        a
    } else {
        b
    }
}

/// How many new entities a row needs.
pub open spec fn wanted_ids(old_count: usize, new_count: usize) -> int {
    let reused = smaller(old_count, new_count);
    2 * reused + 4 * (new_count - reused)
}

/// Why a row cannot be resized.
pub open spec fn resize_fault(
    entities: Seq<EntityView>,
    pattern: InstancePattern,
    new_count: usize,
) -> Option<PatternError> {
    let items = pattern.item_ids@;
    match row_fault(pattern, new_count) {
        Some(e) => Some(e),
        None => match row_of(entities, pattern.representation_map, items, items.len()) {
            Err(e) => Some(e),
            Ok(_) => match parent_fault(entities, pattern.parent_representation, items) {
                Some(e) => Some(e),
                None => if max_id(entities) + wanted_ids(items.len() as usize, new_count)
                    > u64::MAX {
                    Some(PatternError::OutOfIds)
                } else {
                    None
                },
            },
        },
    }
}

/// How far the new row has come.
#[verifier::ext_equal]
pub struct BuiltView {
    pub base: Seq<EntityView>,
    pub added: Seq<EntityView>,
    pub items: Seq<u64>,
    pub styles: Seq<u64>,
}

/// A point of a site and the placement on it.
pub open spec fn with_site(
    added: Seq<EntityView>,
    last: u64,
    site: SiteView,
    axis: ParamView,
    direction: ParamView,
) -> Seq<EntityView> {
    let id = fresh(added, last);
    added.push(triple(id, "CARTESIAN_POINT"@, site.x, site.y, site.z)).push(
        simple_entity(
            (id + 1) as u64,
            "AXIS2_PLACEMENT_3D"@,
            seq![ParamView::String(Seq::empty()), ref_param(id), axis, direction],
        ),
    )
}

/// An instance on another placement.
pub open spec fn moved_item(entity: EntityView, placement: u64) -> EntityView {
    match simple_record(entity) {
        Some(record) => match record.parameter {
            ParamView::List(params) => simple_entity(
                entity.id(),
                record.name,
                params.update(2, ref_param(placement)),
            ),
            _ => entity,
        },
        None => entity,
    }
}

/// The new row up to site `n`.
pub open spec fn built(
    start: Seq<EntityView>,
    pattern: InstancePattern,
    row: RowView,
    sites: Seq<SiteView>,
    last: u64,
    n: nat,
) -> BuiltView
    decreases n,
{
    if n == 0 {
        BuiltView { base: start, added: Seq::empty(), items: Seq::empty(), styles: Seq::empty() }
    } else {
        let before = built(start, pattern, row, sites, last, (n - 1) as nat);
        let placement = (fresh(before.added, last) + 1) as u64;
        let added = with_site(before.added, last, sites[n - 1], row.axis, row.direction);
        if n - 1 < pattern.item_ids@.len() {
            let item = pattern.item_ids@[n - 1];
            let at = position(before.base, item)->Some_0;
            BuiltView {
                base: before.base.update(at, moved_item(before.base[at], placement)),
                added,
                items: before.items.push(item),
                styles: before.styles.push(row.styles[n - 1]),
            }
        } else {
            let item = fresh(added, last);
            let style = (item + 1) as u64;
            BuiltView {
                base: before.base,
                added: added.push(
                    simple_entity(
                        item,
                        "MAPPED_ITEM"@,
                        seq![
                            ParamView::String(Seq::empty()),
                            ref_param(pattern.representation_map),
                            ref_param(placement),
                        ],
                    ),
                ).push(
                    simple_entity(
                        style,
                        "STYLED_ITEM"@,
                        seq![
                            ParamView::String(Seq::empty()),
                            ParamView::List(ref_params(row.assignments)),
                            ref_param(item),
                        ],
                    ),
                ),
                items: before.items.push(item),
                styles: before.styles.push(style),
            }
        }
    }
}

/// A list in which new references stand where the first of some stood, and the others are gone.
pub open spec fn spliced(items: Seq<ParamView>, old: Seq<u64>, new: Seq<u64>) -> Seq<ParamView>
    decreases items.len(),
{
    if items.len() == 0 {
        Seq::empty()
    } else {
        let rest = spliced(items.drop_last(), old, new);
        match ref_value(items.last()) {
            Some(id) if old.contains(id) => if meets(items.drop_last(), old) {
                rest
            } else {
                rest + ref_params(new)
            },
            _ => rest.push(items.last()),
        }
    }
}

/// An entity with a list changed in this way.
pub open spec fn respliced(entity: EntityView, n: int, old: Seq<u64>, new: Seq<u64>) -> EntityView {
    match simple_record(entity) {
        None => entity,
        Some(record) => match record.parameter {
            ParamView::List(params) if 0 <= n < params.len() => match params[n] {
                ParamView::List(items) if meets(items, old) => simple_entity(
                    entity.id(),
                    record.name,
                    params.update(n, ParamView::List(spliced(items, old, new))),
                ),
                _ => entity,
            },
            _ => entity,
        },
    }
}

pub open spec fn restyled_root(entity: EntityView, old: Seq<u64>, new: Seq<u64>) -> EntityView {
    match simple_record(entity) {
        Some(record) => match presented(record.name) {
            Some(n) => respliced(entity, n, old, new),
            None => entity,
        },
        None => entity,
    }
}

pub open spec fn restyled_roots(entities: Seq<EntityView>, old: Seq<u64>, new: Seq<u64>) -> Seq<
    EntityView,
> {
    Seq::new(entities.len(), |i: int| restyled_root(entities[i], old, new))
}

/// The entities after all rewriting, before anything is given up.
pub open spec fn resized(
    entities: Seq<EntityView>,
    pattern: InstancePattern,
    row: RowView,
    sites: Seq<SiteView>,
) -> Seq<EntityView> {
    let done = built(entities, pattern, row, sites, max_id(entities), sites.len());
    let at = position(done.base, pattern.parent_representation)->Some_0;
    let base = done.base.update(
        at,
        respliced(done.base[at], 1, pattern.item_ids@, done.items),
    );
    restyled_roots(base + done.added, row.styles, done.styles)
}

/// What the new row does not need any more.
pub open spec fn obsolete(pattern: InstancePattern, row: RowView, new_count: usize) -> Seq<u64> {
    let reused = smaller(pattern.item_ids@.len() as usize, new_count) as int;
    row.targets + pattern.item_ids@.skip(reused) + row.styles.skip(reused)
}

pub open spec fn given_up(entities: Seq<EntityView>, candidates: Seq<u64>) -> Set<u64> {
    Set::new(|id: u64| dead(entities, candidates, Set::empty(), id))
}

/// What resizing a row makes of entities.
pub open spec fn row_resized(
    entities: Seq<EntityView>,
    pattern: InstancePattern,
    sites: Seq<SiteView>,
    candidates: Seq<u64>,
    result: Seq<EntityView>,
    stats: PatternResizeStats,
) -> bool {
    let items = pattern.item_ids@;
    let old_count = items.len() as usize;
    let new_count = sites.len() as usize;
    let reused = smaller(old_count, new_count);
    let row = row_of(entities, pattern.representation_map, items, items.len())->Ok_0;
    let done = resized(entities, pattern, row, sites);
    let gone = given_up(done, candidates);
    &&& forall|id: u64| #[trigger]
        candidates.contains(id) == reachable(entities, obsolete(pattern, row, new_count), id)
    &&& result == without(done, gone)
    &&& stats == PatternResizeStats {
        old_count,
        new_count,
        reused_items: reused,
        added_items: (new_count - reused) as usize,
        removed_items: (old_count - reused) as usize,
        entities_removed: gone.len() as usize,
    }
}

pub(crate) fn find_full(ratio: u64) -> (out: bool)
    ensures
        out == is_full(ratio),
{
    (LOW_FULL <= ratio && ratio <= HIGH_FULL) || (0x7FF0_0000_0000_0000 < ratio && ratio
        < 0x8000_0000_0000_0000) || 0xFFF0_0000_0000_0000 < ratio
}

fn find_contiguous(occupancy: &Vec<[i64; 2]>) -> (out: bool)
    ensures
        out == is_contiguous(occupancy@),
{
    let mut i: usize = 0;
    while i < occupancy.len()
        invariant
            i <= occupancy.len(),
            forall|j: int|
                0 <= j < i ==> (#[trigger] occupancy@[j])@[0] == j && occupancy@[j]@[1] == 0,
        decreases occupancy.len() - i,
    {
        let site = occupancy[i];
        if site[0] < 0 || site[0] as u64 != i as u64 || site[1] != 0 {
            assert(!(occupancy@[i as int]@[0] == i && occupancy@[i as int]@[1] == 0));
            return false;
        }
        i = i + 1;
    }
    true
}

fn find_row_fault(pattern: &InstancePattern, new_count: usize) -> (out: Option<PatternError>)
    ensures
        out == row_fault(*pattern, new_count),
{
    if pattern.dimension != 1 || pattern.basis.len() != 1 || pattern.grid_shape.len() != 1 {
        return Some(PatternError::NotOneDimensional);
    }
    if new_count == 0 {
        return Some(PatternError::NoInstanceLeft);
    }
    if pattern.item_ids.len() < 2 || pattern.occupancy.len() != pattern.item_ids.len() {
        return Some(PatternError::TooFewInstances);
    }
    if pattern.grid_shape[0] != pattern.item_ids.len() || !find_full(pattern.fill_ratio) {
        return Some(PatternError::NotFullyOccupied);
    }
    if !find_contiguous(&pattern.occupancy) {
        return Some(PatternError::NotContiguous);
    }
    None
}

fn find_zero_text(s: &str) -> (out: bool)
    ensures
        out == is_zero_text(s@),
{
    same_text(s, "0") || same_text(s, "-0")
}

fn same_name(a: &Name, b: &Name) -> (out: bool)
    ensures
        out == (a@ == b@),
{
    match (a, b) {
        (Name::Entity(x), Name::Entity(y)) => *x == *y,
        (Name::Value(x), Name::Value(y)) => *x == *y,
        (Name::ConstantEntity(x), Name::ConstantEntity(y)) => same_text(x.as_str(), y.as_str()),
        (Name::ConstantValue(x), Name::ConstantValue(y)) => same_text(x.as_str(), y.as_str()),
        _ => false,
    }
}

/// Whether two parameters have the same value.
pub fn have_same_value(a: &Parameter, b: &Parameter) -> (out: bool)
    ensures
        out == same_value(a@, b@),
    decreases a,
{
    match (a, b) {
        (Parameter::Real(x), Parameter::Real(y)) => same_text(x.as_str(), y.as_str()) || (
        find_zero_text(x.as_str()) && find_zero_text(y.as_str())),
        (Parameter::List(x), Parameter::List(y)) => {
            proof {
                lemma_list_view(*x);
                lemma_list_view(*y);
            }
            let ghost u = params_view(x@);
            let ghost v = params_view(y@);
            if x.len() != y.len() {
                proof {
                    if same_values(u, v) {
                        lemma_lengths_differ(u, v);
                    }
                }
                return false;
            }
            let mut i: usize = 0;
            assert(same_values(u.take(0), v.take(0)));
            while i < x.len()
                invariant
                    i <= x.len(),
                    x.len() == y.len(),
                    u == params_view(x@),
                    v == params_view(y@),
                    a@ == ParamView::List(u),
                    b@ == ParamView::List(v),
                    decreases_to!(a => x@),
                    same_values(u.take(i as int), v.take(i as int)),
                decreases x.len() - i,
            {
                assert(u[i as int] == x@[i as int]@ && v[i as int] == y@[i as int]@);
                assert(u.take(i + 1).drop_last() =~= u.take(i as int));
                assert(v.take(i + 1).drop_last() =~= v.take(i as int));
                if !have_same_value(&x[i], &y[i]) {
                    proof {
                        assert(!same_values(u.take(i + 1), v.take(i + 1)));
                        lemma_values_differ(u, v, i + 1);
                    }
                    return false;
                }
                i = i + 1;
            }
            assert(u.take(u.len() as int) =~= u && v.take(v.len() as int) =~= v);
            true
        },
        (
            Parameter::Typed { keyword: k, parameter: p },
            Parameter::Typed { keyword: l, parameter: q },
        ) => same_text(k.as_str(), l.as_str()) && have_same_value(&**p, &**q),
        (Parameter::Integer(x), Parameter::Integer(y)) => *x == *y,
        (Parameter::String(x), Parameter::String(y)) => same_text(x.as_str(), y.as_str()),
        (Parameter::Enumeration(x), Parameter::Enumeration(y)) => same_text(
            x.as_str(),
            y.as_str(),
        ),
        (Parameter::Ref(x), Parameter::Ref(y)) => same_name(x, y),
        (Parameter::NotProvided, Parameter::NotProvided) => true,
        (Parameter::Omitted, Parameter::Omitted) => true,
        _ => false,
    }
}

fn is_list(param: &Parameter) -> (out: bool)
    ensures
        out == (param@ is List),
{
    match param {
        Parameter::List(_) => true,
        _ => false,
    }
}

type Axes = (u64, Parameter, Parameter);

spec fn axes_view(found: Result<Axes, PatternError>) -> Result<
    (u64, ParamView, ParamView),
    PatternError,
> {
    match found {
        Ok((target, axis, direction)) => Ok((target, axis@, direction@)),
        Err(e) => Err(e),
    }
}

fn find_target_axes(
    target: u64,
    entities: &Vec<EntityInstance>,
    index: &HashMap<u64, usize>,
) -> (out: Result<Axes, PatternError>)
    requires
        indexes(index@, entities_view(entities@)),
    ensures
        axes_view(out) == target_axes(entities_view(entities@), target),
{
    if !index.contains_key(&target) {
        return Err(PatternError::MissingTarget(target));
    }
    match find_record(entities, index, target) {
        None => Err(PatternError::ComplexTarget(target)),
        Some(record) => {
            if !same_text(record.name.as_str(), "AXIS2_PLACEMENT_3D") {
                return Err(PatternError::NoPlacement(target));
            }
            if !is_list(&record.parameter) {
                return Err(PatternError::MalformedTarget(target));
            }
            match (nth_param(record, 2), nth_param(record, 3)) {
                (Some(axis), Some(direction)) => Ok((target, axis.clone(), direction.clone())),
                _ => Err(PatternError::IncompleteTarget(target)),
            }
        },
    }
}

/// The placement of an instance, with its axis and its direction.
fn find_item_target(
    map: u64,
    item: u64,
    entities: &Vec<EntityInstance>,
    index: &HashMap<u64, usize>,
) -> (out: Result<Axes, PatternError>)
    requires
        indexes(index@, entities_view(entities@)),
    ensures
        axes_view(out) == item_target(entities_view(entities@), map, item),
{
    if !index.contains_key(&item) {
        return Err(PatternError::MissingItem(item));
    }
    match find_record(entities, index, item) {
        None => Err(PatternError::ComplexItem(item)),
        Some(record) => {
            if !same_text(record.name.as_str(), "MAPPED_ITEM") {
                return Err(PatternError::NoMappedItem(item));
            }
            if !is_list(&record.parameter) {
                return Err(PatternError::MalformedItem(item));
            }
            let mapped = match nth_entity_ref(record, 1) {
                Some(id) => id == map,
                None => false,
            };
            if nth_param(record, 2).is_none() || !mapped {
                return Err(PatternError::OtherMap(item));
            }
            match nth_entity_ref(record, 2) {
                None => Err(PatternError::NoTarget(item)),
                Some(target) => find_target_axes(target, entities, index),
            }
        },
    }
}

spec fn style_view(found: Result<(u64, Vec<u64>), PatternError>) -> Result<
    (u64, Seq<u64>),
    PatternError,
> {
    match found {
        Ok((id, styles)) => Ok((id, styles@)),
        Err(e) => Err(e),
    }
}

/// The styled item of an instance and the styles that it assigns.
fn find_item_style(
    item: u64,
    entities: &Vec<EntityInstance>,
    table: &HashMap<u64, Vec<u64>>,
) -> (out: Result<(u64, Vec<u64>), PatternError>)
    requires
        forall|t: u64| #[trigger]
            listed(table@, t) == face_styles(entities_view(entities@), t),
    ensures
        style_view(out) == item_style(entities_view(entities@), item),
{
    assert(listed(table@, item) == face_styles(entities_view(entities@), item));
    let none = match table.get(&item) {
        None => true,
        Some(list) => list.len() == 0,
    };
    if none {
        return Err(PatternError::NoStyle(item));
    }
    match find_sole_style(entities, table, item) {
        Some(style) => Ok(style),
        None => Err(PatternError::SeveralStyles(item)),
    }
}

/// What the instances of a row have in common.
struct Row {
    targets: Vec<u64>,
    styles: Vec<u64>,
    axis: Parameter,
    direction: Parameter,
    assignments: Vec<u64>,
}

impl View for Row {
    type V = RowView;

    closed spec fn view(&self) -> RowView {
        RowView {
            targets: self.targets@,
            styles: self.styles@,
            axis: self.axis@,
            direction: self.direction@,
            assignments: self.assignments@,
        }
    }
}

spec fn row_view(found: Result<Row, PatternError>) -> Result<RowView, PatternError> {
    match found {
        Ok(row) => Ok(row@),
        Err(e) => Err(e),
    }
}

proof fn lemma_row_stops(entities: Seq<EntityView>, map: u64, items: Seq<u64>, n: nat, m: nat)
    requires
        0 < n <= m,
        row_of(entities, map, items, n) is Err,
    ensures
        row_of(entities, map, items, m) == row_of(entities, map, items, n),
    decreases m,
{
    if n < m {
        lemma_row_stops(entities, map, items, n, (m - 1) as nat);
    }
}

proof fn lemma_row_lengths(entities: Seq<EntityView>, map: u64, items: Seq<u64>, n: nat)
    ensures
        row_of(entities, map, items, n) matches Ok(row) ==> row.targets.len() == n
            && row.styles.len() == n,
    decreases n,
{
    if n > 1 {
        lemma_row_lengths(entities, map, items, (n - 1) as nat);
    }
}

/// What the instances of a row have in common.
fn find_row(
    map: u64,
    items: &Vec<u64>,
    entities: &Vec<EntityInstance>,
    index: &HashMap<u64, usize>,
    table: &HashMap<u64, Vec<u64>>,
) -> (out: Result<Row, PatternError>)
    requires
        items@.len() > 0,
        indexes(index@, entities_view(entities@)),
        forall|t: u64| #[trigger]
            listed(table@, t) == face_styles(entities_view(entities@), t),
    ensures
        row_view(out) == row_of(entities_view(entities@), map, items@, items@.len()),
{
    let ghost views = entities_view(entities@);
    let (target, axis, direction) = match find_item_target(map, items[0], entities, index) {
        Ok(found) => found,
        Err(e) => {
            proof {
                lemma_row_stops(views, map, items@, 1, items@.len());
            }
            return Err(e);
        },
    };
    let (id, assignments) = match find_item_style(items[0], entities, table) {
        Ok(found) => found,
        Err(e) => {
            proof {
                lemma_row_stops(views, map, items@, 1, items@.len());
            }
            return Err(e);
        },
    };
    let mut row = Row { targets: vec![target], styles: vec![id], axis, direction, assignments };
    let mut i: usize = 1;
    assert(row.targets@ =~= seq![target] && row.styles@ =~= seq![id]);
    while i < items.len()
        invariant
            1 <= i <= items.len(),
            views == entities_view(entities@),
            indexes(index@, views),
            forall|t: u64| #[trigger] listed(table@, t) == face_styles(views, t),
            row_of(views, map, items@, i as nat) == Ok::<RowView, PatternError>(row@),
        decreases items.len() - i,
    {
        let found = find_item_target(map, items[i], entities, index);
        match found {
            Err(e) => {
                proof {
                    lemma_row_stops(views, map, items@, (i + 1) as nat, items@.len());
                }
                return Err(e);
            },
            Ok((target, axis, direction)) => {
                if !have_same_value(&row.axis, &axis) || !have_same_value(
                    &row.direction,
                    &direction,
                ) {
                    proof {
                        lemma_row_stops(views, map, items@, (i + 1) as nat, items@.len());
                    }
                    return Err(PatternError::AxesDiffer);
                }
                match find_item_style(items[i], entities, table) {
                    Err(e) => {
                        proof {
                            lemma_row_stops(views, map, items@, (i + 1) as nat, items@.len());
                        }
                        return Err(e);
                    },
                    Ok((id, assignments)) => {
                        if !same_ids(&row.assignments, &assignments) {
                            proof {
                                lemma_row_stops(views, map, items@, (i + 1) as nat, items@.len());
                            }
                            return Err(PatternError::StylesDiffer);
                        }
                        row.targets.push(target);
                        row.styles.push(id);
                    },
                }
            },
        }
        i = i + 1;
    }
    Ok(row)
}

fn find_parent_fault(
    parent: u64,
    items: &Vec<u64>,
    entities: &Vec<EntityInstance>,
    index: &HashMap<u64, usize>,
) -> (out: Option<PatternError>)
    requires
        indexes(index@, entities_view(entities@)),
    ensures
        out == parent_fault(entities_view(entities@), parent, items@),
{
    if !index.contains_key(&parent) {
        return Some(PatternError::MissingParent);
    }
    match find_record(entities, index, parent) {
        None => Some(PatternError::ComplexParent),
        Some(record) => {
            if !is_list(&record.parameter) {
                return Some(PatternError::MalformedParent);
            }
            match nth_entity_ref_list(record, 1) {
                None => Some(PatternError::NoItemList),
                Some(all) => if lists_all(&all, items) {
                    None
                } else {
                    Some(PatternError::ItemNotListed)
                },
            }
        },
    }
}

/// Appends a point of a site and the placement on it.
fn push_site(
    added: &mut Vec<EntityInstance>,
    last: u64,
    site: &Site,
    axis: &Parameter,
    direction: &Parameter,
) -> (placement: u64)
    requires
        room(entities_view(old(added)@), last, 2),
    ensures
        placement == (fresh(entities_view(old(added)@), last) + 1) as u64,
        entities_view(final(added)@) == with_site(
            entities_view(old(added)@),
            last,
            site@,
            axis@,
            direction@,
        ),
{
    let ghost start = entities_view(added@);
    let n: usize = added.len();
    assert(start.len() == n);
    let id: u64 = last + n as u64 + 1;
    crate::placements::push_triple(
        added,
        id,
        "CARTESIAN_POINT",
        site.x.clone(),
        site.y.clone(),
        site.z.clone(),
    );
    let mut params: Vec<Parameter> = Vec::new();
    params.push(Parameter::String(String::new()));
    params.push(entity_ref(id));
    params.push(axis.clone());
    params.push(direction.clone());
    assert(params_view(params@) =~= seq![
        ParamView::String(Seq::empty()),
        ref_param(id),
        axis@,
        direction@,
    ]);
    push_simple(added, id + 1, "AXIS2_PLACEMENT_3D", params);
    id + 1
}

/// An instance on another placement.
fn move_item(entity: &EntityInstance, placement: u64) -> (out: EntityInstance)
    requires
        simple_record(entity@) matches Some(record) && nth(record, 2) is Some,
    ensures
        out@ == moved_item(entity@, placement),
{
    if let EntityInstance::Simple { id, record } = entity {
        if let Parameter::List(params) = &record.parameter {
            proof {
                lemma_list_view(*params);
            }
            return with_param(*id, record, params, 2, entity_ref(placement));
        }
    }
    entity.clone()
}

/// Whether the items of a row can still be put on other placements.
spec fn are_movable(base: Seq<EntityView>, items: Seq<u64>) -> bool {
    forall|i: int| 0 <= i < items.len() ==> is_movable(base, #[trigger] items[i])
}

spec fn is_movable(base: Seq<EntityView>, item: u64) -> bool {
    &&& record_at(base, item) matches Some(record)
    &&& nth(record, 2) is Some
}

proof fn lemma_still_movable(base: Seq<EntityView>, at: int, placement: u64, item: u64)
    requires
        0 <= at < base.len(),
        is_movable(base, item),
        simple_record(base[at]) matches Some(record) && nth(record, 2) is Some,
    ensures
        is_movable(base.update(at, moved_item(base[at], placement)), item),
        position(base.update(at, moved_item(base[at], placement)), item) == position(base, item),
{
    let new = moved_item(base[at], placement);
    assert(new.id() == base[at].id());
    crate::face_coalesce::lemma_position_updated(base, at, new, item);
    lemma_position(base, item);
}

proof fn lemma_row_movable(entities: Seq<EntityView>, map: u64, items: Seq<u64>, n: nat, i: int)
    requires
        row_of(entities, map, items, n) is Ok,
        0 <= i < n,
    ensures
        is_movable(entities, items[i]),
    decreases n,
{
    if n > 1 && i < n - 1 {
        lemma_row_movable(entities, map, items, (n - 1) as nat, i);
    }
}

/// The new row.
struct Built {
    base: Vec<EntityInstance>,
    added: Vec<EntityInstance>,
    items: Vec<u64>,
    styles: Vec<u64>,
}

impl View for Built {
    type V = BuiltView;

    closed spec fn view(&self) -> BuiltView {
        BuiltView {
            base: entities_view(self.base@),
            added: entities_view(self.added@),
            items: self.items@,
            styles: self.styles@,
        }
    }
}

fn push_instance(
    added: &mut Vec<EntityInstance>,
    last: u64,
    map: u64,
    placement: u64,
    assignments: &Vec<u64>,
) -> (item: u64)
    requires
        room(entities_view(old(added)@), last, 2),
    ensures
        item == fresh(entities_view(old(added)@), last),
        item < u64::MAX,
        entities_view(final(added)@) == entities_view(old(added)@).push(
            simple_entity(
                item,
                "MAPPED_ITEM"@,
                seq![ParamView::String(Seq::empty()), ref_param(map), ref_param(placement)],
            ),
        ).push(
            simple_entity(
                (item + 1) as u64,
                "STYLED_ITEM"@,
                seq![
                    ParamView::String(Seq::empty()),
                    ParamView::List(ref_params(assignments@)),
                    ref_param(item),
                ],
            ),
        ),
{
    let ghost start = entities_view(added@);
    let n: usize = added.len();
    assert(start.len() == n);
    let id: u64 = last + n as u64 + 1;
    let mut params: Vec<Parameter> = Vec::new();
    params.push(Parameter::String(String::new()));
    params.push(entity_ref(map));
    params.push(entity_ref(placement));
    assert(params_view(params@) =~= seq![
        ParamView::String(Seq::empty()),
        ref_param(map),
        ref_param(placement),
    ]);
    push_simple(added, id, "MAPPED_ITEM", params);
    let mut style: Vec<Parameter> = Vec::new();
    style.push(Parameter::String(String::new()));
    style.push(ref_list_param(assignments));
    style.push(entity_ref(id));
    assert(params_view(style@) =~= seq![
        ParamView::String(Seq::empty()),
        ParamView::List(ref_params(assignments@)),
        ref_param(id),
    ]);
    push_simple(added, id + 1, "STYLED_ITEM", style);
    id
}

/// Builds the new row.
fn build_row(
    entities: &Vec<EntityInstance>,
    index: &HashMap<u64, usize>,
    pattern: &InstancePattern,
    row: &Row,
    sites: &Vec<Site>,
    last: u64,
) -> (out: Built)
    requires
        indexes(index@, entities_view(entities@)),
        row@.styles.len() == pattern.item_ids@.len(),
        are_movable(entities_view(entities@), pattern.item_ids@),
        last + wanted_ids(pattern.item_ids@.len() as usize, sites@.len() as usize) <= u64::MAX,
    ensures
        out@ == built(
            entities_view(entities@),
            *pattern,
            row@,
            sites_view(sites@),
            last,
            sites@.len(),
        ),
        indexes(index@, out@.base),
{
    let ghost views = entities_view(entities@);
    let ghost site_views = sites_view(sites@);
    let old_count: usize = pattern.item_ids.len();
    let new_count: usize = sites.len();
    let ghost total = wanted_ids(old_count, new_count);
    let mut out = Built {
        base: clone_entities(entities),
        added: Vec::new(),
        items: Vec::new(),
        styles: Vec::new(),
    };
    let mut i: usize = 0;
    assert(entities_view(out.added@) =~= Seq::empty());
    assert(out@ =~= built(views, *pattern, row@, site_views, last, 0));
    while i < sites.len()
        invariant
            i <= sites.len(),
            new_count == sites@.len(),
            old_count == pattern.item_ids@.len(),
            site_views == sites_view(sites@),
            total == wanted_ids(old_count, new_count),
            last + total <= u64::MAX,
            row@.styles.len() == pattern.item_ids@.len(),
            out@.added.len() == if i <= old_count {
                2 * i as int
            } else {
                2 * old_count + 4 * (i - old_count)
            },
            are_movable(out@.base, pattern.item_ids@),
            indexes(index@, out@.base),
            out@ == built(views, *pattern, row@, site_views, last, i as nat),
        decreases sites.len() - i,
    {
        assert(site_views[i as int] == sites@[i as int]@);
        let ghost before = out@;
        let placement: u64 = push_site(&mut out.added, last, &sites[i], &row.axis, &row.direction);
        if i < old_count {
            let item: u64 = pattern.item_ids[i];
            proof {
                assert(is_movable(before.base, pattern.item_ids@[i as int]));
                lemma_position(before.base, item);
            }
            match index.get(&item) {
                Some(at) => {
                    let at: usize = *at;
                    assert(before.base[at as int] == out.base@[at as int]@);
                    let moved = move_item(&out.base[at], placement);
                    replace_entity(&mut out.base, at, moved);
                    proof {
                        let next = entities_view(out.base@);
                        assert(next == before.base.update(
                            at as int,
                            moved_item(before.base[at as int], placement),
                        ));
                        assert forall|k: int| 0 <= k < pattern.item_ids@.len() implies is_movable(
                            next,
                            #[trigger] pattern.item_ids@[k],
                        ) by {
                            assert(is_movable(before.base, pattern.item_ids@[k]));
                            lemma_still_movable(
                                before.base,
                                at as int,
                                placement,
                                pattern.item_ids@[k],
                            );
                        }
                        assert forall|id: u64| #[trigger]
                            index@.contains_key(id) == (position(next, id) is Some) && (
                            index@.contains_key(id) ==> index@[id] == position(
                                next,
                                id,
                            )->Some_0) by {
                            crate::face_coalesce::lemma_position_updated(
                                before.base,
                                at as int,
                                moved_item(before.base[at as int], placement),
                                id,
                            );
                        }
                    }
                },
                None => {
                    assert(false);
                },
            }
            out.items.push(item);
            out.styles.push(row.styles[i]);
        } else {
            let item: u64 = push_instance(
                &mut out.added,
                last,
                pattern.representation_map,
                placement,
                &row.assignments,
            );
            out.items.push(item);
            out.styles.push(item + 1);
        }
        i = i + 1;
    }
    out
}

/// Whether one of the items refers to one of the ids.
fn find_meets(items: &Vec<Parameter>, ids: &HashSet<u64>, Ghost(list): Ghost<Seq<u64>>) -> (out: bool)
    requires
        ids@ == list.to_set(),
    ensures
        out == meets(params_view(items@), list),
{
    let out = find_mention(items, ids);
    proof {
        let views = params_view(items@);
        if mentions(views, ids@) {
            let i = choose|i: int|
                0 <= i < views.len() && (ref_value(#[trigger] views[i]) matches Some(id)
                    && ids@.contains(id));
            assert(ref_value(views[i]) matches Some(id) && list.contains(id));
        }
        if meets(views, list) {
            let i = choose|i: int|
                0 <= i < views.len() && (ref_value(#[trigger] views[i]) matches Some(id)
                    && list.contains(id));
            assert(ref_value(views[i]) matches Some(id) && ids@.contains(id));
        }
    }
    out
}

/// A list in which new references stand where the first of some stood.
fn splice(items: &Vec<Parameter>, members: &HashSet<u64>, new: &Vec<u64>, Ghost(old): Ghost<Seq<u64>>) -> (out:
    Vec<Parameter>)
    requires
        members@ == old.to_set(),
    ensures
        params_view(out@) == spliced(params_view(items@), old, new@),
{
    let ghost views = params_view(items@);
    let mut out: Vec<Parameter> = Vec::new();
    let mut emitted = false;
    let mut i: usize = 0;
    assert(views.take(0) =~= Seq::empty());
    assert(params_view(out@) =~= Seq::empty());
    while i < items.len()
        invariant
            i <= items.len(),
            views == params_view(items@),
            members@ == old.to_set(),
            params_view(out@) == spliced(views.take(i as int), old, new@),
            emitted == meets(views.take(i as int), old),
        decreases items.len() - i,
    {
        let ghost before = params_view(out@);
        let ghost front = views.take(i as int);
        let ghost upto = views.take(i + 1);
        assert(views[i as int] == items@[i as int]@);
        assert(upto.drop_last() =~= front);
        let gone = match entity_ref_value(&items[i]) {
            Some(id) => {
                assert(members@.contains(id) == old.contains(id));
                members.contains(&id)
            },
            None => false,
        };
        proof {
            assert(meets(upto, old) == (meets(front, old) || gone)) by {
                if meets(front, old) {
                    let k = choose|k: int|
                        0 <= k < front.len() && (ref_value(#[trigger] front[k]) matches Some(id)
                            && old.contains(id));
                    assert(upto[k] == front[k]);
                }
                if meets(upto, old) {
                    let k = choose|k: int|
                        0 <= k < upto.len() && (ref_value(#[trigger] upto[k]) matches Some(id)
                            && old.contains(id));
                    if k < front.len() {
                        assert(upto[k] == front[k]);
                    }
                }
                assert(upto[i as int] == views[i as int]);
            }
        }
        if gone {
            if !emitted {
                push_refs(&mut out, new);
                emitted = true;
            }
        } else {
            out.push(items[i].clone());
            assert(params_view(out@) =~= before.push(views[i as int]));
        }
        i = i + 1;
    }
    assert(views.take(views.len() as int) =~= views);
    out
}

/// An entity with a list changed in this way.
fn resplice(
    entity: &EntityInstance,
    n: usize,
    members: &HashSet<u64>,
    new: &Vec<u64>,
    Ghost(old): Ghost<Seq<u64>>,
) -> (out: EntityInstance)
    requires
        members@ == old.to_set(),
    ensures
        out@ == respliced(entity@, n as int, old, new@),
{
    if let EntityInstance::Simple { id, record } = entity {
        if let Parameter::List(params) = &record.parameter {
            proof {
                lemma_list_view(*params);
            }
            if n < params.len() {
                assert(params_view(params@)[n as int] == params@[n as int]@);
                if let Parameter::List(items) = &params[n] {
                    proof {
                        lemma_list_view(*items);
                    }
                    if find_meets(items, members, Ghost(old)) {
                        let list = splice(items, members, new, Ghost(old));
                        proof {
                            lemma_list_view(list);
                        }
                        return with_param(*id, record, params, n, Parameter::List(list));
                    }
                }
            }
        }
    }
    entity.clone()
}

/// Replaces styled items in the presentation roots.
fn restyle_roots(entities: &mut Vec<EntityInstance>, old_ids: &Vec<u64>, new: &Vec<u64>)
    ensures
        entities_view(final(entities)@) == restyled_roots(
            entities_view(old(entities)@),
            old_ids@,
            new@,
        ),
{
    let ghost views = entities_view(entities@);
    let members = set_of(old_ids);
    let mut out: Vec<EntityInstance> = Vec::new();
    let mut i: usize = 0;
    while i < entities.len()
        invariant
            i <= entities.len(),
            out.len() == i,
            members@ == old_ids@.to_set(),
            views == entities_view(entities@),
            *entities == *old(entities),
            forall|j: int|
                0 <= j < i ==> (#[trigger] out@[j])@ == restyled_root(views[j], old_ids@, new@),
        decreases entities.len() - i,
    {
        let entity = &entities[i];
        assert(views[i as int] == entity@);
        let found: Option<usize> = match entity {
            EntityInstance::Simple { record, .. } => if same_text(
                record.name.as_str(),
                "MECHANICAL_DESIGN_GEOMETRIC_PRESENTATION_REPRESENTATION",
            ) {
                Some(1)
            } else if same_text(record.name.as_str(), "PRESENTATION_LAYER_ASSIGNMENT") {
                Some(2)
            } else {
                None
            },
            EntityInstance::Complex { .. } => None,
        };
        match found {
            Some(n) => {
                let done = resplice(entity, n, &members, new, Ghost(old_ids@));
                out.push(done);
            },
            None => out.push(entity.clone()),
        }
        i = i + 1;
    }
    *entities = out;
    assert(entities_view(entities@) =~= restyled_roots(views, old_ids@, new@));
}

/// The ids of a list from a place on.
fn append_from(out: &mut Vec<u64>, ids: &Vec<u64>, from: usize)
    requires
        from <= ids@.len(),
    ensures
        final(out)@ == old(out)@ + ids@.skip(from as int),
{
    let ghost before = out@;
    let mut i: usize = from;
    assert(before + ids@.subrange(from as int, from as int) =~= before);
    while i < ids.len()
        invariant
            from <= i <= ids.len(),
            out@ == before + ids@.subrange(from as int, i as int),
        decreases ids.len() - i,
    {
        out.push(ids[i]);
        i = i + 1;
        assert(before + ids@.subrange(from as int, i as int) =~= (before + ids@.subrange(
            from as int,
            i - 1,
        )).push(ids@[i - 1]));
    }
    assert(ids@.subrange(from as int, ids@.len() as int) =~= ids@.skip(from as int));
}

/// Whether there are ids left for a new row.
fn has_ids(last: u64, old_count: usize, new_count: usize) -> (out: bool)
    ensures
        out == (last + wanted_ids(old_count, new_count) <= u64::MAX),
{
    let reused: u128 = if old_count < new_count {
        old_count as u128
    } else {
        new_count as u128
    };
    let wanted: u128 = last as u128 + 2 * reused + 4 * (new_count as u128 - reused);
    wanted <= u64::MAX as u128
}

/// Puts the instances of a row at places. Instances that are left over keep their ids and styles; new ones
/// are added at the end.
pub(crate) fn place_row(
    entities: &mut Vec<EntityInstance>,
    pattern: &InstancePattern,
    sites: &Vec<Site>,
) -> (out: Result<PatternResizeStats, PatternError>)
    ensures
        out is Err == resize_fault(
            entities_view(old(entities)@),
            *pattern,
            sites@.len() as usize,
        ) is Some,
        out matches Err(e) ==> {
            &&& resize_fault(entities_view(old(entities)@), *pattern, sites@.len() as usize)
                == Some(e)
            &&& entities_view(final(entities)@) == entities_view(old(entities)@)
        },
        out is Ok ==> exists|candidates: Seq<u64>| #[trigger]
            row_resized(
                entities_view(old(entities)@),
                *pattern,
                sites_view(sites@),
                candidates,
                entities_view(final(entities)@),
                out->Ok_0,
            ),
{
    let ghost views = entities_view(entities@);
    let new_count: usize = sites.len();
    let ghost site_views = sites_view(sites@);
    assert(site_views.len() == new_count);
    if let Some(e) = find_row_fault(pattern, new_count) {
        return Err(e);
    }
    let old_count: usize = pattern.item_ids.len();
    let index = build_index(entities);
    let table = styles_by_target(entities);
    let row = match find_row(
        pattern.representation_map,
        &pattern.item_ids,
        entities,
        &index,
        &table,
    ) {
        Ok(row) => row,
        Err(e) => {
            return Err(e);
        },
    };
    if let Some(e) = find_parent_fault(
        pattern.parent_representation,
        &pattern.item_ids,
        entities,
        &index,
    ) {
        return Err(e);
    }
    let last: u64 = largest_id(entities);
    if !has_ids(last, old_count, new_count) {
        return Err(PatternError::OutOfIds);
    }
    proof {
        let map = pattern.representation_map;
        let items = pattern.item_ids@;
        lemma_row_lengths(views, map, items, items.len());
        assert forall|i: int| 0 <= i < items.len() implies is_movable(views, #[trigger] items[i]) by {
            lemma_row_movable(views, map, items, items.len(), i);
        }
    }
    let reused: usize = if old_count < new_count {
        old_count
    } else {
        new_count
    };
    let mut roots: Vec<u64> = Vec::new();
    append_ids(&mut roots, &row.targets);
    append_from(&mut roots, &pattern.item_ids, reused);
    append_from(&mut roots, &row.styles, reused);
    assert(roots@ =~= obsolete(*pattern, row@, new_count));
    let candidates = descendants(entities, &index, &roots);
    let done = build_row(entities, &index, pattern, &row, sites, last);
    let mut work = clone_entities(&done.base);
    let members = set_of(&pattern.item_ids);
    let ghost base = done@.base;
    proof {
        lemma_position(base, pattern.parent_representation);
        lemma_position(views, pattern.parent_representation);
        assert(index@.contains_key(pattern.parent_representation));
    }
    match index.get(&pattern.parent_representation) {
        Some(at) => {
            let at: usize = *at;
            assert(base[at as int] == work@[at as int]@);
            let parent = resplice(
                &work[at],
                1,
                &members,
                &done.items,
                Ghost(pattern.item_ids@),
            );
            replace_entity(&mut work, at, parent);
        },
        None => {
            assert(false);
        },
    }
    join_entities(&mut work, &done.added);
    restyle_roots(&mut work, &row.styles, &done.styles);
    let ghost finished = entities_view(work@);
    assert(finished == resized(views, *pattern, row@, site_views));
    let keep: HashSet<u64> = HashSet::new();
    let gone = find_dead(&work, &candidates, &keep);
    assert(keep@ =~= Set::empty());
    assert(gone@ =~= given_up(finished, candidates@));
    remove_entities(&mut work, &gone);
    let stats = PatternResizeStats {
        old_count,
        new_count,
        reused_items: reused,
        added_items: new_count - reused,
        removed_items: old_count - reused,
        entities_removed: gone.len(),
    };
    *entities = work;
    assert(row_resized(
        views,
        *pattern,
        site_views,
        candidates@,
        entities_view(entities@),
        stats,
    ));
    let result: Result<PatternResizeStats, PatternError> = Ok(stats);
    assert(result->Ok_0 == stats);
    result
}

/// Resizes a row of instances and keeps one of its ends or its middle. Instances that are left
/// over keep their ids and styles; new ones are added at the end.
pub fn resize_filled_linear_pattern(
    entities: &mut Vec<EntityInstance>,
    pattern: &InstancePattern,
    new_count: usize,
    anchor: PatternAnchor,
    steps: &HalfSteps,
) -> (out: Result<PatternResizeStats, PatternError>)
    ensures
        out is Err == (anchored_fault(
            entities_view(old(entities)@),
            *pattern,
            new_count,
            anchor,
            *steps,
        ) is Some),
        out matches Err(e) ==> {
            &&& anchored_fault(entities_view(old(entities)@), *pattern, new_count, anchor, *steps)
                == Some(e)
            &&& entities_view(final(entities)@) == entities_view(old(entities)@)
        },
        out is Ok ==> is_row_resized(
            entities_view(old(entities)@),
            *pattern,
            new_count,
            anchor,
            *steps,
            entities_view(final(entities)@),
            out->Ok_0,
        ),
{
    match row_sites(steps, anchor, pattern.item_ids.len(), new_count) {
        None => Err(PatternError::NotMeasured),
        Some(sites) => {
            assert(sites@.len() == sites_view(sites@).len());
            place_row(entities, pattern, &sites)
        },
    }
}

/// Why a row cannot be resized, if it cannot.
pub open spec fn anchored_fault(
    entities: Seq<EntityView>,
    pattern: InstancePattern,
    new_count: usize,
    anchor: PatternAnchor,
    steps: HalfSteps,
) -> Option<PatternError> {
    if !steps.has_row(anchor, pattern.item_ids@.len() as int, new_count as int) {
        Some(PatternError::NotMeasured)
    } else {
        resize_fault(entities, pattern, new_count)
    }
}

/// Whether a row was resized: item `k` is at the half-step that its anchor gives it.
pub open spec fn is_row_resized(
    before: Seq<EntityView>,
    pattern: InstancePattern,
    new_count: usize,
    anchor: PatternAnchor,
    steps: HalfSteps,
    after: Seq<EntityView>,
    stats: PatternResizeStats,
) -> bool {
    exists|candidates: Seq<u64>| #[trigger]
        row_resized(
            before,
            pattern,
            steps.row(anchor, pattern.item_ids@.len() as int, new_count as int),
            candidates,
            after,
            stats,
        )
}

} // verus!
