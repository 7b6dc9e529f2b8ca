//! Groups of faces that repeat on a plane face become instances of one solid.

use std::collections::{HashMap, HashSet};
use vstd::prelude::*;

use crate::ast::{
    clone_entities, clone_params, entities_view, lemma_list_view, params_view, EntityInstance,
    EntityView, ParamView, Parameter,
};
use crate::brep::{
    append_refs_to_list_param, list_with, list_without, listed_in, push_refs, ref_list_param,
    remove_refs_from_list_param, surface_of, with_param,
};
use crate::collapse::{falls, find_fallen};
use crate::components::{all_components, lists_view};
use crate::face_coalesce::{append_ids, ref_list_param as ref_list, ref_param, ref_params, truth, truth_param};
use crate::face_plan::{face_styles, listed, styles_by_target};
use crate::graph::{
    build_index, descendants, entity_ref, entity_ref_value, find_record, find_typed, indexes,
    largest_id, lemma_position, max_id, nth_bool, nth_logical, position, push_simple, reachable,
    record_at, remove_entities, replace_entity, simple_entity, simple_record, typed_record, without,
};
use crate::instances::{
    all_patched, join_entities, mentions, patch_presentation_lists, patched, presented, styles_of,
};
use crate::minify::capped;
use crate::placements::{
    fresh, mapped_id, place_view, push_frame, push_mapped, push_source, push_style, room,
    with_frame, with_mapped, with_source, with_style, Place, PlaceView,
};
use crate::planar_plan::{
    all_picked, beside, collect_shell_contexts, contexts, edge_tables, families, features,
    features_view, find_families, find_hosts, hosts, measures_view, others, picked, Feature,
    FeatureMeasure, FeatureView, HostScene, LookView, MeasureView, ShellContext, StyleKey,
    MIN_GROUP,
};
use crate::sets::set_of;
use crate::styles::{applied, applied_styles, styles_view, StyleRef, StyleView};
use crate::text::same_text;

verus! {

broadcast use vstd::std_specs::hash::group_hash_axioms;

/// What the pass has replaced.
#[derive(Debug, Clone, Copy, PartialEq, Eq, Structural)]
pub struct PlanarFeatureStats {
    pub arrays: usize,
    pub families: usize,
    pub instances: usize,
    pub entities_removed: usize,
    pub styles_replaced: usize,
}

/// How far a group of faces is moved from another. Where it is not, nothing but a turn remains.
#[derive(Debug)]
pub struct Offset {
    pub host: u64,
    pub source: u64,
    pub target: u64,
    pub x: String,
    pub y: String,
    pub z: String,
    pub still: bool,
}

#[verifier::ext_equal]
pub struct OffsetView {
    pub host: u64,
    pub source: u64,
    pub target: u64,
    pub x: Seq<char>,
    pub y: Seq<char>,
    pub z: Seq<char>,
    pub still: bool,
}

impl View for Offset {
    type V = OffsetView;

    open spec fn view(&self) -> OffsetView {
        OffsetView {
            host: self.host,
            source: self.source,
            target: self.target,
            x: self.x@,
            y: self.y@,
            z: self.z@,
            still: self.still,
        }
    }
}

pub open spec fn offsets_view(offsets: Seq<Offset>) -> Seq<OffsetView> {
    Seq::new(offsets.len(), |i: int| offsets[i]@)
}

/// What was measured of plane faces and of the groups of faces that stand out of them.
pub struct PlanarEvidence {
    pub flat: HashSet<u64>,
    pub measures: Vec<FeatureMeasure>,
    pub offsets: Vec<Offset>,
}

/// How far one group of faces is moved from another.
pub open spec fn offset_of(offsets: Seq<OffsetView>, host: u64, source: u64, target: u64) -> Option<
    OffsetView,
>
    decreases offsets.len(),
{
    if offsets.len() == 0 {
        None
    } else if offsets.last().host == host && offsets.last().source == source
        && offsets.last().target == target {
        Some(offsets.last())
    } else {
        offset_of(offsets.drop_last(), host, source, target)
    }
}

/// The quarters that lead from one turn to another.
pub open spec fn quarters(from: u8, to: u8) -> u8 {
    ((to % 4 + 4 - from % 4) % 4) as u8
}

/// The place of a group of faces, seen from the first of its family. Inside, nothing means that
/// both stand at the same place.
pub open spec fn feature_place(
    offsets: Seq<OffsetView>,
    host: u64,
    first: FeatureView,
    feature: FeatureView,
) -> Option<Option<PlaceView>> {
    let quarter = quarters(feature.quarter, first.quarter);
    match offset_of(offsets, host, first.faces[0], feature.faces[0]) {
        None => None,
        Some(offset) => if quarter == 0 && offset.still {
            Some(None)
        } else {
            Some(Some(PlaceView { quarter, x: offset.x, y: offset.y, z: offset.z }))
        },
    }
}

/// The places of a family; nothing where one is not known.
pub open spec fn family_places(
    offsets: Seq<OffsetView>,
    host: u64,
    family: Seq<FeatureView>,
) -> Option<Seq<Option<PlaceView>>> {
    if forall|i: int|
        0 <= i < family.len() ==> feature_place(
            offsets,
            host,
            family[0],
            #[trigger] family[i],
        ) is Some {
        Some(
            Seq::new(
                family.len(),
                |i: int| feature_place(offsets, host, family[0], family[i])->Some_0,
            ),
        )
    } else {
        None
    }
}

/// The styles that the instances of a family get.
pub open spec fn look_styles(origin: Seq<EntityView>, container: u64, look: LookView) -> Seq<
    Seq<u64>,
> {
    match look {
        LookView::Face(styles) => seq![styles],
        LookView::Container => {
            let all = applied(origin, container);
            Seq::new(all.len(), |i: int| all[i].assignments)
        },
        LookView::Plain => Seq::empty(),
    }
}

/// Styled items for an instance.
pub open spec fn with_styles(
    added: Seq<EntityView>,
    last: u64,
    styles: Seq<Seq<u64>>,
    target: u64,
    n: nat,
) -> Seq<EntityView>
    decreases n,
{
    if n == 0 {
        added
    } else {
        with_style(
            with_styles(added, last, styles, target, (n - 1) as nat),
            last,
            styles[n - 1],
            target,
        )
    }
}

/// New ids from one on.
pub open spec fn ids_from(id: u64, n: nat) -> Seq<u64> {
    Seq::new(n, |i: int| (id + i) as u64)
}

/// New entities with the ids of instances and of their styled items.
#[verifier::ext_equal]
pub struct GrownView {
    pub added: Seq<EntityView>,
    pub mapped: Seq<u64>,
    pub styles: Seq<u64>,
}

/// The first `n` instances of a family.
pub open spec fn with_family(
    start: GrownView,
    last: u64,
    frame: u64,
    map: u64,
    places: Seq<Option<PlaceView>>,
    styles: Seq<Seq<u64>>,
    n: nat,
) -> GrownView
    decreases n,
{
    if n == 0 {
        start
    } else {
        let before = with_family(start, last, frame, map, places, styles, (n - 1) as nat);
        let mapped = mapped_id(before.added, last, places[n - 1]);
        let placed = with_mapped(before.added, last, frame, map, places[n - 1]);
        GrownView {
            added: with_styles(placed, last, styles, mapped, styles.len()),
            mapped: before.mapped.push(mapped),
            styles: before.styles + ids_from(fresh(placed, last), styles.len()),
        }
    }
}

/// A solid made of the faces of a group and a face that closes it.
pub open spec fn with_solid(
    added: Seq<EntityView>,
    last: u64,
    feature: FeatureView,
    surface: u64,
    sense: bool,
) -> Seq<EntityView> {
    let id = fresh(added, last);
    let none = ParamView::String("NONE"@);
    added.push(
        simple_entity(
            id,
            "FACE_OUTER_BOUND"@,
            seq![none, ref_param(feature.bound.loop_id), truth(!feature.bound.orientation)],
        ),
    ).push(
        simple_entity(
            (id + 1) as u64,
            "ADVANCED_FACE"@,
            seq![
                none,
                ParamView::List(ref_params(seq![id])),
                ref_param(surface),
                truth(!sense),
            ],
        ),
    ).push(
        simple_entity(
            (id + 2) as u64,
            "CLOSED_SHELL"@,
            seq![none, ParamView::List(ref_params(feature.faces.push((id + 1) as u64)))],
        ),
    ).push(
        simple_entity(
            (id + 3) as u64,
            "MANIFOLD_SOLID_BREP"@,
            seq![
                ParamView::String("step-redox canonical planar positive feature"@),
                ref_param((id + 2) as u64),
            ],
        ),
    )
}

/// The new items that a list does not hold yet.
pub open spec fn missing(items: Seq<ParamView>, new: Seq<u64>) -> Seq<u64>
    decreases new.len(),
{
    if new.len() == 0 {
        Seq::empty()
    } else {
        let rest = missing(items, new.drop_last());
        if items.contains(ref_param(new.last())) {
            rest
        } else {
            rest.push(new.last())
        }
    }
}

/// A presentation root that holds an anchor, with new items at its end.
pub open spec fn anchored(entity: EntityView, anchors: Set<u64>, new: Seq<u64>) -> EntityView {
    match simple_record(entity) {
        None => entity,
        Some(record) => match presented(record.name) {
            None => entity,
            Some(n) => match record.parameter {
                ParamView::List(params) if n < params.len() => match params[n] {
                    ParamView::List(items) if mentions(items, anchors) => simple_entity(
                        entity.id(),
                        record.name,
                        params.update(
                            n,
                            ParamView::List(items + ref_params(missing(items, new))),
                        ),
                    ),
                    _ => entity,
                },
                _ => entity,
            },
        },
    }
}

pub open spec fn all_anchored(entities: Seq<EntityView>, anchors: Set<u64>, new: Seq<u64>) -> Seq<
    EntityView,
> {
    Seq::new(entities.len(), |i: int| anchored(entities[i], anchors, new))
}

/// The faces of groups, from one of them on.
pub open spec fn faces_from(group: Seq<FeatureView>, from: int, n: int) -> Seq<u64>
    decreases n - from,
{
    if n <= from {
        Seq::empty()
    } else {
        faces_from(group, from, n - 1) + group[n - 1].faces
    }
}

pub open spec fn family_faces(group: Seq<FeatureView>) -> Seq<u64> {
    faces_from(group, 0, group.len() as int)
}

pub open spec fn family_bounds(group: Seq<FeatureView>) -> Seq<u64> {
    Seq::new(group.len(), |i: int| group[i].bound.bound)
}

pub open spec fn style_ids(styles: Seq<StyleView>) -> Seq<u64> {
    Seq::new(styles.len(), |i: int| styles[i].id)
}

/// How far the pass has come.
#[verifier::ext_equal]
pub struct PlanarView {
    pub base: Seq<EntityView>,
    pub added: Seq<EntityView>,
    pub claimed_faces: Set<u64>,
    pub claimed_bounds: Set<u64>,
    pub roots: Seq<u64>,
    pub seeds: Seq<u64>,
    pub arrays: nat,
    pub families: nat,
    pub instances: nat,
}

/// What is the same for all families of a host.
#[verifier::ext_equal]
pub struct HostView {
    pub origin: Seq<EntityView>,
    pub last: u64,
    pub place: ShellContext,
    pub host: u64,
    pub surface: u64,
    pub sense: bool,
    pub frame: u64,
}

/// The presentation roots after a family.
pub open spec fn restyled(
    base: Seq<EntityView>,
    origin: Seq<EntityView>,
    container: u64,
    look: LookView,
    old: Seq<u64>,
    new: Seq<u64>,
) -> Seq<EntityView> {
    if old.len() > 0 {
        all_patched(base, old.to_set(), new)
    } else if look is Container && new.len() > 0 {
        all_anchored(base, style_ids(applied(origin, container)).to_set(), new)
    } else {
        base
    }
}

/// The styled items of the faces of a family.
pub open spec fn old_styles(origin: Seq<EntityView>, group: Seq<FeatureView>) -> Seq<u64> {
    if group[0].look is Face {
        styles_of(origin, family_faces(group))
    } else {
        Seq::empty()
    }
}

/// The pass after one more family, with the ids of all instances at the host.
pub open spec fn after_family(
    state: PlanarView,
    mapped: Seq<u64>,
    host: HostView,
    group: Seq<FeatureView>,
    places: Seq<Option<PlaceView>>,
) -> Option<(PlanarView, Seq<u64>)> {
    let styles = look_styles(host.origin, host.place.container_id, group[0].look);
    if !room(state.added, host.last, (6 + (3 + styles.len()) * group.len()) as int) {
        None
    } else {
        let solid = (fresh(state.added, host.last) + 3) as u64;
        let closed = with_solid(state.added, host.last, group[0], host.surface, host.sense);
        let map = (fresh(closed, host.last) + 1) as u64;
        let sourced = with_source(
            closed,
            host.last,
            "step-redox planar positive feature source"@,
            solid,
            host.frame,
            host.place.context_id,
        );
        let grown = with_family(
            GrownView { added: sourced, mapped, styles: Seq::empty() },
            host.last,
            host.frame,
            map,
            places,
            styles,
            group.len(),
        );
        let old = old_styles(host.origin, group);
        let bounds = family_bounds(group);
        let faces = family_faces(group);
        Some(
            (
                PlanarView {
                    base: restyled(
                        state.base,
                        host.origin,
                        host.place.container_id,
                        group[0].look,
                        old,
                        grown.styles,
                    ),
                    added: grown.added,
                    claimed_faces: state.claimed_faces.union(faces.to_set()),
                    claimed_bounds: state.claimed_bounds.union(bounds.to_set()),
                    roots: state.roots + faces + bounds + old,
                    seeds: state.seeds + bounds + faces_from(group, 1, group.len() as int) + old,
                    arrays: state.arrays,
                    families: state.families,
                    instances: state.instances + group.len(),
                },
                grown.mapped,
            ),
        )
    }
}

/// Families whose places are known, with these.
pub open spec fn placed_families(
    offsets: Seq<OffsetView>,
    host: u64,
    all: Seq<Seq<FeatureView>>,
    n: nat,
) -> Seq<(Seq<FeatureView>, Seq<Option<PlaceView>>)>
    decreases n,
{
    if n == 0 {
        Seq::empty()
    } else {
        let rest = placed_families(offsets, host, all, (n - 1) as nat);
        match family_places(offsets, host, all[n - 1]) {
            Some(places) => rest.push((all[n - 1], places)),
            None => rest,
        }
    }
}

pub open spec fn after_families(
    state: PlanarView,
    host: HostView,
    groups: Seq<(Seq<FeatureView>, Seq<Option<PlaceView>>)>,
    n: nat,
) -> Option<(PlanarView, Seq<u64>)>
    decreases n,
{
    if n == 0 {
        Some((state, Seq::empty()))
    } else {
        match after_families(state, host, groups, (n - 1) as nat) {
            None => None,
            Some((now, mapped)) => after_family(
                now,
                mapped,
                host,
                groups[n - 1].0,
                groups[n - 1].1,
            ),
        }
    }
}

pub open spec fn all_faces(groups: Seq<(Seq<FeatureView>, Seq<Option<PlaceView>>)>, n: nat) -> Seq<
    u64,
>
    decreases n,
{
    if n == 0 {
        Seq::empty()
    } else {
        all_faces(groups, (n - 1) as nat) + family_faces(groups[n - 1].0)
    }
}

pub open spec fn all_bounds(groups: Seq<(Seq<FeatureView>, Seq<Option<PlaceView>>)>, n: nat) -> Seq<
    u64,
>
    decreases n,
{
    if n == 0 {
        Seq::empty()
    } else {
        all_bounds(groups, (n - 1) as nat) + family_bounds(groups[n - 1].0)
    }
}

pub open spec fn shortened(entities: Seq<EntityView>, id: u64, remove: Set<u64>) -> Option<
    Seq<EntityView>,
> {
    match position(entities, id) {
        Some(at) => match list_without(entities[at], 1, remove) {
            Some(entity) => Some(entities.update(at, entity)),
            None => None,
        },
        None => None,
    }
}

pub open spec fn lengthened(entities: Seq<EntityView>, id: u64, more: Seq<u64>) -> Option<
    Seq<EntityView>,
> {
    match position(entities, id) {
        Some(at) => match list_with(entities[at], 1, more) {
            Some(entity) => Some(entities.update(at, entity)),
            None => None,
        },
        None => None,
    }
}

/// The pass after the shell, the host and the representation were changed. Where one of them
/// cannot be, those behind it stay as they are and the array is not counted.
pub open spec fn rebuilt(
    state: PlanarView,
    place: ShellContext,
    host: u64,
    faces: Set<u64>,
    bounds: Set<u64>,
    mapped: Seq<u64>,
    groups: nat,
) -> PlanarView {
    match shortened(state.base, place.shell_id, faces) {
        None => state,
        Some(base) => match shortened(base, host, bounds) {
            None => PlanarView { base, ..state },
            Some(base) => match lengthened(base, place.representation_id, mapped) {
                None => PlanarView { base, ..state },
                Some(base) => PlanarView {
                    base,
                    arrays: state.arrays + 1,
                    families: state.families + groups,
                    ..state
                },
            },
        },
    }
}

/// The pass after one more host.
pub open spec fn after_host(
    origin: Seq<EntityView>,
    flat: Set<u64>,
    measures: Seq<MeasureView>,
    offsets: Seq<OffsetView>,
    last: u64,
    place: ShellContext,
    start: Seq<EntityView>,
    faces: Seq<u64>,
    state: PlanarView,
    host: u64,
    parts: Seq<Seq<u64>>,
) -> Option<PlanarView> {
    match (surface_of(start, host), record_at(start, host), listed_in(state.base, host, 1)) {
        (Some(surface), Some(record), Some(bounds)) => match nth_logical(record, 3) {
            Some(sense) if flat.contains(host) => {
                let found = features(
                    origin,
                    start,
                    measures,
                    place.container_id,
                    faces,
                    host,
                    bounds,
                    state.claimed_faces,
                    state.claimed_bounds,
                    parts,
                    parts.len(),
                );
                let all = families(found, found.len());
                let groups = placed_families(offsets, host, all, all.len());
                if found.len() < MIN_GROUP || groups.len() == 0 {
                    Some(state)
                } else if !room(state.added, last, 7) {
                    None
                } else {
                    let view = HostView {
                        origin,
                        last,
                        place,
                        host,
                        surface,
                        sense,
                        frame: fresh(state.added, last),
                    };
                    match after_families(
                        PlanarView { added: with_frame(state.added, last), ..state },
                        view,
                        groups,
                        groups.len(),
                    ) {
                        None => None,
                        Some((next, mapped)) => Some(
                            rebuilt(
                                next,
                                place,
                                host,
                                all_faces(groups, groups.len()).to_set(),
                                all_bounds(groups, groups.len()).to_set(),
                                mapped,
                                groups.len(),
                            ),
                        ),
                    }
                }
            },
            _ => Some(state),
        },
        _ => Some(state),
    }
}

/// The parts that a shell falls into without a host.
pub open spec fn parts_of(entities: Seq<EntityView>, faces: Seq<u64>, host: u64) -> Seq<Seq<u64>> {
    choose|parts: Seq<Seq<u64>>|
        all_components(beside(entities, faces, host), others(faces, host), parts)
}

pub open spec fn after_hosts(
    origin: Seq<EntityView>,
    flat: Set<u64>,
    measures: Seq<MeasureView>,
    offsets: Seq<OffsetView>,
    last: u64,
    place: ShellContext,
    faces: Seq<u64>,
    state: PlanarView,
    all: Seq<u64>,
    n: nat,
) -> Option<PlanarView>
    decreases n,
{
    if n == 0 {
        Some(state)
    } else {
        match after_hosts(
            origin,
            flat,
            measures,
            offsets,
            last,
            place,
            faces,
            state,
            all,
            (n - 1) as nat,
        ) {
            None => None,
            Some(now) => after_host(
                origin,
                flat,
                measures,
                offsets,
                last,
                place,
                state.base,
                faces,
                now,
                all[n - 1],
                parts_of(state.base, faces, all[n - 1]),
            ),
        }
    }
}

/// The pass after one more shell.
pub open spec fn after_context(
    origin: Seq<EntityView>,
    flat: Set<u64>,
    measures: Seq<MeasureView>,
    offsets: Seq<OffsetView>,
    last: u64,
    state: PlanarView,
    place: ShellContext,
) -> Option<PlanarView> {
    match listed_in(state.base, place.shell_id, 1) {
        Some(faces) if faces.len() >= MIN_GROUP + 2 => {
            let all = hosts(state.base, faces);
            after_hosts(
                origin,
                flat,
                measures,
                offsets,
                last,
                place,
                faces,
                state,
                all,
                all.len(),
            )
        },
        _ => Some(state),
    }
}

pub open spec fn start_state(origin: Seq<EntityView>) -> PlanarView {
    PlanarView {
        base: origin,
        added: Seq::empty(),
        claimed_faces: Set::empty(),
        claimed_bounds: Set::empty(),
        roots: Seq::empty(),
        seeds: Seq::empty(),
        arrays: 0,
        families: 0,
        instances: 0,
    }
}

pub open spec fn after_contexts(
    origin: Seq<EntityView>,
    flat: Set<u64>,
    measures: Seq<MeasureView>,
    offsets: Seq<OffsetView>,
    places: Seq<ShellContext>,
    n: nat,
) -> Option<PlanarView>
    decreases n,
{
    if n == 0 {
        Some(start_state(origin))
    } else {
        match after_contexts(origin, flat, measures, offsets, places, (n - 1) as nat) {
            None => None,
            Some(state) => after_context(
                origin,
                flat,
                measures,
                offsets,
                max_id(origin),
                state,
                places[n - 1],
            ),
        }
    }
}

/// What may fall: the roots, and what can be reached from them.
pub open spec fn may_fall(entities: Seq<EntityView>, roots: Seq<u64>, id: u64) -> bool {
    reachable(entities, roots, id) && (roots.contains(id) || position(entities, id) is Some)
}

pub open spec fn given_up(entities: Seq<EntityView>, candidates: Seq<u64>, seeds: Seq<u64>) -> Set<
    u64,
> {
    Set::new(|id: u64| falls(entities, candidates, seeds, id))
}

/// The styled items among roots that are given up.
pub open spec fn styles_gone(entities: Seq<EntityView>, roots: Seq<u64>, gone: Set<u64>) -> Set<u64> {
    Set::new(
        |id: u64|
            roots.contains(id) && gone.contains(id) && typed_record(
                entities,
                id,
                "STYLED_ITEM"@,
            ) is Some,
    )
}

/// What the pass makes of entities. Where no array is rebuilt, nothing is given up.
pub open spec fn features_made(
    entities: Seq<EntityView>,
    evidence: PlanarEvidence,
    candidates: Seq<u64>,
    result: Seq<EntityView>,
    stats: PlanarFeatureStats,
) -> bool {
    let places = contexts(entities, entities.len());
    match after_contexts(
        entities,
        evidence.flat@,
        measures_view(evidence.measures@),
        offsets_view(evidence.offsets@),
        places,
        places.len(),
    ) {
        None => {
            &&& result == entities
            &&& stats == PlanarFeatureStats {
                arrays: 0,
                families: 0,
                instances: 0,
                entities_removed: 0,
                styles_replaced: 0,
            }
        },
        Some(state) => {
            let all = state.base + state.added;
            let gone = given_up(all, candidates, state.seeds);
            &&& forall|id: u64| #[trigger]
                candidates.contains(id) == may_fall(all, state.roots, id)
            &&& if state.arrays == 0 {
                &&& result == all
                &&& stats == PlanarFeatureStats {
                    arrays: 0,
                    families: capped(state.families),
                    instances: capped(state.instances),
                    entities_removed: 0,
                    styles_replaced: 0,
                }
            } else {
                &&& result == without(all, gone)
                &&& stats == PlanarFeatureStats {
                    arrays: capped(state.arrays),
                    families: capped(state.families),
                    instances: capped(state.instances),
                    entities_removed: gone.len() as usize,
                    styles_replaced: styles_gone(all, state.roots, gone).len() as usize,
                }
            }
        },
    }
}

/// How far one group of faces is moved from another.
fn find_offset(offsets: &Vec<Offset>, host: u64, source: u64, target: u64) -> (out: Option<usize>)
    ensures
        out is Some == offset_of(offsets_view(offsets@), host, source, target) is Some,
        out matches Some(at) ==> at < offsets@.len() && offset_of(
            offsets_view(offsets@),
            host,
            source,
            target,
        ) == Some(offsets@[at as int]@),
{
    let ghost views = offsets_view(offsets@);
    let mut i: usize = offsets.len();
    assert(views.take(views.len() as int) =~= views);
    while i > 0
        invariant
            i <= offsets.len(),
            views == offsets_view(offsets@),
            offset_of(views, host, source, target) == offset_of(
                views.take(i as int),
                host,
                source,
                target,
            ),
        decreases i,
    {
        i = i - 1;
        assert(views.take(i + 1).drop_last() =~= views.take(i as int));
        assert(views[i as int] == offsets@[i as int]@);
        if offsets[i].host == host && offsets[i].source == source && offsets[i].target == target {
            return Some(i);
        }
    }
    None
}

fn find_quarters(from: u8, to: u8) -> (out: u8)
    ensures
        out == quarters(from, to),
{
    let a: u8 = to % 4;
    let b: u8 = from % 4;
    (a + 4 - b) % 4
}

/// The place of a group of faces, seen from the first of its family.
fn find_feature_place(
    offsets: &Vec<Offset>,
    host: u64,
    first: &Feature,
    feature: &Feature,
) -> (out: Option<Option<Place>>)
    requires
        first.faces@.len() > 0,
        feature.faces@.len() > 0,
    ensures
        out is Some == feature_place(offsets_view(offsets@), host, first@, feature@) is Some,
        out matches Some(place) ==> feature_place(
            offsets_view(offsets@),
            host,
            first@,
            feature@,
        ) == Some(place_view(place)),
{
    let quarter: u8 = find_quarters(feature.quarter, first.quarter);
    match find_offset(offsets, host, first.faces[0], feature.faces[0]) {
        None => None,
        Some(at) => {
            let offset = &offsets[at];
            if quarter == 0 && offset.still {
                Some(None)
            } else {
                let place = Place {
                    quarter,
                    x: offset.x.clone(),
                    y: offset.y.clone(),
                    z: offset.z.clone(),
                };
                Some(Some(place))
            }
        },
    }
}

pub open spec fn places_view(places: Seq<Option<Place>>) -> Seq<Option<PlaceView>> {
    Seq::new(places.len(), |i: int| place_view(places[i]))
}

/// The places of a family.
fn find_family_places(
    offsets: &Vec<Offset>,
    host: u64,
    features: &Vec<Feature>,
    group: &Vec<usize>,
) -> (out: Option<Vec<Option<Place>>>)
    requires
        group@.len() > 0,
        forall|k: int| 0 <= k < group@.len() ==> #[trigger] group@[k] < features@.len(),
        forall|k: int| 0 <= k < features@.len() ==> (#[trigger] features@[k]).faces@.len() > 0,
    ensures
        out is Some == family_places(
            offsets_view(offsets@),
            host,
            picked(features_view(features@), group@),
        ) is Some,
        out matches Some(places) ==> family_places(
            offsets_view(offsets@),
            host,
            picked(features_view(features@), group@),
        ) == Some(places_view(places@)),
{
    let ghost views = features_view(features@);
    let ghost family = picked(views, group@);
    let mut out: Vec<Option<Place>> = Vec::new();
    let mut i: usize = 0;
    while i < group.len()
        invariant
            i <= group.len(),
            group@.len() > 0,
            views == features_view(features@),
            family == picked(views, group@),
            forall|k: int| 0 <= k < group@.len() ==> #[trigger] group@[k] < features@.len(),
            forall|k: int| 0 <= k < features@.len() ==> (#[trigger] features@[k]).faces@.len() > 0,
            out.len() == i,
            forall|k: int|
                0 <= k < i ==> feature_place(
                    offsets_view(offsets@),
                    host,
                    family[0],
                    #[trigger] family[k],
                ) == Some(place_view(out@[k])),
        decreases group.len() - i,
    {
        assert(group@[0] < features@.len() && group@[i as int] < features@.len());
        assert(family[0] == views[group@[0] as int]);
        assert(views[group@[0] as int] == features@[group@[0] as int]@);
        assert(family[i as int] == views[group@[i as int] as int]);
        assert(views[group@[i as int] as int] == features@[group@[i as int] as int]@);
        assert(features@[group@[0] as int].faces@.len() > 0);
        assert(features@[group@[i as int] as int].faces@.len() > 0);
        match find_feature_place(offsets, host, &features[group[0]], &features[group[i]]) {
            Some(place) => out.push(place),
            None => {
                assert(feature_place(
                    offsets_view(offsets@),
                    host,
                    family[0],
                    family[i as int],
                ) is None);
                return None;
            },
        }
        i = i + 1;
    }
    assert(places_view(out@) =~= family_places(offsets_view(offsets@), host, family)->Some_0);
    Some(out)
}

/// The styles that the instances of a family get.
fn find_look_styles(
    origin: &Vec<EntityInstance>,
    table: &HashMap<u64, Vec<u64>>,
    container: u64,
    look: &StyleKey,
) -> (out: Vec<Vec<u64>>)
    requires
        forall|t: u64| #[trigger]
            listed(table@, t) == face_styles(entities_view(origin@), t),
    ensures
        lists_view(out@) == look_styles(entities_view(origin@), container, look@),
{
    let mut out: Vec<Vec<u64>> = Vec::new();
    match look {
        StyleKey::Face(styles) => {
            let mut copy: Vec<u64> = Vec::new();
            append_ids(&mut copy, styles);
            assert(copy@ =~= styles@);
            out.push(copy);
            assert(lists_view(out@) =~= seq![styles@]);
        },
        StyleKey::Container => {
            let all = applied_styles(origin, table, container);
            let ghost views = styles_view(all@);
            let mut i: usize = 0;
            while i < all.len()
                invariant
                    i <= all.len(),
                    views == styles_view(all@),
                    out.len() == i,
                    forall|k: int| 0 <= k < i ==> (#[trigger] out@[k])@ == views[k].assignments,
                decreases all.len() - i,
            {
                assert(views[i as int] == all@[i as int]@);
                let mut copy: Vec<u64> = Vec::new();
                append_ids(&mut copy, &all[i].assignments);
                assert(copy@ =~= all@[i as int].assignments@);
                out.push(copy);
                i = i + 1;
            }
            assert(lists_view(out@) =~= look_styles(entities_view(origin@), container, look@));
        },
        StyleKey::Plain => {
            assert(lists_view(out@) =~= Seq::empty());
        },
    }
    out
}

/// Appends styled items for an instance and notes their ids.
fn push_styles(
    added: &mut Vec<EntityInstance>,
    last: u64,
    styles: &Vec<Vec<u64>>,
    target: u64,
    ids: &mut Vec<u64>,
)
    requires
        room(entities_view(old(added)@), last, styles@.len() as int),
    ensures
        entities_view(final(added)@) == with_styles(
            entities_view(old(added)@),
            last,
            lists_view(styles@),
            target,
            styles@.len(),
        ),
        entities_view(final(added)@).len() == old(added)@.len() + styles@.len(),
        final(ids)@ == old(ids)@ + ids_from(
            fresh(entities_view(old(added)@), last),
            styles@.len(),
        ),
{
    let ghost start = entities_view(added@);
    let ghost views = lists_view(styles@);
    let ghost before = ids@;
    let ghost new = ids_from(fresh(start, last), styles@.len());
    let mut i: usize = 0;
    assert(before + new.take(0) =~= before);
    while i < styles.len()
        invariant
            i <= styles.len(),
            views == lists_view(styles@),
            room(start, last, styles@.len() as int),
            new == ids_from(fresh(start, last), styles@.len()),
            entities_view(added@) == with_styles(start, last, views, target, i as nat),
            entities_view(added@).len() == start.len() + i,
            ids@ == before + new.take(i as int),
        decreases styles.len() - i,
    {
        assert(views[i as int] == styles@[i as int]@);
        let id: u64 = push_style(added, last, &styles[i], target);
        ids.push(id);
        i = i + 1;
        assert(before + new.take(i as int) =~= (before + new.take(i - 1)).push(new[i - 1]));
    }
    assert(new.take(new.len() as int) =~= new);
}

/// Whether the new entities of a family fit.
fn has_room_for(count: usize, last: u64, each: usize, times: usize) -> (out: bool)
    ensures
        out == (last + count + 6 + (3 + each) * times <= u64::MAX),
{
    let step: u128 = 3 + each as u128;
    let mut total: u128 = last as u128 + count as u128 + 6;
    let mut i: usize = 0;
    while i < times
        invariant
            i <= times,
            step == 3 + each,
            total == last + count + 6 + (3 + each) * i,
            i > 0 ==> total <= u64::MAX + step,
            total <= 0x1_0000_0000_0000_0000_0000_0000,
        decreases times - i,
    {
        if total > u64::MAX as u128 {
            proof {
                assert((3 + each) * times >= (3 + each) * i) by (nonlinear_arith)
                    requires
                        i <= times,
                        each >= 0,
                ;
            }
            return false;
        }
        total = total + step;
        proof {
            assert((3 + each) * (i + 1) == (3 + each) * i + (3 + each)) by (nonlinear_arith);
        }
        i = i + 1;
    }
    total <= u64::MAX as u128
}

/// Appends the instances of a family; their ids and those of their styled items are noted.
fn push_family(
    added: &mut Vec<EntityInstance>,
    last: u64,
    frame: u64,
    map: u64,
    places: &Vec<Option<Place>>,
    styles: &Vec<Vec<u64>>,
    mapped: &mut Vec<u64>,
) -> (ids: Vec<u64>)
    requires
        room(
            entities_view(old(added)@),
            last,
            ((3 + styles@.len()) * places@.len()) as int,
        ),
        frame <= u64::MAX - 6,
    ensures
        with_family(
            GrownView {
                added: entities_view(old(added)@),
                mapped: old(mapped)@,
                styles: Seq::empty(),
            },
            last,
            frame,
            map,
            places_view(places@),
            lists_view(styles@),
            places@.len(),
        ) == (GrownView {
            added: entities_view(final(added)@),
            mapped: final(mapped)@,
            styles: ids@,
        }),
{
    let ghost start = GrownView {
        added: entities_view(added@),
        mapped: mapped@,
        styles: Seq::empty(),
    };
    let ghost views = places_view(places@);
    let ghost lists = lists_view(styles@);
    let mut ids: Vec<u64> = Vec::new();
    let mut i: usize = 0;
    assert(ids@ =~= Seq::empty());
    while i < places.len()
        invariant
            i <= places.len(),
            views == places_view(places@),
            lists == lists_view(styles@),
            frame <= u64::MAX - 6,
            room(start.added, last, ((3 + styles@.len()) * places@.len()) as int),
            entities_view(added@).len() <= start.added.len() + (3 + styles@.len()) * i,
            with_family(start, last, frame, map, views, lists, i as nat) == (GrownView {
                added: entities_view(added@),
                mapped: mapped@,
                styles: ids@,
            }),
        decreases places.len() - i,
    {
        assert(views[i as int] == place_view(places@[i as int]));
        let ghost before = entities_view(added@);
        proof {
            let s: int = styles@.len() as int + 3;
            let n: int = places@.len() as int;
            assert(s * (i + 1) == s * i + s) by (nonlinear_arith);
            assert(s * (i + 1) <= s * n) by (nonlinear_arith)
                requires
                    i + 1 <= n,
                    s >= 0,
            ;
        }
        let one: u64 = push_mapped(added, last, frame, map, &places[i]);
        let ghost mid = entities_view(added@);
        assert(mid.len() <= before.len() + 3);
        push_styles(added, last, styles, one, &mut ids);
        mapped.push(one);
        i = i + 1;
    }
    ids
}

/// Appends a solid made of the faces of a group and a face that closes it.
fn push_solid(
    added: &mut Vec<EntityInstance>,
    last: u64,
    feature: &Feature,
    surface: u64,
    sense: bool,
) -> (solid: u64)
    requires
        room(entities_view(old(added)@), last, 4),
    ensures
        solid == (fresh(entities_view(old(added)@), last) + 3) as u64,
        entities_view(final(added)@) == with_solid(
            entities_view(old(added)@),
            last,
            feature@,
            surface,
            sense,
        ),
{
    let ghost start = entities_view(added@);
    let n: usize = added.len();
    assert(start.len() == n);
    let id: u64 = last + n as u64 + 1;
    let ghost none = ParamView::String("NONE"@);
    let mut bound: Vec<Parameter> = Vec::new();
    bound.push(Parameter::String("NONE".to_owned()));
    bound.push(entity_ref(feature.bound.loop_id));
    bound.push(truth_param(!feature.bound.orientation));
    assert(params_view(bound@) =~= seq![
        none,
        ref_param(feature@.bound.loop_id),
        truth(!feature@.bound.orientation),
    ]);
    push_simple(added, id, "FACE_OUTER_BOUND", bound);
    let mut bounds: Vec<u64> = Vec::new();
    bounds.push(id);
    assert(bounds@ =~= seq![id]);
    let mut face: Vec<Parameter> = Vec::new();
    face.push(Parameter::String("NONE".to_owned()));
    face.push(ref_list(&bounds));
    face.push(entity_ref(surface));
    face.push(truth_param(!sense));
    assert(params_view(face@) =~= seq![
        none,
        ParamView::List(ref_params(seq![id])),
        ref_param(surface),
        truth(!sense),
    ]);
    push_simple(added, id + 1, "ADVANCED_FACE", face);
    let mut faces: Vec<u64> = Vec::new();
    append_ids(&mut faces, &feature.faces);
    faces.push(id + 1);
    assert(faces@ =~= feature@.faces.push((id + 1) as u64));
    let mut shell: Vec<Parameter> = Vec::new();
    shell.push(Parameter::String("NONE".to_owned()));
    shell.push(ref_list(&faces));
    assert(params_view(shell@) =~= seq![
        none,
        ParamView::List(ref_params(feature@.faces.push((id + 1) as u64))),
    ]);
    push_simple(added, id + 2, "CLOSED_SHELL", shell);
    let mut solid: Vec<Parameter> = Vec::new();
    solid.push(Parameter::String("step-redox canonical planar positive feature".to_owned()));
    solid.push(entity_ref(id + 2));
    assert(params_view(solid@) =~= seq![
        ParamView::String("step-redox canonical planar positive feature"@),
        ref_param((id + 2) as u64),
    ]);
    push_simple(added, id + 3, "MANIFOLD_SOLID_BREP", solid);
    id + 3
}

/// The new items that a list does not hold yet.
fn find_missing(items: &Vec<Parameter>, new: &Vec<u64>) -> (out: Vec<u64>)
    ensures
        out@ == missing(params_view(items@), new@),
{
    let ghost views = params_view(items@);
    let mut known: HashSet<u64> = HashSet::new();
    let mut i: usize = 0;
    while i < items.len()
        invariant
            i <= items.len(),
            views == params_view(items@),
            forall|id: u64| #[trigger]
                known@.contains(id) ==> views.contains(ref_param(id)),
            forall|j: int, id: u64|
                0 <= j < i && #[trigger] views[j] == #[trigger] ref_param(id) ==> known@.contains(
                    id,
                ),
        decreases items.len() - i,
    {
        assert(views[i as int] == items@[i as int]@);
        if let Some(id) = entity_ref_value(&items[i]) {
            assert(views[i as int] == ref_param(id));
            known.insert(id);
        }
        i = i + 1;
    }
    let mut out: Vec<u64> = Vec::new();
    let mut k: usize = 0;
    assert(new@.take(0) =~= Seq::empty());
    while k < new.len()
        invariant
            k <= new.len(),
            forall|id: u64| #[trigger]
                known@.contains(id) ==> views.contains(ref_param(id)),
            forall|j: int, id: u64|
                0 <= j < views.len() && #[trigger] views[j] == #[trigger] ref_param(id)
                    ==> known@.contains(id),
            out@ == missing(views, new@.take(k as int)),
        decreases new.len() - k,
    {
        let id: u64 = new[k];
        proof {
            if views.contains(ref_param(id)) {
                let j = choose|j: int| 0 <= j < views.len() && views[j] == ref_param(id);
                assert(views[j] == ref_param(id));
            }
        }
        if !known.contains(&id) {
            out.push(id);
        }
        k = k + 1;
        assert(new@.take(k as int).drop_last() =~= new@.take(k - 1));
    }
    assert(new@.take(new@.len() as int) =~= new@);
    out
}

/// A presentation root that holds an anchor, with new items at its end.
fn anchor(entity: &EntityInstance, anchors: &HashSet<u64>, new: &Vec<u64>) -> (out: EntityInstance)
    ensures
        out@ == anchored(entity@, anchors@, new@),
{
    if let EntityInstance::Simple { id, record } = entity {
        let found: Option<usize> = if same_text(
            record.name.as_str(),
            "MECHANICAL_DESIGN_GEOMETRIC_PRESENTATION_REPRESENTATION",
        ) {
            Some(1)
        } else if same_text(record.name.as_str(), "PRESENTATION_LAYER_ASSIGNMENT") {
            Some(2)
        } else {
            None
        };
        if let Some(n) = found {
            if let Parameter::List(params) = &record.parameter {
                proof {
                    lemma_list_view(*params);
                }
                if n < params.len() {
                    assert(params_view(params@)[n as int] == params@[n as int]@);
                    if let Parameter::List(items) = &params[n] {
                        proof {
                            lemma_list_view(*items);
                        }
                        if crate::instances::find_mention(items, anchors) {
                            let more = find_missing(items, new);
                            let mut list = clone_params(items);
                            push_refs(&mut list, &more);
                            proof {
                                lemma_list_view(list);
                            }
                            return with_param(*id, record, params, n, Parameter::List(list));
                        }
                    }
                }
            }
        }
    }
    entity.clone()
}

/// Appends items to the presentation roots that hold an anchor.
pub fn append_presentation_items_with_anchors(
    entities: &mut Vec<EntityInstance>,
    anchors: &HashSet<u64>,
    new: &Vec<u64>,
)
    ensures
        entities_view(final(entities)@) == all_anchored(
            entities_view(old(entities)@),
            anchors@,
            new@,
        ),
{
    let ghost views = entities_view(entities@);
    let mut out: Vec<EntityInstance> = Vec::new();
    let mut i: usize = 0;
    while i < entities.len()
        invariant
            i <= entities.len(),
            out.len() == i,
            views == entities_view(entities@),
            *entities == *old(entities),
            forall|j: int|
                0 <= j < i ==> (#[trigger] out@[j])@ == anchored(views[j], anchors@, new@),
        decreases entities.len() - i,
    {
        assert(views[i as int] == entities@[i as int]@);
        let done = anchor(&entities[i], anchors, new);
        out.push(done);
        i = i + 1;
    }
    *entities = out;
    assert(entities_view(entities@) =~= all_anchored(views, anchors@, new@));
}

/// The ids of styled items.
fn find_style_ids(styles: &Vec<StyleRef>) -> (out: Vec<u64>)
    ensures
        out@ == style_ids(styles_view(styles@)),
{
    let ghost views = styles_view(styles@);
    let mut out: Vec<u64> = Vec::new();
    let mut i: usize = 0;
    while i < styles.len()
        invariant
            i <= styles.len(),
            out.len() == i,
            views == styles_view(styles@),
            forall|k: int| 0 <= k < i ==> #[trigger] out@[k] == views[k].id,
        decreases styles.len() - i,
    {
        assert(views[i as int] == styles@[i as int]@);
        out.push(styles[i].id);
        i = i + 1;
    }
    assert(out@ =~= style_ids(views));
    out
}

/// Changes the presentation roots after a family.
fn restyle(
    base: &mut Vec<EntityInstance>,
    origin: &Vec<EntityInstance>,
    table: &HashMap<u64, Vec<u64>>,
    container: u64,
    look: &StyleKey,
    old_ids: &Vec<u64>,
    new: &Vec<u64>,
)
    requires
        forall|t: u64| #[trigger]
            listed(table@, t) == face_styles(entities_view(origin@), t),
    ensures
        entities_view(final(base)@) == restyled(
            entities_view(old(base)@),
            entities_view(origin@),
            container,
            look@,
            old_ids@,
            new@,
        ),
{
    if old_ids.len() > 0 {
        let remove = set_of(old_ids);
        patch_presentation_lists(base, &remove, new);
    } else if new.len() > 0 {
        if let StyleKey::Container = look {
            let all = applied_styles(origin, table, container);
            let ids = find_style_ids(&all);
            let anchors = set_of(&ids);
            append_presentation_items_with_anchors(base, &anchors, new);
        }
    }
}

/// The faces of groups, from one of them on.
fn find_faces_from(features: &Vec<Feature>, group: &Vec<usize>, from: usize) -> (out: Vec<u64>)
    requires
        from <= group@.len(),
        forall|k: int| 0 <= k < group@.len() ==> #[trigger] group@[k] < features@.len(),
    ensures
        out@ == faces_from(
            picked(features_view(features@), group@),
            from as int,
            group@.len() as int,
        ),
{
    let ghost views = features_view(features@);
    let ghost family = picked(views, group@);
    let mut out: Vec<u64> = Vec::new();
    let mut i: usize = from;
    while i < group.len()
        invariant
            from <= i <= group.len(),
            views == features_view(features@),
            family == picked(views, group@),
            forall|k: int| 0 <= k < group@.len() ==> #[trigger] group@[k] < features@.len(),
            out@ == faces_from(family, from as int, i as int),
        decreases group.len() - i,
    {
        assert(group@[i as int] < features@.len());
        assert(family[i as int] == features@[group@[i as int] as int]@);
        append_ids(&mut out, &features[group[i]].faces);
        i = i + 1;
    }
    out
}

fn find_family_bounds(features: &Vec<Feature>, group: &Vec<usize>) -> (out: Vec<u64>)
    requires
        forall|k: int| 0 <= k < group@.len() ==> #[trigger] group@[k] < features@.len(),
    ensures
        out@ == family_bounds(picked(features_view(features@), group@)),
{
    let ghost family = picked(features_view(features@), group@);
    let mut out: Vec<u64> = Vec::new();
    let mut i: usize = 0;
    while i < group.len()
        invariant
            i <= group.len(),
            out.len() == i,
            family == picked(features_view(features@), group@),
            forall|k: int| 0 <= k < group@.len() ==> #[trigger] group@[k] < features@.len(),
            forall|k: int| 0 <= k < i ==> #[trigger] out@[k] == family[k].bound.bound,
        decreases group.len() - i,
    {
        assert(group@[i as int] < features@.len());
        assert(family[i as int] == features@[group@[i as int] as int]@);
        out.push(features[group[i]].bound.bound);
        i = i + 1;
    }
    assert(out@ =~= family_bounds(family));
    out
}

/// Adds ids to a set.
fn add_all(set: &mut HashSet<u64>, ids: &Vec<u64>)
    ensures
        final(set)@ == old(set)@.union(ids@.to_set()),
{
    let ghost before = set@;
    let mut i: usize = 0;
    while i < ids.len()
        invariant
            i <= ids.len(),
            before.subset_of(set@),
            forall|id: u64| #[trigger] set@.contains(id) ==> before.contains(id) || ids@.contains(id),
            forall|j: int| 0 <= j < i ==> set@.contains(#[trigger] ids@[j]),
        decreases ids.len() - i,
    {
        set.insert(ids[i]);
        i = i + 1;
    }
    assert(set@ =~= before.union(ids@.to_set()));
}

/// How far the pass has come.
struct Planar {
    base: Vec<EntityInstance>,
    added: Vec<EntityInstance>,
    claimed_faces: HashSet<u64>,
    claimed_bounds: HashSet<u64>,
    roots: Vec<u64>,
    seeds: Vec<u64>,
    arrays: usize,
    families: usize,
    instances: usize,
    counts: Ghost<(nat, nat, nat)>,
}

impl Planar {
    spec fn is_counted(&self) -> bool {
        &&& self.arrays == capped(self.counts@.0)
        &&& self.families == capped(self.counts@.1)
        &&& self.instances == capped(self.counts@.2)
    }
}

impl View for Planar {
    type V = PlanarView;

    closed spec fn view(&self) -> PlanarView {
        PlanarView {
            base: entities_view(self.base@),
            added: entities_view(self.added@),
            claimed_faces: self.claimed_faces@,
            claimed_bounds: self.claimed_bounds@,
            roots: self.roots@,
            seeds: self.seeds@,
            arrays: self.counts@.0,
            families: self.counts@.1,
            instances: self.counts@.2,
        }
    }
}

/// What is the same for all families of a host.
struct Host {
    last: u64,
    place: ShellContext,
    host: u64,
    surface: u64,
    sense: bool,
    frame: u64,
}

impl Host {
    spec fn with_origin(&self, origin: Seq<EntityView>) -> HostView {
        HostView {
            origin,
            last: self.last,
            place: self.place,
            host: self.host,
            surface: self.surface,
            sense: self.sense,
            frame: self.frame,
        }
    }
}

/// Makes a family instances of one solid.
fn add_family(
    state: &mut Planar,
    mapped: &mut Vec<u64>,
    origin: &Vec<EntityInstance>,
    table: &HashMap<u64, Vec<u64>>,
    host: &Host,
    features: &Vec<Feature>,
    group: &Vec<usize>,
    places: &Vec<Option<Place>>,
) -> (done: bool)
    requires
        old(state).is_counted(),
        host.frame <= u64::MAX - 6,
        group@.len() > 0,
        places@.len() == group@.len(),
        forall|k: int| 0 <= k < group@.len() ==> #[trigger] group@[k] < features@.len(),
        forall|t: u64| #[trigger]
            listed(table@, t) == face_styles(entities_view(origin@), t),
    ensures
        done == after_family(
            old(state)@,
            old(mapped)@,
            host.with_origin(entities_view(origin@)),
            picked(features_view(features@), group@),
            places_view(places@),
        ) is Some,
        done ==> final(state).is_counted() && after_family(
            old(state)@,
            old(mapped)@,
            host.with_origin(entities_view(origin@)),
            picked(features_view(features@), group@),
            places_view(places@),
        ) == Some((final(state)@, final(mapped)@)),
{
    let ghost before = state@;
    let ghost first_views = entities_view(origin@);
    let ghost family = picked(features_view(features@), group@);
    assert(group@[0] < features@.len());
    assert(family[0] == features@[group@[0] as int]@);
    let first = &features[group[0]];
    let container: u64 = host.place.container_id;
    let styles = find_look_styles(origin, table, container, &first.look);
    let count: usize = state.added.len();
    assert(count == before.added.len());
    assert(lists_view(styles@).len() == styles@.len());
    assert(family.len() == group@.len());
    if !has_room_for(count, host.last, styles.len(), group.len()) {
        return false;
    }
    proof {
        let n: int = group@.len() as int;
        let s: int = styles@.len() as int;
        assert((3 + s) * n >= 0) by (nonlinear_arith)
            requires
                n >= 0,
                s >= 0,
        ;
    }
    let solid: u64 = push_solid(&mut state.added, host.last, first, host.surface, host.sense);
    let map: u64 = push_source(
        &mut state.added,
        host.last,
        "step-redox planar positive feature source",
        solid,
        host.frame,
        host.place.context_id,
    );
    let ghost sourced = entities_view(state.added@);
    assert(sourced.len() == before.added.len() + 6);
    let new = push_family(
        &mut state.added,
        host.last,
        host.frame,
        map,
        places,
        &styles,
        mapped,
    );
    let faces = find_faces_from(features, group, 0);
    let bounds = find_family_bounds(features, group);
    let old_ids = match &first.look {
        StyleKey::Face(_) => crate::instances::find_styles_of(origin, table, &faces),
        _ => Vec::new(),
    };
    assert(old_ids@ =~= old_styles(first_views, family));
    restyle(&mut state.base, origin, table, container, &first.look, &old_ids, &new);
    add_all(&mut state.claimed_faces, &faces);
    add_all(&mut state.claimed_bounds, &bounds);
    append_ids(&mut state.roots, &faces);
    append_ids(&mut state.roots, &bounds);
    append_ids(&mut state.roots, &old_ids);
    append_ids(&mut state.seeds, &bounds);
    let later = find_faces_from(features, group, 1);
    append_ids(&mut state.seeds, &later);
    append_ids(&mut state.seeds, &old_ids);
    state.instances = state.instances.saturating_add(group.len());
    proof {
        state.counts@ = (state.counts@.0, state.counts@.1, state.counts@.2 + group@.len());
    }
    true
}

/// Whether two lists of entities have the same ids in the same order.
spec fn same_order(a: Seq<EntityView>, b: Seq<EntityView>) -> bool {
    a.len() == b.len() && forall|i: int| 0 <= i < a.len() ==> (#[trigger] a[i]).id() == b[i].id()
}

proof fn lemma_same_position(a: Seq<EntityView>, b: Seq<EntityView>, id: u64)
    requires
        same_order(a, b),
    ensures
        position(a, id) == position(b, id),
    decreases a.len(),
{
    if a.len() > 0 {
        assert(a[a.len() - 1].id() == b[b.len() - 1].id());
        let sa = a.drop_last();
        let sb = b.drop_last();
        assert forall|i: int| 0 <= i < sa.len() implies (#[trigger] sa[i]).id() == sb[i].id() by {
            assert(a[i].id() == b[i].id());
        }
        lemma_same_position(sa, sb, id);
    }
}

proof fn lemma_same_index(index: Map<u64, usize>, a: Seq<EntityView>, b: Seq<EntityView>)
    requires
        same_order(a, b),
        indexes(index, a),
    ensures
        indexes(index, b),
{
    assert forall|id: u64| #[trigger]
        index.contains_key(id) == (position(b, id) is Some) && (index.contains_key(id) ==> index[id]
            == position(b, id)->Some_0) by {
        lemma_same_position(a, b, id);
    }
}

proof fn lemma_restyled_order(
    base: Seq<EntityView>,
    origin: Seq<EntityView>,
    container: u64,
    look: LookView,
    old_ids: Seq<u64>,
    new: Seq<u64>,
)
    ensures
        same_order(base, restyled(base, origin, container, look, old_ids, new)),
{
    let next = restyled(base, origin, container, look, old_ids, new);
    assert forall|i: int| 0 <= i < base.len() implies (#[trigger] base[i]).id() == next[i].id() by {
        let remove = old_ids.to_set();
        assert(patched(base[i], remove, new).id() == base[i].id());
        let anchors = style_ids(applied(origin, container)).to_set();
        assert(anchored(base[i], anchors, new).id() == base[i].id());
    }
}

proof fn lemma_families_stop(
    state: PlanarView,
    host: HostView,
    groups: Seq<(Seq<FeatureView>, Seq<Option<PlaceView>>)>,
    n: nat,
    m: nat,
)
    requires
        n <= m,
        after_families(state, host, groups, n) is None,
    ensures
        after_families(state, host, groups, m) is None,
    decreases m,
{
    if n < m {
        lemma_families_stop(state, host, groups, n, (m - 1) as nat);
    }
}

/// A family and its places.
struct PlacedFamily {
    group: Vec<usize>,
    places: Vec<Option<Place>>,
}

spec fn placed_view(features: Seq<FeatureView>, groups: Seq<PlacedFamily>) -> Seq<
    (Seq<FeatureView>, Seq<Option<PlaceView>>),
> {
    Seq::new(
        groups.len(),
        |i: int| (picked(features, groups[i].group@), places_view(groups[i].places@)),
    )
}

spec fn is_sound(groups: Seq<PlacedFamily>, count: nat) -> bool {
    forall|g: int|
        0 <= g < groups.len() ==> {
            &&& (#[trigger] groups[g]).group@.len() > 0
            &&& groups[g].places@.len() == groups[g].group@.len()
            &&& forall|k: int|
                0 <= k < groups[g].group@.len() ==> #[trigger] groups[g].group@[k] < count
        }
}

/// Families whose places are known.
fn find_placed_families(
    offsets: &Vec<Offset>,
    host: u64,
    features: &Vec<Feature>,
    all: Vec<Vec<usize>>,
) -> (out: Vec<PlacedFamily>)
    requires
        forall|g: int, k: int|
            0 <= g < all@.len() && 0 <= k < all@[g]@.len() ==> #[trigger] all@[g]@[k]
                < features@.len(),
        forall|g: int| 0 <= g < all@.len() ==> (#[trigger] all@[g])@.len() >= MIN_GROUP,
        forall|k: int| 0 <= k < features@.len() ==> (#[trigger] features@[k]).faces@.len() > 0,
    ensures
        placed_view(features_view(features@), out@) == placed_families(
            offsets_view(offsets@),
            host,
            all_picked(features_view(features@), all@),
            all@.len(),
        ),
        is_sound(out@, features@.len()),
{
    let ghost views = features_view(features@);
    let ghost all_views = all_picked(views, all@);
    let mut out: Vec<PlacedFamily> = Vec::new();
    let mut i: usize = 0;
    assert(placed_view(views, out@) =~= Seq::empty());
    while i < all.len()
        invariant
            i <= all.len(),
            views == features_view(features@),
            all_views == all_picked(views, all@),
            forall|g: int, k: int|
                0 <= g < all@.len() && 0 <= k < all@[g]@.len() ==> #[trigger] all@[g]@[k]
                    < features@.len(),
            forall|g: int| 0 <= g < all@.len() ==> (#[trigger] all@[g])@.len() >= MIN_GROUP,
            forall|k: int| 0 <= k < features@.len() ==> (#[trigger] features@[k]).faces@.len() > 0,
            placed_view(views, out@) == placed_families(
                offsets_view(offsets@),
                host,
                all_views,
                i as nat,
            ),
            is_sound(out@, features@.len()),
        decreases all.len() - i,
    {
        assert(all_views[i as int] == picked(views, all@[i as int]@));
        assert(all@[i as int]@.len() >= MIN_GROUP);
        let ghost before = out@;
        if let Some(places) = find_family_places(offsets, host, features, &all[i]) {
            let mut group: Vec<usize> = Vec::new();
            let mut k: usize = 0;
            while k < all[i].len()
                invariant
                    i < all.len(),
                    k <= all@[i as int]@.len(),
                    group@ == all@[i as int]@.take(k as int),
                decreases all@[i as int]@.len() - k,
            {
                group.push(all[i][k]);
                k = k + 1;
                assert(all@[i as int]@.take(k as int) =~= all@[i as int]@.take(k - 1).push(
                    all@[i as int]@[k - 1],
                ));
            }
            assert(group@ =~= all@[i as int]@);
            let ghost entry = (picked(views, group@), places_view(places@));
            proof {
                let family = picked(views, group@);
                assert(places_view(places@).len() == family.len());
                assert(places_view(places@).len() == places@.len());
                assert forall|m: int| 0 <= m < group@.len() implies #[trigger] group@[m]
                    < features@.len() by {
                    assert(all@[i as int]@[m] < features@.len());
                }
            }
            out.push(PlacedFamily { group, places });
            assert(placed_view(views, out@) =~= placed_view(views, before).push(entry));
        }
        i = i + 1;
    }
    out
}

/// Makes all families of a host instances.
fn add_families(
    state: &mut Planar,
    origin: &Vec<EntityInstance>,
    table: &HashMap<u64, Vec<u64>>,
    index: &HashMap<u64, usize>,
    host: &Host,
    features: &Vec<Feature>,
    groups: &Vec<PlacedFamily>,
) -> (out: Option<Vec<u64>>)
    requires
        old(state).is_counted(),
        indexes(index@, old(state)@.base),
        host.frame <= u64::MAX - 6,
        is_sound(groups@, features@.len()),
        forall|t: u64| #[trigger]
            listed(table@, t) == face_styles(entities_view(origin@), t),
    ensures
        out is Some == after_families(
            old(state)@,
            host.with_origin(entities_view(origin@)),
            placed_view(features_view(features@), groups@),
            groups@.len(),
        ) is Some,
        out matches Some(mapped) ==> final(state).is_counted() && indexes(
            index@,
            final(state)@.base,
        ) && after_families(
            old(state)@,
            host.with_origin(entities_view(origin@)),
            placed_view(features_view(features@), groups@),
            groups@.len(),
        ) == Some((final(state)@, mapped@)),
{
    let ghost start = state@;
    let ghost first_views = entities_view(origin@);
    let ghost host_view = host.with_origin(first_views);
    let ghost views = placed_view(features_view(features@), groups@);
    let mut mapped: Vec<u64> = Vec::new();
    let mut i: usize = 0;
    assert(mapped@ =~= Seq::empty());
    while i < groups.len()
        invariant
            i <= groups.len(),
            start == old(state)@,
            state.is_counted(),
            indexes(index@, state@.base),
            first_views == entities_view(origin@),
            host_view == host.with_origin(first_views),
            views == placed_view(features_view(features@), groups@),
            host.frame <= u64::MAX - 6,
            is_sound(groups@, features@.len()),
            forall|t: u64| #[trigger] listed(table@, t) == face_styles(first_views, t),
            after_families(start, host_view, views, i as nat) == Some((state@, mapped@)),
        decreases groups.len() - i,
    {
        let ghost now = state@;
        let ghost now_mapped = mapped@;
        assert(views[i as int] == (
            picked(features_view(features@), groups@[i as int].group@),
            places_view(groups@[i as int].places@),
        ));
        assert(groups@[i as int].group@.len() > 0);
        if !add_family(
            state,
            &mut mapped,
            origin,
            table,
            host,
            features,
            &groups[i].group,
            &groups[i].places,
        ) {
            proof {
                lemma_families_stop(start, host_view, views, (i + 1) as nat, views.len());
            }
            return None;
        }
        proof {
            let group = views[i as int].0;
            let old_ids = old_styles(first_views, group);
            let next = after_family(now, now_mapped, host_view, group, views[i as int].1)->Some_0.0;
            assert(next == state@);
            let styles = look_styles(
                first_views,
                host_view.place.container_id,
                group[0].look,
            );
            let closed = with_solid(
                now.added,
                host_view.last,
                group[0],
                host_view.surface,
                host_view.sense,
            );
            let sourced = with_source(
                closed,
                host_view.last,
                "step-redox planar positive feature source"@,
                (fresh(now.added, host_view.last) + 3) as u64,
                host_view.frame,
                host_view.place.context_id,
            );
            let grown = with_family(
                GrownView { added: sourced, mapped: now_mapped, styles: Seq::empty() },
                host_view.last,
                host_view.frame,
                (fresh(closed, host_view.last) + 1) as u64,
                views[i as int].1,
                styles,
                group.len(),
            );
            lemma_restyled_order(
                now.base,
                first_views,
                host_view.place.container_id,
                group[0].look,
                old_ids,
                grown.styles,
            );
            lemma_same_index(index@, now.base, state@.base);
        }
        i = i + 1;
    }
    Some(mapped)
}

/// The faces of all families.
fn find_all_faces(features: &Vec<Feature>, groups: &Vec<PlacedFamily>) -> (out: Vec<u64>)
    requires
        is_sound(groups@, features@.len()),
    ensures
        out@ == all_faces(placed_view(features_view(features@), groups@), groups@.len()),
{
    let ghost views = placed_view(features_view(features@), groups@);
    let mut out: Vec<u64> = Vec::new();
    let mut i: usize = 0;
    while i < groups.len()
        invariant
            i <= groups.len(),
            is_sound(groups@, features@.len()),
            views == placed_view(features_view(features@), groups@),
            out@ == all_faces(views, i as nat),
        decreases groups.len() - i,
    {
        assert(groups@[i as int].group@.len() > 0);
        assert(views[i as int].0 == picked(features_view(features@), groups@[i as int].group@));
        let faces = find_faces_from(features, &groups[i].group, 0);
        append_ids(&mut out, &faces);
        i = i + 1;
    }
    out
}

fn find_all_bounds(features: &Vec<Feature>, groups: &Vec<PlacedFamily>) -> (out: Vec<u64>)
    requires
        is_sound(groups@, features@.len()),
    ensures
        out@ == all_bounds(placed_view(features_view(features@), groups@), groups@.len()),
{
    let ghost views = placed_view(features_view(features@), groups@);
    let mut out: Vec<u64> = Vec::new();
    let mut i: usize = 0;
    while i < groups.len()
        invariant
            i <= groups.len(),
            is_sound(groups@, features@.len()),
            views == placed_view(features_view(features@), groups@),
            out@ == all_bounds(views, i as nat),
        decreases groups.len() - i,
    {
        assert(groups@[i as int].group@.len() > 0);
        assert(views[i as int].0 == picked(features_view(features@), groups@[i as int].group@));
        let bounds = find_family_bounds(features, &groups[i].group);
        append_ids(&mut out, &bounds);
        i = i + 1;
    }
    out
}

/// Takes references out of the list of an entity.
fn shorten(
    base: &mut Vec<EntityInstance>,
    index: &HashMap<u64, usize>,
    id: u64,
    remove: &HashSet<u64>,
) -> (done: bool)
    requires
        indexes(index@, entities_view(old(base)@)),
    ensures
        indexes(index@, entities_view(final(base)@)),
        done == shortened(entities_view(old(base)@), id, remove@) is Some,
        done ==> shortened(entities_view(old(base)@), id, remove@) == Some(
            entities_view(final(base)@),
        ),
        !done ==> entities_view(final(base)@) == entities_view(old(base)@),
{
    let ghost views = entities_view(base@);
    proof {
        lemma_position(views, id);
    }
    let found: Option<usize> = match index.get(&id) {
        Some(at) => Some(*at),
        None => None,
    };
    match found {
        None => false,
        Some(at) => {
            assert(views[at as int] == base@[at as int]@);
            match remove_refs_from_list_param(&base[at], 1, remove) {
                None => false,
                Some(entity) => {
                    let ghost new = entity@;
                    replace_entity(base, at, entity);
                    proof {
                        assert(same_order(views, views.update(at as int, new)));
                        lemma_same_index(index@, views, views.update(at as int, new));
                    }
                    true
                },
            }
        },
    }
}

/// Appends references to the list of an entity.
fn lengthen(
    base: &mut Vec<EntityInstance>,
    index: &HashMap<u64, usize>,
    id: u64,
    more: &Vec<u64>,
) -> (done: bool)
    requires
        indexes(index@, entities_view(old(base)@)),
    ensures
        indexes(index@, entities_view(final(base)@)),
        done == lengthened(entities_view(old(base)@), id, more@) is Some,
        done ==> lengthened(entities_view(old(base)@), id, more@) == Some(
            entities_view(final(base)@),
        ),
        !done ==> entities_view(final(base)@) == entities_view(old(base)@),
{
    let ghost views = entities_view(base@);
    proof {
        lemma_position(views, id);
    }
    let found: Option<usize> = match index.get(&id) {
        Some(at) => Some(*at),
        None => None,
    };
    match found {
        None => false,
        Some(at) => {
            assert(views[at as int] == base@[at as int]@);
            match append_refs_to_list_param(&base[at], 1, more) {
                None => false,
                Some(entity) => {
                    let ghost new = entity@;
                    replace_entity(base, at, entity);
                    proof {
                        assert(same_order(views, views.update(at as int, new)));
                        lemma_same_index(index@, views, views.update(at as int, new));
                    }
                    true
                },
            }
        },
    }
}

/// Changes the shell, the host and the representation.
fn rebuild(
    state: &mut Planar,
    index: &HashMap<u64, usize>,
    place: &ShellContext,
    host: u64,
    faces: &Vec<u64>,
    bounds: &Vec<u64>,
    mapped: &Vec<u64>,
    groups: usize,
)
    requires
        old(state).is_counted(),
        indexes(index@, old(state)@.base),
    ensures
        final(state).is_counted(),
        indexes(index@, final(state)@.base),
        final(state)@ == rebuilt(
            old(state)@,
            *place,
            host,
            faces@.to_set(),
            bounds@.to_set(),
            mapped@,
            groups as nat,
        ),
{
    let face_set = set_of(faces);
    let bound_set = set_of(bounds);
    if !shorten(&mut state.base, index, place.shell_id, &face_set) {
        return;
    }
    if !shorten(&mut state.base, index, host, &bound_set) {
        return;
    }
    if !lengthen(&mut state.base, index, place.representation_id, mapped) {
        return;
    }
    state.arrays = state.arrays.saturating_add(1);
    state.families = state.families.saturating_add(groups);
    proof {
        state.counts@ = (state.counts@.0 + 1, state.counts@.1 + groups as nat, state.counts@.2);
    }
}

/// Makes what stands out of a host instances.
fn add_host(
    state: &mut Planar,
    origin: &Vec<EntityInstance>,
    table: &HashMap<u64, Vec<u64>>,
    index: &HashMap<u64, usize>,
    evidence: &PlanarEvidence,
    last: u64,
    place: &ShellContext,
    start: &Vec<EntityInstance>,
    faces: &Vec<u64>,
    by_face: &HashMap<u64, Vec<u64>>,
    by_edge: &HashMap<u64, Vec<u64>>,
    host: u64,
) -> (done: bool)
    requires
        old(state).is_counted(),
        indexes(index@, old(state)@.base),
        indexes(index@, entities_view(start@)),
        crate::planar_plan::gives_edges(by_face@, entities_view(start@), faces@),
        crate::planar_plan::gives_users(by_edge@, entities_view(start@), faces@),
        forall|t: u64| #[trigger]
            listed(table@, t) == face_styles(entities_view(origin@), t),
    ensures
        done == after_host(
            entities_view(origin@),
            evidence.flat@,
            measures_view(evidence.measures@),
            offsets_view(evidence.offsets@),
            last,
            *place,
            entities_view(start@),
            faces@,
            old(state)@,
            host,
            parts_of(entities_view(start@), faces@, host),
        ) is Some,
        done ==> final(state).is_counted() && indexes(index@, final(state)@.base) && after_host(
            entities_view(origin@),
            evidence.flat@,
            measures_view(evidence.measures@),
            offsets_view(evidence.offsets@),
            last,
            *place,
            entities_view(start@),
            faces@,
            old(state)@,
            host,
            parts_of(entities_view(start@), faces@, host),
        ) == Some(final(state)@),
{
    let ghost before = state@;
    let ghost views = entities_view(start@);
    let surface: u64 = match crate::brep::face_surface(host, start, index) {
        Some(surface) => surface,
        None => {
            return true;
        },
    };
    let sense: bool = match find_record(start, index, host) {
        Some(record) => match nth_bool(record, 3) {
            Some(sense) => sense,
            None => {
                return true;
            },
        },
        None => {
            return true;
        },
    };
    if !evidence.flat.contains(&host) {
        return true;
    }
    let bounds = match ref_list_param(host, 1, &state.base, index) {
        Some(bounds) => bounds,
        None => {
            return true;
        },
    };
    let parts = crate::planar_plan::face_components_without_host(
        faces,
        host,
        by_face,
        by_edge,
        Ghost(views),
    );
    proof {
        crate::components::lemma_components_determined(
            beside(views, faces@, host),
            others(faces@, host),
            lists_view(parts@),
            parts_of(views, faces@, host),
        );
    }
    let scene = HostScene {
        origin,
        table,
        entities: start,
        index,
        measures: &evidence.measures,
        container: place.container_id,
        faces,
        by_face,
        by_edge,
        claimed_faces: &state.claimed_faces,
        claimed_bounds: &state.claimed_bounds,
    };
    let found = scene.find_features(host, &bounds, &parts);
    assert(features_view(found@).len() == found@.len());
    if found.len() < MIN_GROUP {
        return true;
    }
    let all = find_families(&found);
    let ghost all_views = all_picked(features_view(found@), all@);
    assert(all_views.len() == all@.len());
    let groups = find_placed_families(&evidence.offsets, host, &found, all);
    let ghost group_views = placed_view(features_view(found@), groups@);
    assert(group_views.len() == groups@.len());
    if groups.len() == 0 {
        return true;
    }
    let count: usize = state.added.len();
    assert(count == before.added.len());
    if !crate::placements::has_room(count, last, 0, 7) {
        return false;
    }
    let frame: u64 = push_frame(&mut state.added, last);
    let view = Host { last, place: *place, host, surface, sense, frame };
    let mapped = match add_families(state, origin, table, index, &view, &found, &groups) {
        Some(mapped) => mapped,
        None => {
            return false;
        },
    };
    let gone_faces = find_all_faces(&found, &groups);
    let gone_bounds = find_all_bounds(&found, &groups);
    rebuild(state, index, place, host, &gone_faces, &gone_bounds, &mapped, groups.len());
    true
}

proof fn lemma_hosts_stop(
    origin: Seq<EntityView>,
    flat: Set<u64>,
    measures: Seq<MeasureView>,
    offsets: Seq<OffsetView>,
    last: u64,
    place: ShellContext,
    faces: Seq<u64>,
    state: PlanarView,
    all: Seq<u64>,
    n: nat,
    m: nat,
)
    requires
        n <= m,
        after_hosts(origin, flat, measures, offsets, last, place, faces, state, all, n) is None,
    ensures
        after_hosts(origin, flat, measures, offsets, last, place, faces, state, all, m) is None,
    decreases m,
{
    if n < m {
        lemma_hosts_stop(
            origin,
            flat,
            measures,
            offsets,
            last,
            place,
            faces,
            state,
            all,
            n,
            (m - 1) as nat,
        );
    }
}

/// Makes what stands out of the faces of a shell instances.
fn add_context(
    state: &mut Planar,
    origin: &Vec<EntityInstance>,
    table: &HashMap<u64, Vec<u64>>,
    index: &HashMap<u64, usize>,
    evidence: &PlanarEvidence,
    last: u64,
    place: &ShellContext,
) -> (done: bool)
    requires
        old(state).is_counted(),
        indexes(index@, old(state)@.base),
        forall|t: u64| #[trigger]
            listed(table@, t) == face_styles(entities_view(origin@), t),
    ensures
        done == after_context(
            entities_view(origin@),
            evidence.flat@,
            measures_view(evidence.measures@),
            offsets_view(evidence.offsets@),
            last,
            old(state)@,
            *place,
        ) is Some,
        done ==> final(state).is_counted() && indexes(index@, final(state)@.base)
            && after_context(
            entities_view(origin@),
            evidence.flat@,
            measures_view(evidence.measures@),
            offsets_view(evidence.offsets@),
            last,
            old(state)@,
            *place,
        ) == Some(final(state)@),
{
    let ghost begin = state@;
    let ghost views = entities_view(origin@);
    let ghost flat = evidence.flat@;
    let ghost measures = measures_view(evidence.measures@);
    let ghost offsets = offsets_view(evidence.offsets@);
    let faces = match ref_list_param(place.shell_id, 1, &state.base, index) {
        Some(faces) => faces,
        None => {
            return true;
        },
    };
    if faces.len() < MIN_GROUP + 2 {
        return true;
    }
    let start = clone_entities(&state.base);
    assert(entities_view(start@) == begin.base);
    let (by_face, by_edge) = edge_tables(&faces, &start, index);
    let all = find_hosts(&faces, &start, index);
    let mut i: usize = 0;
    while i < all.len()
        invariant
            i <= all.len(),
            begin == old(state)@,
            state.is_counted(),
            indexes(index@, state@.base),
            entities_view(start@) == begin.base,
            indexes(index@, entities_view(start@)),
            crate::planar_plan::gives_edges(by_face@, entities_view(start@), faces@),
            crate::planar_plan::gives_users(by_edge@, entities_view(start@), faces@),
            views == entities_view(origin@),
            flat == evidence.flat@,
            measures == measures_view(evidence.measures@),
            offsets == offsets_view(evidence.offsets@),
            forall|t: u64| #[trigger] listed(table@, t) == face_styles(views, t),
            all@ == hosts(begin.base, faces@),
            listed_in(begin.base, place.shell_id, 1) == Some(faces@),
            faces@.len() >= MIN_GROUP + 2,
            after_hosts(
                views,
                flat,
                measures,
                offsets,
                last,
                *place,
                faces@,
                begin,
                all@,
                i as nat,
            ) == Some(state@),
        decreases all.len() - i,
    {
        if !add_host(
            state,
            origin,
            table,
            index,
            evidence,
            last,
            place,
            &start,
            &faces,
            &by_face,
            &by_edge,
            all[i],
        ) {
            proof {
                lemma_hosts_stop(
                    views,
                    flat,
                    measures,
                    offsets,
                    last,
                    *place,
                    faces@,
                    begin,
                    all@,
                    (i + 1) as nat,
                    all@.len(),
                );
            }
            return false;
        }
        i = i + 1;
    }
    true
}

proof fn lemma_contexts_stop(
    origin: Seq<EntityView>,
    flat: Set<u64>,
    measures: Seq<MeasureView>,
    offsets: Seq<OffsetView>,
    places: Seq<ShellContext>,
    n: nat,
    m: nat,
)
    requires
        n <= m,
        after_contexts(origin, flat, measures, offsets, places, n) is None,
    ensures
        after_contexts(origin, flat, measures, offsets, places, m) is None,
    decreases m,
{
    if n < m {
        lemma_contexts_stop(origin, flat, measures, offsets, places, n, (m - 1) as nat);
    }
}

/// Makes what stands out of all shells instances.
fn add_contexts(entities: &Vec<EntityInstance>, evidence: &PlanarEvidence) -> (out: Option<Planar>)
    ensures
        out is Some == after_contexts(
            entities_view(entities@),
            evidence.flat@,
            measures_view(evidence.measures@),
            offsets_view(evidence.offsets@),
            contexts(entities_view(entities@), entities@.len()),
            contexts(entities_view(entities@), entities@.len()).len(),
        ) is Some,
        out matches Some(state) ==> state.is_counted() && after_contexts(
            entities_view(entities@),
            evidence.flat@,
            measures_view(evidence.measures@),
            offsets_view(evidence.offsets@),
            contexts(entities_view(entities@), entities@.len()),
            contexts(entities_view(entities@), entities@.len()).len(),
        ) == Some(state@),
{
    let ghost views = entities_view(entities@);
    let ghost flat = evidence.flat@;
    let ghost measures = measures_view(evidence.measures@);
    let ghost offsets = offsets_view(evidence.offsets@);
    let index = build_index(entities);
    let table = styles_by_target(entities);
    let last: u64 = largest_id(entities);
    let places = collect_shell_contexts(entities, &index);
    let mut state = Planar {
        base: clone_entities(entities),
        added: Vec::new(),
        claimed_faces: HashSet::new(),
        claimed_bounds: HashSet::new(),
        roots: Vec::new(),
        seeds: Vec::new(),
        arrays: 0,
        families: 0,
        instances: 0,
        counts: Ghost((0, 0, 0)),
    };
    let mut i: usize = 0;
    proof {
        assert(entities_view(state.added@) =~= Seq::empty());
        assert(state.claimed_faces@ =~= Set::empty());
        assert(state.claimed_bounds@ =~= Set::empty());
        assert(state@ =~= start_state(views));
    }
    while i < places.len()
        invariant
            i <= places.len(),
            views == entities_view(entities@),
            flat == evidence.flat@,
            measures == measures_view(evidence.measures@),
            offsets == offsets_view(evidence.offsets@),
            last == max_id(views),
            places@ == contexts(views, views.len()),
            forall|t: u64| #[trigger] listed(table@, t) == face_styles(views, t),
            state.is_counted(),
            indexes(index@, state@.base),
            after_contexts(views, flat, measures, offsets, places@, i as nat) == Some(state@),
        decreases places.len() - i,
    {
        if !add_context(&mut state, entities, &table, &index, evidence, last, &places[i]) {
            proof {
                lemma_contexts_stop(
                    views,
                    flat,
                    measures,
                    offsets,
                    places@,
                    (i + 1) as nat,
                    places@.len(),
                );
            }
            return None;
        }
        i = i + 1;
    }
    Some(state)
}

/// What may fall.
fn find_may_fall(entities: &Vec<EntityInstance>, index: &HashMap<u64, usize>, roots: &Vec<u64>) -> (out:
    Vec<u64>)
    requires
        indexes(index@, entities_view(entities@)),
    ensures
        forall|id: u64| #[trigger]
            out@.contains(id) == may_fall(entities_view(entities@), roots@, id),
{
    let ghost views = entities_view(entities@);
    let all = descendants(entities, index, roots);
    let first = set_of(roots);
    let mut out: Vec<u64> = Vec::new();
    let mut i: usize = 0;
    while i < all.len()
        invariant
            i <= all.len(),
            views == entities_view(entities@),
            indexes(index@, views),
            first@ == roots@.to_set(),
            forall|id: u64| #[trigger]
                out@.contains(id) ==> all@.contains(id) && (roots@.contains(id) || position(
                    views,
                    id,
                ) is Some),
            forall|j: int|
                0 <= j < i && (roots@.contains(all@[j]) || position(views, #[trigger] all@[j]) is Some)
                    ==> out@.contains(all@[j]),
        decreases all.len() - i,
    {
        let id: u64 = all[i];
        let ghost before = out@;
        assert(index@.contains_key(id) == (position(views, id) is Some));
        assert(first@.contains(id) == roots@.contains(id));
        if first.contains(&id) || index.contains_key(&id) {
            out.push(id);
            proof {
                assert(out@[before.len() as int] == id);
                assert forall|x: u64| #[trigger] out@.contains(x) implies all@.contains(x) && (
                roots@.contains(x) || position(views, x) is Some) by {
                    let k = choose|k: int| 0 <= k < out@.len() && out@[k] == x;
                    if k < before.len() {
                        assert(before[k] == x);
                        assert(before.contains(x));
                    } else {
                        assert(all@[i as int] == x);
                    }
                }
                assert forall|j: int|
                    0 <= j < i + 1 && (roots@.contains(all@[j]) || position(
                        views,
                        #[trigger] all@[j],
                    ) is Some) implies out@.contains(all@[j]) by {
                    if j < i {
                        let k = choose|k: int| 0 <= k < before.len() && before[k] == all@[j];
                        assert(out@[k] == all@[j]);
                    }
                }
            }
        }
        i = i + 1;
    }
    proof {
        assert forall|id: u64| #[trigger] out@.contains(id) == may_fall(views, roots@, id) by {
            assert(all@.contains(id) == reachable(views, roots@, id));
            if may_fall(views, roots@, id) {
                let j = choose|j: int| 0 <= j < all@.len() && all@[j] == id;
                assert(out@.contains(all@[j]));
            }
        }
    }
    out
}

/// How many styled items among roots are given up.
fn count_styles(
    entities: &Vec<EntityInstance>,
    index: &HashMap<u64, usize>,
    roots: &Vec<u64>,
    gone: &HashSet<u64>,
) -> (out: usize)
    requires
        indexes(index@, entities_view(entities@)),
    ensures
        out == styles_gone(entities_view(entities@), roots@, gone@).len(),
{
    let ghost views = entities_view(entities@);
    let mut found: HashSet<u64> = HashSet::new();
    let mut i: usize = 0;
    while i < roots.len()
        invariant
            i <= roots.len(),
            views == entities_view(entities@),
            indexes(index@, views),
            forall|id: u64| #[trigger]
                found@.contains(id) ==> styles_gone(views, roots@, gone@).contains(id),
            forall|j: int|
                0 <= j < i && styles_gone(views, roots@, gone@).contains(#[trigger] roots@[j])
                    ==> found@.contains(roots@[j]),
        decreases roots.len() - i,
    {
        let id: u64 = roots[i];
        if gone.contains(&id) && find_typed(entities, index, id, "STYLED_ITEM").is_some() {
            assert(roots@.contains(id));
            found.insert(id);
        }
        i = i + 1;
    }
    assert(found@ =~= styles_gone(views, roots@, gone@)) by {
        assert forall|id: u64| styles_gone(views, roots@, gone@).contains(id) implies #[trigger]
        found@.contains(id) by {
            let j = choose|j: int| 0 <= j < roots@.len() && roots@[j] == id;
            assert(styles_gone(views, roots@, gone@).contains(roots@[j]));
        }
    }
    found.len()
}

/// Makes groups of faces that repeat on plane faces instances of one solid each.
pub fn instance_planar_positive_features(
    entities: &mut Vec<EntityInstance>,
    evidence: &PlanarEvidence,
) -> (stats: PlanarFeatureStats)
    ensures
        exists|candidates: Seq<u64>| #[trigger]
            features_made(
                entities_view(old(entities)@),
                *evidence,
                candidates,
                entities_view(final(entities)@),
                stats,
            ),
{
    let ghost views = entities_view(entities@);
    let state = match add_contexts(entities, evidence) {
        Some(state) => state,
        None => {
            let none = PlanarFeatureStats {
                arrays: 0,
                families: 0,
                instances: 0,
                entities_removed: 0,
                styles_replaced: 0,
            };
            assert(features_made(views, *evidence, Seq::empty(), views, none));
            return none;
        },
    };
    let mut work = clone_entities(&state.base);
    join_entities(&mut work, &state.added);
    let ghost all = entities_view(work@);
    let index = build_index(&work);
    let candidates = find_may_fall(&work, &index, &state.roots);
    if state.arrays == 0 {
        let none = PlanarFeatureStats {
            arrays: 0,
            families: state.families,
            instances: state.instances,
            entities_removed: 0,
            styles_replaced: 0,
        };
        *entities = work;
        assert(features_made(views, *evidence, candidates@, entities_view(entities@), none));
        return none;
    }
    let gone = find_fallen(&work, &candidates, &state.seeds);
    assert(gone@ =~= given_up(all, candidates@, state.seeds@));
    let styles_replaced: usize = count_styles(&work, &index, &state.roots, &gone);
    remove_entities(&mut work, &gone);
    let stats = PlanarFeatureStats {
        arrays: state.arrays,
        families: state.families,
        instances: state.instances,
        entities_removed: gone.len(),
        styles_replaced,
    };
    *entities = work;
    assert(features_made(views, *evidence, candidates@, entities_view(entities@), stats));
    stats
}

} // verus!
