//! Solids of one shape become instances of one of them.

use std::collections::{HashMap, HashSet};
use vstd::prelude::*;

use crate::ast::{
    clone_entities, clone_params, entities_view, entity_id, lemma_list_view, params_view,
    EntityInstance, EntityView, ParamView, Parameter, Record,
};
use crate::face_coalesce::{append_ids, ref_param};
use crate::face_plan::{face_styles, listed, same_ids, styles_by_target};
use crate::graph::{
    build_index, dead, descendants, entity_ref, entity_ref_value, find_dead, indexes, largest_id,
    lists_parents, max_id, nth, nth_entity_ref, nth_entity_ref_list, nth_ref, nth_ref_list,
    parents_table, position, reachable, ref_value, refers, remove_entities, replace_entity,
    simple_entity, simple_record, without,
};
use crate::partition_plan::{ids_of_type, of_type};
use crate::placements::{
    fresh, has_room, mapped_id, place_view, push_frame, push_mapped, push_source, push_style, room,
    with_frame, with_mapped, with_source, with_style, Place, PlaceView,
};
use crate::sets::{ascending, lemma_ascending_determined, set_of, sorted_ids};
use crate::styles::{applied, applied_styles, faces_style, find_faces_style, styles_view};
use crate::text::same_text;

verus! {

broadcast use vstd::std_specs::hash::group_hash_axioms;

/// What the pass has replaced.
#[derive(Debug, Clone, Copy, PartialEq, Eq, Structural)]
pub struct InstanceStats {
    pub groups: usize,
    pub solids_replaced: usize,
    pub entities_removed: usize,
    pub styles_replaced: usize,
}

pub open spec fn no_stats() -> InstanceStats {
    InstanceStats { groups: 0, solids_replaced: 0, entities_removed: 0, styles_replaced: 0 }
}

/// A solid that is another one turned by quarters and moved, in no other way.
#[derive(Debug)]
pub struct Turn {
    pub source: u64,
    pub target: u64,
    pub place: Place,
}

#[verifier::ext_equal]
pub struct TurnView {
    pub source: u64,
    pub target: u64,
    pub place: PlaceView,
}

impl View for Turn {
    type V = TurnView;

    open spec fn view(&self) -> TurnView {
        TurnView { source: self.source, target: self.target, place: self.place@ }
    }
}

pub open spec fn turns_view(turns: Seq<Turn>) -> Seq<TurnView> {
    Seq::new(turns.len(), |i: int| turns[i]@)
}

/// What was measured of solids: their shapes up to quarter turns, and which are turned how.
pub struct InstanceEvidence {
    pub shape_class: HashMap<u64, u64>,
    pub turns: Vec<Turn>,
}

/// Whether an id belongs to what can be reached from a root.
pub open spec fn in_closure(entities: Seq<EntityView>, root: u64, id: u64) -> bool {
    reachable(entities, seq![root], id) && (id == root || position(entities, id) is Some)
}

/// Whether ids are all that can be reached from a root, in ascending order.
pub open spec fn is_closure(entities: Seq<EntityView>, root: u64, ids: Seq<u64>) -> bool {
    ascending(ids) && forall|id: u64| #[trigger]
        ids.contains(id) == in_closure(entities, root, id)
}

/// What can be reached from a root.
pub open spec fn closure_of(entities: Seq<EntityView>, root: u64) -> Seq<u64> {
    choose|ids: Seq<u64>| is_closure(entities, root, ids)
}

/// The shape class of a solid and the styles that all of its faces have.
pub open spec fn solid_kind(
    origin: Seq<EntityView>,
    entities: Seq<EntityView>,
    shape: Map<u64, u64>,
    root: u64,
) -> Option<(u64, Seq<u64>)> {
    let ids = closure_of(entities, root);
    let faces = of_type(entities, ids, "ADVANCED_FACE"@);
    if faces.len() > 0 && of_type(entities, ids, "VERTEX_POINT"@).len() >= 4 && of_type(
        entities,
        ids,
        "EDGE_CURVE"@,
    ).len() > 0 && shape.contains_key(root) {
        match faces_style(origin, faces) {
            Some(style) => Some((shape[root], style)),
            None => None,
        }
    } else {
        None
    }
}

/// A solid with its shape class and its styles.
#[verifier::ext_equal]
pub struct InfoView {
    pub root: u64,
    pub class: u64,
    pub style: Seq<u64>,
}

/// The solids that can become instances.
pub open spec fn infos(
    origin: Seq<EntityView>,
    entities: Seq<EntityView>,
    shape: Map<u64, u64>,
    roots: Seq<u64>,
) -> Seq<InfoView>
    decreases roots.len(),
{
    if roots.len() == 0 {
        Seq::empty()
    } else {
        let rest = infos(origin, entities, shape, roots.drop_last());
        match solid_kind(origin, entities, shape, roots.last()) {
            Some((class, style)) => rest.push(InfoView { root: roots.last(), class, style }),
            None => rest,
        }
    }
}

pub open spec fn alike(a: InfoView, b: InfoView) -> bool {
    a.class == b.class && a.style == b.style
}

/// The solids among the first `n` that are like one of them.
pub open spec fn members(infos: Seq<InfoView>, like: InfoView, n: nat) -> Seq<u64>
    decreases n,
{
    if n == 0 {
        Seq::empty()
    } else {
        let rest = members(infos, like, (n - 1) as nat);
        if alike(infos[n - 1], like) {
            rest.push(infos[n - 1].root)
        } else {
            rest
        }
    }
}

/// Whether none before is like this one.
pub open spec fn is_first(infos: Seq<InfoView>, i: int) -> bool {
    forall|j: int| 0 <= j < i ==> !alike(#[trigger] infos[j], infos[i])
}

/// A sorted list with an id put in behind those that are not larger.
pub open spec fn inserted(sorted: Seq<u64>, id: u64) -> Seq<u64>
    decreases sorted.len(),
{
    if sorted.len() == 0 || sorted.last() <= id {
        sorted.push(id)
    } else {
        inserted(sorted.drop_last(), id).push(sorted.last())
    }
}

/// Ids in order.
pub open spec fn in_order(ids: Seq<u64>) -> Seq<u64>
    decreases ids.len(),
{
    if ids.len() == 0 {
        Seq::empty()
    } else {
        inserted(in_order(ids.drop_last()), ids.last())
    }
}

/// How one solid is another, as far as it was found.
pub open spec fn place_of(turns: Seq<TurnView>, source: u64, target: u64) -> Option<PlaceView>
    decreases turns.len(),
{
    if turns.len() == 0 {
        None
    } else {
        match place_of(turns.drop_last(), source, target) {
            Some(place) => Some(place),
            None => if turns.last().source == source && turns.last().target == target {
                Some(turns.last().place)
            } else {
                None
            },
        }
    }
}

/// The solids that become instances of the first, each with its place. The first `n` count.
pub open spec fn placed(turns: Seq<TurnView>, roots: Seq<u64>, n: nat) -> Seq<
    (u64, Option<PlaceView>),
>
    decreases n,
{
    if n == 0 {
        Seq::empty()
    } else if n == 1 {
        seq![(roots[0], None)]
    } else {
        let rest = placed(turns, roots, (n - 1) as nat);
        match place_of(turns, roots[0], roots[n - 1]) {
            Some(place) => rest.push(
                (
                    roots[n - 1],
                    if roots[n - 1] == roots[0] {
                        None
                    } else {
                        Some(place)
                    },
                ),
            ),
            None => rest,
        }
    }
}

/// The instances of a group and their styled items.
pub open spec fn with_instances(
    added: Seq<EntityView>,
    last: u64,
    frame: u64,
    map: u64,
    group: Seq<(u64, Option<PlaceView>)>,
    style: Seq<u64>,
    n: nat,
) -> Seq<EntityView>
    decreases n,
{
    if n == 0 {
        added
    } else {
        let before = with_instances(added, last, frame, map, group, style, (n - 1) as nat);
        let place = group[n - 1].1;
        with_style(
            with_mapped(before, last, frame, map, place),
            last,
            style,
            mapped_id(before, last, place),
        )
    }
}

/// The ids of the instances of a group.
pub open spec fn instance_ids(
    added: Seq<EntityView>,
    last: u64,
    frame: u64,
    map: u64,
    group: Seq<(u64, Option<PlaceView>)>,
    style: Seq<u64>,
    n: nat,
) -> Seq<u64>
    decreases n,
{
    if n == 0 {
        Seq::empty()
    } else {
        instance_ids(added, last, frame, map, group, style, (n - 1) as nat).push(
            mapped_id(
                with_instances(added, last, frame, map, group, style, (n - 1) as nat),
                last,
                group[n - 1].1,
            ),
        )
    }
}

/// What stands for each solid of a group.
pub open spec fn replacements(group: Seq<(u64, Option<PlaceView>)>, ids: Seq<u64>, n: nat) -> Map<
    u64,
    u64,
>
    decreases n,
{
    if n == 0 {
        Map::empty()
    } else {
        replacements(group, ids, (n - 1) as nat).insert(group[n - 1].0, ids[n - 1])
    }
}

/// The styled items that follow the instances.
pub open spec fn next_ids(ids: Seq<u64>) -> Seq<u64> {
    Seq::new(ids.len(), |i: int| (ids[i] + 1) as u64)
}

pub open spec fn swapped_item(item: ParamView, map: Map<u64, u64>) -> ParamView {
    match ref_value(item) {
        Some(id) if map.contains_key(id) => ref_param(map[id]),
        _ => item,
    }
}

/// A representation with some of its items replaced.
pub open spec fn swapped(entity: EntityView, map: Map<u64, u64>) -> EntityView {
    match simple_record(entity) {
        Some(record) => match record.parameter {
            ParamView::List(params) if params.len() > 1 => match params[1] {
                ParamView::List(items) => simple_entity(
                    entity.id(),
                    record.name,
                    params.update(
                        1,
                        ParamView::List(
                            Seq::new(items.len(), |i: int| swapped_item(items[i], map)),
                        ),
                    ),
                ),
                _ => entity,
            },
            _ => entity,
        },
        None => entity,
    }
}

/// What can be reached from the solids of a group other than the first.
pub open spec fn freed(
    entities: Seq<EntityView>,
    group: Seq<(u64, Option<PlaceView>)>,
    n: nat,
) -> Seq<u64>
    decreases n,
{
    if n <= 1 {
        Seq::empty()
    } else {
        freed(entities, group, (n - 1) as nat) + closure_of(entities, group[n - 1].0)
    }
}

pub open spec fn group_roots(group: Seq<(u64, Option<PlaceView>)>) -> Seq<u64> {
    Seq::new(group.len(), |i: int| group[i].0)
}

/// How far the pass has come: the entities there were, those that were added, the solids that
/// are not needed any more, what can be reached from them, and the new styled items.
#[verifier::ext_equal]
pub struct ProgressView {
    pub base: Seq<EntityView>,
    pub added: Seq<EntityView>,
    pub roots: Seq<u64>,
    pub geometry: Seq<u64>,
    pub styles: Seq<u64>,
    pub groups: nat,
    pub solids: nat,
}

/// The pass after one more group; nothing where no ids are left.
pub open spec fn after_group(
    state: ProgressView,
    start: Seq<EntityView>,
    last: u64,
    turns: Seq<TurnView>,
    at: int,
    context: u64,
    roots: Seq<u64>,
    style: Seq<u64>,
) -> Option<ProgressView> {
    let group = placed(turns, roots, roots.len());
    if group.len() < 2 {
        Some(state)
    } else if !room(state.added, last, (9 + 4 * group.len()) as int) {
        None
    } else {
        let frame = fresh(state.added, last);
        let framed = with_frame(state.added, last);
        let map = (fresh(framed, last) + 1) as u64;
        let sourced = with_source(
            framed,
            last,
            "step-redox instance source"@,
            roots[0],
            frame,
            context,
        );
        let ids = instance_ids(sourced, last, frame, map, group, style, group.len());
        Some(
            ProgressView {
                base: state.base.update(
                    at,
                    swapped(state.base[at], replacements(group, ids, group.len())),
                ),
                added: with_instances(sourced, last, frame, map, group, style, group.len()),
                roots: state.roots + group_roots(group).skip(1),
                geometry: state.geometry + freed(start, group, group.len()),
                styles: state.styles + next_ids(ids),
                groups: state.groups + 1,
                solids: state.solids + group.len(),
            },
        )
    }
}

/// The pass after the groups that begin among the first `n` solids of a representation.
pub open spec fn after_groups(
    state: ProgressView,
    last: u64,
    turns: Seq<TurnView>,
    at: int,
    context: u64,
    infos: Seq<InfoView>,
    n: nat,
) -> Option<ProgressView>
    decreases n,
{
    if n == 0 {
        Some(state)
    } else {
        match after_groups(state, last, turns, at, context, infos, (n - 1) as nat) {
            None => None,
            Some(now) => if is_first(infos, n - 1) {
                after_group(
                    now,
                    state.base,
                    last,
                    turns,
                    at,
                    context,
                    in_order(members(infos, infos[n - 1], infos.len())),
                    infos[n - 1].style,
                )
            } else {
                Some(now)
            },
        }
    }
}

/// Where the first entity with an id stands.
pub open spec fn first_position(entities: Seq<EntityView>, id: u64) -> Option<int>
    decreases entities.len(),
{
    if entities.len() == 0 {
        None
    } else {
        match first_position(entities.drop_last(), id) {
            Some(i) => Some(i),
            None => if entities.last().id() == id {
                Some(entities.len() - 1)
            } else {
                None
            },
        }
    }
}

/// The items of a representation and its context.
pub open spec fn items_and_context(entity: EntityView) -> Option<(Seq<u64>, u64)> {
    match simple_record(entity) {
        Some(record) => if nth(record, 2) is Some && nth(record, 3) is None {
            match (nth_ref_list(record, 1), nth_ref(record, 2)) {
                (Some(items), Some(context)) => Some((items, context)),
                _ => None,
            }
        } else {
            None
        },
        None => None,
    }
}

/// The pass after one more representation.
pub open spec fn after_rep(
    origin: Seq<EntityView>,
    shape: Map<u64, u64>,
    turns: Seq<TurnView>,
    last: u64,
    state: ProgressView,
    rep: u64,
) -> Option<ProgressView> {
    match first_position(state.base, rep) {
        None => Some(state),
        Some(at) => match items_and_context(state.base[at]) {
            None => Some(state),
            Some((items, context)) => {
                let roots = of_type(state.base, items, "MANIFOLD_SOLID_BREP"@);
                if roots.len() < 3 {
                    Some(state)
                } else {
                    let known = infos(origin, state.base, shape, roots);
                    after_groups(state, last, turns, at, context, known, known.len())
                }
            },
        },
    }
}

pub open spec fn is_brep_rep(entity: EntityView) -> bool {
    simple_record(entity) matches Some(record) && record.name
        == "ADVANCED_BREP_SHAPE_REPRESENTATION"@
}

/// The pass after the representations among the first `n` entities.
pub open spec fn after_reps(
    origin: Seq<EntityView>,
    shape: Map<u64, u64>,
    turns: Seq<TurnView>,
    n: nat,
) -> Option<ProgressView>
    decreases n,
{
    if n == 0 {
        Some(
            ProgressView {
                base: origin,
                added: Seq::empty(),
                roots: Seq::empty(),
                geometry: Seq::empty(),
                styles: Seq::empty(),
                groups: 0,
                solids: 0,
            },
        )
    } else {
        match after_reps(origin, shape, turns, (n - 1) as nat) {
            None => None,
            Some(state) => if is_brep_rep(origin[n - 1]) {
                after_rep(origin, shape, turns, max_id(origin), state, origin[n - 1].id())
            } else {
                Some(state)
            },
        }
    }
}

/// The styled items of targets.
pub open spec fn styles_of(entities: Seq<EntityView>, targets: Seq<u64>) -> Seq<u64>
    decreases targets.len(),
{
    if targets.len() == 0 {
        Seq::empty()
    } else {
        let styles = applied(entities, targets.last());
        styles_of(entities, targets.drop_last()) + Seq::new(styles.len(), |i: int| styles[i].id)
    }
}

/// The place of the items in a presentation root.
pub open spec fn presented(name: Seq<char>) -> Option<int> {
    if name == "MECHANICAL_DESIGN_GEOMETRIC_PRESENTATION_REPRESENTATION"@ {
        Some(1)
    } else if name == "PRESENTATION_LAYER_ASSIGNMENT"@ {
        Some(2)
    } else {
        None
    }
}

/// Whether one of the items refers to an id of a set.
pub open spec fn mentions(items: Seq<ParamView>, ids: Set<u64>) -> bool {
    exists|i: int|
        0 <= i < items.len() && (ref_value(#[trigger] items[i]) matches Some(id) && ids.contains(
            id,
        ))
}

/// A presentation root with new items in the place of those that go. A root without any of
/// these stays as it is.
pub open spec fn patched(entity: EntityView, remove: Set<u64>, new: Seq<u64>) -> EntityView {
    match simple_record(entity) {
        None => entity,
        Some(record) => match presented(record.name) {
            None => entity,
            Some(n) => match record.parameter {
                ParamView::List(params) if n < params.len() => match params[n] {
                    ParamView::List(items) if mentions(items, remove) => simple_entity(
                        entity.id(),
                        record.name,
                        params.update(
                            n,
                            ParamView::List(
                                crate::face_coalesce::kept_refs(items, remove)
                                    + crate::face_coalesce::ref_params(new),
                            ),
                        ),
                    ),
                    _ => entity,
                },
                _ => entity,
            },
        },
    }
}

pub open spec fn all_patched(entities: Seq<EntityView>, remove: Set<u64>, new: Seq<u64>) -> Seq<
    EntityView,
> {
    Seq::new(entities.len(), |i: int| patched(entities[i], remove, new))
}

/// Candidates that stay although nothing refers to them: those that are no seeds.
pub open spec fn loose(entities: Seq<EntityView>, candidates: Seq<u64>, seeds: Set<u64>) -> Set<u64> {
    Set::new(
        |id: u64|
            candidates.contains(id) && !seeds.contains(id) && forall|parent: u64|
                !#[trigger] refers(entities, parent, id),
    )
}

/// What is given up.
pub open spec fn given_up(entities: Seq<EntityView>, candidates: Seq<u64>, seeds: Set<u64>) -> Set<
    u64,
> {
    Set::new(
        |id: u64| dead(entities, candidates, loose(entities, candidates, seeds), id),
    )
}

/// What the pass makes of entities. Where no solids become instances, it leaves them as they
/// are.
pub open spec fn instances_made(
    entities: Seq<EntityView>,
    evidence: InstanceEvidence,
    result: Seq<EntityView>,
    stats: InstanceStats,
) -> bool {
    match after_reps(
        entities,
        evidence.shape_class@,
        turns_view(evidence.turns@),
        entities.len(),
    ) {
        Some(state) if state.groups > 0 => {
            let old = styles_of(entities, state.geometry);
            let done = all_patched(state.base + state.added, old.to_set(), state.styles);
            let gone = given_up(
                done,
                state.geometry + old,
                state.roots.to_set().union(old.to_set()),
            );
            &&& result == without(done, gone)
            &&& stats == InstanceStats {
                groups: crate::minify::capped(state.groups),
                solids_replaced: crate::minify::capped(state.solids),
                entities_removed: gone.len() as usize,
                styles_replaced: old.to_set().intersect(gone).len() as usize,
            }
        },
        _ => result == entities && stats == no_stats(),
    }
}

/// What can be reached from a root.
pub fn closure_from(
    root: u64,
    entities: &Vec<EntityInstance>,
    index: &HashMap<u64, usize>,
) -> (out: Vec<u64>)
    requires
        indexes(index@, entities_view(entities@)),
    ensures
        out@ == closure_of(entities_view(entities@), root),
        is_closure(entities_view(entities@), root, out@),
{
    let ghost views = entities_view(entities@);
    let mut roots: Vec<u64> = Vec::new();
    roots.push(root);
    assert(roots@ =~= seq![root]);
    let all = descendants(entities, index, &roots);
    let mut known: Vec<u64> = Vec::new();
    let mut i: usize = 0;
    while i < all.len()
        invariant
            i <= all.len(),
            indexes(index@, views),
            forall|id: u64| #[trigger]
                known@.contains(id) ==> all@.contains(id) && (id == root || position(
                    views,
                    id,
                ) is Some),
            forall|j: int|
                0 <= j < i && (all@[j] == root || position(views, #[trigger] all@[j]) is Some)
                    ==> known@.contains(all@[j]),
        decreases all.len() - i,
    {
        let id: u64 = all[i];
        let ghost before = known@;
        assert(index@.contains_key(id) == (position(views, id) is Some));
        if id == root || index.contains_key(&id) {
            known.push(id);
            proof {
                assert(known@[before.len() as int] == id);
                assert forall|x: u64| #[trigger] known@.contains(x) implies all@.contains(x) && (x
                    == root || position(views, x) is Some) by {
                    let k = choose|k: int| 0 <= k < known@.len() && known@[k] == x;
                    if k < before.len() {
                        assert(before[k] == x);
                        assert(before.contains(x));
                    } else {
                        assert(all@[i as int] == x);
                    }
                }
                assert forall|j: int|
                    0 <= j < i + 1 && (all@[j] == root || position(
                        views,
                        #[trigger] all@[j],
                    ) is Some) implies known@.contains(all@[j]) by {
                    if j < i {
                        let k = choose|k: int| 0 <= k < before.len() && before[k] == all@[j];
                        assert(known@[k] == all@[j]);
                    }
                }
            }
        }
        i = i + 1;
    }
    let out = sorted_ids(&known);
    proof {
        assert forall|id: u64| #[trigger] out@.contains(id) == in_closure(views, root, id) by {
            assert(out@.contains(id) == known@.contains(id));
            assert(all@.contains(id) == reachable(views, seq![root], id));
            if in_closure(views, root, id) {
                let j = choose|j: int| 0 <= j < all@.len() && all@[j] == id;
                assert(known@.contains(all@[j]));
            }
        }
        assert(is_closure(views, root, out@));
        let chosen = closure_of(views, root);
        assert(is_closure(views, root, chosen));
        assert forall|id: u64| #[trigger] out@.contains(id) == chosen.contains(id) by {}
        lemma_ascending_determined(out@, chosen);
    }
    out
}

/// The shape class of a solid and the styles that all of its faces have.
fn find_kind(
    origin: &Vec<EntityInstance>,
    table: &HashMap<u64, Vec<u64>>,
    entities: &Vec<EntityInstance>,
    index: &HashMap<u64, usize>,
    shape: &HashMap<u64, u64>,
    root: u64,
) -> (out: Option<(u64, Vec<u64>)>)
    requires
        indexes(index@, entities_view(entities@)),
        forall|t: u64| #[trigger]
            listed(table@, t) == face_styles(entities_view(origin@), t),
    ensures
        out is Some == solid_kind(
            entities_view(origin@),
            entities_view(entities@),
            shape@,
            root,
        ) is Some,
        out matches Some(found) ==> solid_kind(
            entities_view(origin@),
            entities_view(entities@),
            shape@,
            root,
        ) == Some((found.0, found.1@)),
{
    let class: u64 = match shape.get(&root) {
        Some(class) => *class,
        None => {
            return None;
        },
    };
    let ids = closure_from(root, entities, index);
    let faces = ids_of_type(&ids, entities, index, "ADVANCED_FACE");
    if faces.len() == 0 {
        return None;
    }
    if ids_of_type(&ids, entities, index, "VERTEX_POINT").len() < 4 {
        return None;
    }
    if ids_of_type(&ids, entities, index, "EDGE_CURVE").len() == 0 {
        return None;
    }
    match find_faces_style(origin, table, &faces) {
        Some(style) => Some((class, style)),
        None => None,
    }
}

/// A solid with its shape class and its styles.
struct SolidInfo {
    root: u64,
    class: u64,
    style: Vec<u64>,
}

impl View for SolidInfo {
    type V = InfoView;

    closed spec fn view(&self) -> InfoView {
        InfoView { root: self.root, class: self.class, style: self.style@ }
    }
}

spec fn infos_view(infos: Seq<SolidInfo>) -> Seq<InfoView> {
    Seq::new(infos.len(), |i: int| infos[i]@)
}

/// The solids that can become instances.
fn find_infos(
    origin: &Vec<EntityInstance>,
    table: &HashMap<u64, Vec<u64>>,
    entities: &Vec<EntityInstance>,
    index: &HashMap<u64, usize>,
    shape: &HashMap<u64, u64>,
    roots: &Vec<u64>,
) -> (out: Vec<SolidInfo>)
    requires
        indexes(index@, entities_view(entities@)),
        forall|t: u64| #[trigger]
            listed(table@, t) == face_styles(entities_view(origin@), t),
    ensures
        infos_view(out@) == infos(
            entities_view(origin@),
            entities_view(entities@),
            shape@,
            roots@,
        ),
{
    let ghost first = entities_view(origin@);
    let ghost views = entities_view(entities@);
    let mut out: Vec<SolidInfo> = Vec::new();
    let mut i: usize = 0;
    assert(roots@.take(0) =~= Seq::empty());
    assert(infos_view(out@) =~= Seq::empty());
    while i < roots.len()
        invariant
            i <= roots.len(),
            first == entities_view(origin@),
            views == entities_view(entities@),
            indexes(index@, views),
            forall|t: u64| #[trigger] listed(table@, t) == face_styles(first, t),
            infos_view(out@) == infos(first, views, shape@, roots@.take(i as int)),
        decreases roots.len() - i,
    {
        let root: u64 = roots[i];
        let ghost before = out@;
        if let Some((class, style)) = find_kind(origin, table, entities, index, shape, root) {
            let info = SolidInfo { root, class, style };
            out.push(info);
            assert(infos_view(out@) =~= infos_view(before).push(info@));
        }
        i = i + 1;
        assert(roots@.take(i as int).drop_last() =~= roots@.take(i - 1));
    }
    assert(roots@.take(roots@.len() as int) =~= roots@);
    out
}

fn are_alike(a: &SolidInfo, b: &SolidInfo) -> (out: bool)
    ensures
        out == alike(a@, b@),
{
    a.class == b.class && same_ids(&a.style, &b.style)
}

/// Whether none before is like this one.
fn comes_first(infos: &Vec<SolidInfo>, i: usize) -> (out: bool)
    requires
        i < infos.len(),
    ensures
        out == is_first(infos_view(infos@), i as int),
{
    let ghost views = infos_view(infos@);
    let mut j: usize = 0;
    while j < i
        invariant
            j <= i < infos.len(),
            views == infos_view(infos@),
            forall|k: int| 0 <= k < j ==> !alike(#[trigger] views[k], views[i as int]),
        decreases i - j,
    {
        assert(views[j as int] == infos@[j as int]@);
        assert(views[i as int] == infos@[i as int]@);
        if are_alike(&infos[j], &infos[i]) {
            return false;
        }
        j = j + 1;
    }
    true
}

/// Puts an id into a sorted list behind those that are not larger.
pub(crate) fn insert_id(sorted: &mut Vec<u64>, id: u64)
    ensures
        final(sorted)@ == inserted(old(sorted)@, id),
{
    let ghost all = sorted@;
    let mut at: usize = sorted.len();
    assert(all.take(all.len() as int) =~= all);
    assert(inserted(all, id) =~= inserted(all, id) + all.skip(all.len() as int));
    while at > 0 && sorted[at - 1] > id
        invariant
            at <= sorted.len(),
            sorted@ == all,
            inserted(all, id) == inserted(all.take(at as int), id) + all.skip(at as int),
        decreases at,
    {
        let ghost front = all.take(at as int);
        at = at - 1;
        proof {
            assert(front.drop_last() =~= all.take(at as int));
            assert(front.last() == all[at as int]);
            assert(inserted(front, id) == inserted(all.take(at as int), id).push(all[at as int]));
            assert(inserted(all.take(at as int), id).push(all[at as int]) + all.skip(at + 1)
                =~= inserted(all.take(at as int), id) + all.skip(at as int));
        }
    }
    proof {
        let front = all.take(at as int);
        assert(inserted(front, id) == front.push(id));
        assert(all.insert(at as int, id) =~= front.push(id) + all.skip(at as int));
    }
    sorted.insert(at, id);
}

/// The solids that are like one of them, in order.
fn find_members(infos: &Vec<SolidInfo>, i: usize) -> (out: Vec<u64>)
    requires
        i < infos.len(),
    ensures
        out@ == in_order(members(infos_view(infos@), infos_view(infos@)[i as int], infos@.len())),
{
    let ghost views = infos_view(infos@);
    let ghost like = views[i as int];
    let mut out: Vec<u64> = Vec::new();
    let mut k: usize = 0;
    while k < infos.len()
        invariant
            k <= infos.len(),
            i < infos.len(),
            views == infos_view(infos@),
            like == views[i as int],
            out@ == in_order(members(views, like, k as nat)),
        decreases infos.len() - k,
    {
        assert(views[k as int] == infos@[k as int]@);
        assert(views[i as int] == infos@[i as int]@);
        if are_alike(&infos[k], &infos[i]) {
            let ghost rest = members(views, like, k as nat);
            insert_id(&mut out, infos[k].root);
            assert(members(views, like, (k + 1) as nat).drop_last() =~= rest);
        }
        k = k + 1;
    }
    out
}

/// How one solid is another.
fn find_place(turns: &Vec<Turn>, source: u64, target: u64) -> (out: Option<Place>)
    ensures
        place_view(out) == place_of(turns_view(turns@), source, target),
{
    let ghost views = turns_view(turns@);
    let mut i: usize = 0;
    assert(views.take(0) =~= Seq::empty());
    while i < turns.len()
        invariant
            i <= turns.len(),
            views == turns_view(turns@),
            place_of(views.take(i as int), source, target) is None,
        decreases turns.len() - i,
    {
        assert(views[i as int] == turns@[i as int]@);
        assert(views.take(i + 1).drop_last() =~= views.take(i as int));
        if turns[i].source == source && turns[i].target == target {
            proof {
                lemma_place_found(views, source, target, i + 1);
            }
            return Some(turns[i].place.clone());
        }
        i = i + 1;
    }
    assert(views.take(views.len() as int) =~= views);
    None
}

proof fn lemma_place_found(turns: Seq<TurnView>, source: u64, target: u64, n: int)
    requires
        0 <= n <= turns.len(),
        place_of(turns.take(n), source, target) is Some,
    ensures
        place_of(turns, source, target) == place_of(turns.take(n), source, target),
    decreases turns.len(),
{
    if n < turns.len() {
        assert(turns.drop_last().take(n) =~= turns.take(n));
        lemma_place_found(turns.drop_last(), source, target, n);
    } else {
        assert(turns.take(n) =~= turns);
    }
}

/// A solid that becomes an instance.
struct Member {
    root: u64,
    place: Option<Place>,
}

spec fn group_view(group: Seq<Member>) -> Seq<(u64, Option<PlaceView>)> {
    Seq::new(group.len(), |i: int| (group[i].root, place_view(group[i].place)))
}

/// The solids that become instances of the first.
fn find_placed(turns: &Vec<Turn>, roots: &Vec<u64>) -> (out: Vec<Member>)
    ensures
        group_view(out@) == placed(turns_view(turns@), roots@, roots@.len()),
{
    let ghost views = turns_view(turns@);
    let mut out: Vec<Member> = Vec::new();
    if roots.len() == 0 {
        assert(group_view(out@) =~= Seq::empty());
        return out;
    }
    out.push(Member { root: roots[0], place: None });
    assert(group_view(out@) =~= seq![(roots@[0], None::<PlaceView>)]);
    let mut i: usize = 1;
    while i < roots.len()
        invariant
            1 <= i <= roots.len(),
            views == turns_view(turns@),
            group_view(out@) == placed(views, roots@, i as nat),
        decreases roots.len() - i,
    {
        let ghost before = out@;
        if let Some(place) = find_place(turns, roots[0], roots[i]) {
            let ghost there = place@;
            let place = if roots[i] == roots[0] {
                None
            } else {
                Some(place)
            };
            let ghost given = place_view(place);
            out.push(Member { root: roots[i], place });
            assert(group_view(out@) =~= group_view(before).push((roots@[i as int], given)));
        }
        i = i + 1;
    }
    out
}

/// How far the pass has come.
struct Progress {
    base: Vec<EntityInstance>,
    added: Vec<EntityInstance>,
    roots: Vec<u64>,
    geometry: Vec<u64>,
    styles: Vec<u64>,
    groups: usize,
    solids: usize,
    counted_groups: Ghost<nat>,
    counted_solids: Ghost<nat>,
}

impl Progress {
    spec fn is_counted(&self) -> bool {
        self.groups == crate::minify::capped(self.counted_groups@) && self.solids
            == crate::minify::capped(self.counted_solids@)
    }
}

impl View for Progress {
    type V = ProgressView;

    closed spec fn view(&self) -> ProgressView {
        ProgressView {
            base: entities_view(self.base@),
            added: entities_view(self.added@),
            roots: self.roots@,
            geometry: self.geometry@,
            styles: self.styles@,
            groups: self.counted_groups@,
            solids: self.counted_solids@,
        }
    }
}

/// A representation with some of its items replaced.
fn swap_items(entity: &EntityInstance, map: &HashMap<u64, u64>) -> (out: EntityInstance)
    ensures
        out@ == swapped(entity@, map@),
{
    if let EntityInstance::Simple { id, record } = entity {
        if let Parameter::List(params) = &record.parameter {
            proof {
                lemma_list_view(*params);
            }
            if params.len() > 1 {
                assert(params_view(params@)[1] == params@[1]@);
                if let Parameter::List(items) = &params[1] {
                    let ghost item_views = params_view(items@);
                    proof {
                        lemma_list_view(*items);
                    }
                    let mut list: Vec<Parameter> = Vec::new();
                    let mut i: usize = 0;
                    while i < items.len()
                        invariant
                            i <= items.len(),
                            list.len() == i,
                            item_views == params_view(items@),
                            forall|j: int|
                                0 <= j < i ==> (#[trigger] list@[j])@ == swapped_item(
                                    item_views[j],
                                    map@,
                                ),
                        decreases items.len() - i,
                    {
                        assert(item_views[i as int] == items@[i as int]@);
                        let new: Option<u64> = match entity_ref_value(&items[i]) {
                            Some(old) => match map.get(&old) {
                                Some(new) => Some(*new),
                                None => None,
                            },
                            None => None,
                        };
                        match new {
                            Some(new) => list.push(entity_ref(new)),
                            None => list.push(items[i].clone()),
                        }
                        i = i + 1;
                    }
                    proof {
                        lemma_list_view(list);
                        assert(params_view(list@) =~= Seq::new(
                            item_views.len(),
                            |j: int| swapped_item(item_views[j], map@),
                        ));
                    }
                    let mut copy = clone_params(params);
                    let ghost before = copy@;
                    assert(params_view(before).len() == before.len());
                    let list = Parameter::List(list);
                    let ghost list_view = list@;
                    copy.set(1, list);
                    assert(params_view(copy@) =~= params_view(before).update(1, list_view));
                    proof {
                        lemma_list_view(copy);
                    }
                    return EntityInstance::Simple {
                        id: *id,
                        record: Record {
                            name: record.name.clone(),
                            parameter: Parameter::List(copy),
                        },
                    };
                }
            }
        }
    }
    entity.clone()
}

/// Appends the instances of a group and their styled items.
fn push_instances(
    added: &mut Vec<EntityInstance>,
    last: u64,
    frame: u64,
    map: u64,
    group: &Vec<Member>,
    style: &Vec<u64>,
) -> (ids: Vec<u64>)
    requires
        room(entities_view(old(added)@), last, (4 * group@.len()) as int),
        frame <= u64::MAX - 6,
    ensures
        ids@ == instance_ids(
            entities_view(old(added)@),
            last,
            frame,
            map,
            group_view(group@),
            style@,
            group@.len(),
        ),
        entities_view(final(added)@) == with_instances(
            entities_view(old(added)@),
            last,
            frame,
            map,
            group_view(group@),
            style@,
            group@.len(),
        ),
        forall|i: int| 0 <= i < ids@.len() ==> #[trigger] ids@[i] < u64::MAX,
{
    let ghost start = entities_view(added@);
    let ghost views = group_view(group@);
    let mut ids: Vec<u64> = Vec::new();
    let mut i: usize = 0;
    while i < group.len()
        invariant
            i <= group.len(),
            views == group_view(group@),
            frame <= u64::MAX - 6,
            room(start, last, (4 * group@.len()) as int),
            entities_view(added@).len() <= start.len() + 4 * i,
            ids@ == instance_ids(start, last, frame, map, views, style@, i as nat),
            entities_view(added@) == with_instances(
                start,
                last,
                frame,
                map,
                views,
                style@,
                i as nat,
            ),
            forall|j: int| 0 <= j < ids@.len() ==> #[trigger] ids@[j] < u64::MAX,
        decreases group.len() - i,
    {
        assert(views[i as int] == (group@[i as int].root, place_view(group@[i as int].place)));
        let ghost before = entities_view(added@);
        let mapped: u64 = push_mapped(added, last, frame, map, &group[i].place);
        let ghost mid = entities_view(added@);
        assert(mid.len() <= before.len() + 3);
        push_style(added, last, style, mapped);
        ids.push(mapped);
        i = i + 1;
    }
    ids
}

/// What stands for each solid of a group.
fn find_replacements(group: &Vec<Member>, ids: &Vec<u64>) -> (out: HashMap<u64, u64>)
    requires
        group@.len() == ids@.len(),
    ensures
        out@ == replacements(group_view(group@), ids@, group@.len()),
{
    let ghost views = group_view(group@);
    let mut out: HashMap<u64, u64> = HashMap::new();
    let mut i: usize = 0;
    assert(out@ =~= Map::empty());
    while i < group.len()
        invariant
            i <= group.len(),
            group@.len() == ids@.len(),
            views == group_view(group@),
            out@ == replacements(views, ids@, i as nat),
        decreases group.len() - i,
    {
        assert(views[i as int].0 == group@[i as int].root);
        out.insert(group[i].root, ids[i]);
        i = i + 1;
    }
    out
}

proof fn lemma_instance_count(
    added: Seq<EntityView>,
    last: u64,
    frame: u64,
    map: u64,
    group: Seq<(u64, Option<PlaceView>)>,
    style: Seq<u64>,
    n: nat,
)
    ensures
        instance_ids(added, last, frame, map, group, style, n).len() == n,
    decreases n,
{
    if n > 0 {
        lemma_instance_count(added, last, frame, map, group, style, (n - 1) as nat);
    }
}

/// What can be reached from the solids of a group other than the first.
fn find_freed(
    entities: &Vec<EntityInstance>,
    index: &HashMap<u64, usize>,
    group: &Vec<Member>,
) -> (out: Vec<u64>)
    requires
        indexes(index@, entities_view(entities@)),
        group@.len() >= 1,
    ensures
        out@ == freed(entities_view(entities@), group_view(group@), group@.len()),
{
    let ghost views = group_view(group@);
    let mut out: Vec<u64> = Vec::new();
    let mut i: usize = 1;
    while i < group.len()
        invariant
            1 <= i <= group.len(),
            views == group_view(group@),
            indexes(index@, entities_view(entities@)),
            out@ == freed(entities_view(entities@), views, i as nat),
        decreases group.len() - i,
    {
        assert(views[i as int].0 == group@[i as int].root);
        let ids = closure_from(group[i].root, entities, index);
        append_ids(&mut out, &ids);
        i = i + 1;
    }
    out
}

fn step_count(count: usize, by: usize, Ghost(total): Ghost<nat>) -> (out: usize)
    requires
        count == crate::minify::capped(total),
    ensures
        out == crate::minify::capped(total + by as nat),
{
    count.saturating_add(by)
}

/// Appends the solids of a group other than the first.
fn append_roots(out: &mut Vec<u64>, group: &Vec<Member>)
    requires
        group@.len() >= 1,
    ensures
        final(out)@ == old(out)@ + group_roots(group_view(group@)).skip(1),
{
    let ghost before = out@;
    let ghost ids = group_roots(group_view(group@));
    let mut i: usize = 1;
    assert(before + ids.subrange(1, 1) =~= before);
    while i < group.len()
        invariant
            1 <= i <= group.len(),
            ids == group_roots(group_view(group@)),
            out@ == before + ids.subrange(1, i as int),
        decreases group.len() - i,
    {
        assert(ids[i as int] == group@[i as int].root);
        out.push(group[i].root);
        i = i + 1;
        assert(before + ids.subrange(1, i as int) =~= (before + ids.subrange(1, i - 1)).push(
            ids[i - 1],
        ));
    }
    assert(ids.subrange(1, ids.len() as int) =~= ids.skip(1));
}

/// Appends the ids that follow others.
fn append_next(out: &mut Vec<u64>, ids: &Vec<u64>)
    requires
        forall|i: int| 0 <= i < ids@.len() ==> #[trigger] ids@[i] < u64::MAX,
    ensures
        final(out)@ == old(out)@ + next_ids(ids@),
{
    let ghost before = out@;
    let ghost next = next_ids(ids@);
    let mut k: usize = 0;
    assert(before + next.take(0) =~= before);
    while k < ids.len()
        invariant
            k <= ids.len(),
            forall|i: int| 0 <= i < ids@.len() ==> #[trigger] ids@[i] < u64::MAX,
            next == next_ids(ids@),
            out@ == before + next.take(k as int),
        decreases ids.len() - k,
    {
        assert(ids@[k as int] < u64::MAX);
        out.push(ids[k] + 1);
        k = k + 1;
        assert(before + next.take(k as int) =~= (before + next.take(k - 1)).push(next[k - 1]));
    }
    assert(next.take(ids@.len() as int) =~= next);
}

/// Makes the solids of a group instances.
fn add_group(
    state: &mut Progress,
    freed_ids: Vec<u64>,
    last: u64,
    group: &Vec<Member>,
    at: usize,
    context: u64,
    style: &Vec<u64>,
    Ghost(start): Ghost<Seq<EntityView>>,
    Ghost(turns): Ghost<Seq<TurnView>>,
    Ghost(roots): Ghost<Seq<u64>>,
)
    requires
        old(state).is_counted(),
        group@.len() >= 2,
        group_view(group@) == placed(turns, roots, roots.len()),
        group@[0].root == roots[0],
        freed_ids@ == freed(start, group_view(group@), group@.len()),
        at < old(state)@.base.len(),
        room(old(state)@.added, last, (9 + 4 * group@.len()) as int),
    ensures
        final(state).is_counted(),
        after_group(
            old(state)@,
            start,
            last,
            turns,
            at as int,
            context,
            roots,
            style@,
        ) == Some(final(state)@),
{
    let ghost before = state@;
    let ghost views = group_view(group@);
    let frame: u64 = push_frame(&mut state.added, last);
    let ghost framed = entities_view(state.added@);
    let map: u64 = push_source(
        &mut state.added,
        last,
        "step-redox instance source",
        group[0].root,
        frame,
        context,
    );
    let ghost sourced = entities_view(state.added@);
    assert(sourced.len() == before.added.len() + 9);
    let ids = push_instances(&mut state.added, last, frame, map, group, style);
    proof {
        lemma_instance_count(sourced, last, frame, map, views, style@, views.len());
    }
    let swaps = find_replacements(group, &ids);
    let n: usize = state.base.len();
    assert(n == before.base.len());
    assert(before.base[at as int] == state.base@[at as int]@);
    let rep = swap_items(&state.base[at], &swaps);
    replace_entity(&mut state.base, at, rep);
    append_roots(&mut state.roots, group);
    append_ids(&mut state.geometry, &freed_ids);
    append_next(&mut state.styles, &ids);
    state.groups = step_count(state.groups, 1, Ghost(state.counted_groups@));
    state.solids = step_count(state.solids, group.len(), Ghost(state.counted_solids@));
    proof {
        state.counted_groups@ = state.counted_groups@ + 1;
        state.counted_solids@ = state.counted_solids@ + group@.len();
    }
}

/// The first solid of a group stands for it.
proof fn lemma_placed_first(turns: Seq<TurnView>, roots: Seq<u64>, n: nat)
    requires
        0 < n <= roots.len(),
    ensures
        placed(turns, roots, n).len() >= 1,
        placed(turns, roots, n)[0] == (roots[0], None::<PlaceView>),
        placed(turns, roots, n).len() <= n,
    decreases n,
{
    if n > 1 {
        lemma_placed_first(turns, roots, (n - 1) as nat);
    }
}

proof fn lemma_groups_stop(
    state: ProgressView,
    last: u64,
    turns: Seq<TurnView>,
    at: int,
    context: u64,
    infos: Seq<InfoView>,
    n: nat,
    m: nat,
)
    requires
        n <= m,
        after_groups(state, last, turns, at, context, infos, n) is None,
    ensures
        after_groups(state, last, turns, at, context, infos, m) is None,
    decreases m,
{
    if n < m {
        lemma_groups_stop(state, last, turns, at, context, infos, n, (m - 1) as nat);
    }
}

/// A group keeps the ids of the entities there were.
proof fn lemma_group_keeps(
    state: ProgressView,
    start: Seq<EntityView>,
    last: u64,
    turns: Seq<TurnView>,
    at: int,
    context: u64,
    roots: Seq<u64>,
    style: Seq<u64>,
)
    requires
        0 <= at < state.base.len(),
    ensures
        after_group(state, start, last, turns, at, context, roots, style) matches Some(next) ==> {
            &&& next.base.len() == state.base.len()
            &&& forall|id: u64| #[trigger] position(next.base, id) == position(state.base, id)
        },
{
    let group = placed(turns, roots, roots.len());
    if let Some(next) = after_group(state, start, last, turns, at, context, roots, style) {
        if group.len() >= 2 {
            let entity = next.base[at];
            assert(next.base =~= state.base.update(at, entity));
            assert(entity.id() == state.base[at].id());
            assert forall|id: u64| #[trigger]
                position(next.base, id) == position(state.base, id) by {
                crate::face_coalesce::lemma_position_updated(state.base, at, entity, id);
            }
        }
    }
}

/// Makes the solids of a representation instances.
fn add_groups(
    state: &mut Progress,
    index: &HashMap<u64, usize>,
    last: u64,
    turns: &Vec<Turn>,
    at: usize,
    context: u64,
    infos: &Vec<SolidInfo>,
) -> (done: bool)
    requires
        old(state).is_counted(),
        at < old(state)@.base.len(),
        indexes(index@, old(state)@.base),
    ensures
        done == after_groups(
            old(state)@,
            last,
            turns_view(turns@),
            at as int,
            context,
            infos_view(infos@),
            infos@.len(),
        ) is Some,
        done ==> final(state).is_counted() && indexes(index@, final(state)@.base) && after_groups(
            old(state)@,
            last,
            turns_view(turns@),
            at as int,
            context,
            infos_view(infos@),
            infos@.len(),
        ) == Some(final(state)@),
{
    let ghost begin = state@;
    let ghost turn_views = turns_view(turns@);
    let ghost views = infos_view(infos@);
    let start = clone_entities(&state.base);
    let mut i: usize = 0;
    while i < infos.len()
        invariant
            i <= infos.len(),
            begin == old(state)@,
            state.is_counted(),
            turn_views == turns_view(turns@),
            views == infos_view(infos@),
            entities_view(start@) == begin.base,
            indexes(index@, begin.base),
            indexes(index@, state@.base),
            at < state@.base.len(),
            after_groups(begin, last, turn_views, at as int, context, views, i as nat) == Some(
                state@,
            ),
        decreases infos.len() - i,
    {
        if comes_first(infos, i) {
            let ghost now = state@;
            assert(views[i as int] == infos@[i as int]@);
            let roots = find_members(infos, i);
            let group = find_placed(turns, &roots);
            proof {
                lemma_group_keeps(
                    now,
                    begin.base,
                    last,
                    turn_views,
                    at as int,
                    context,
                    roots@,
                    views[i as int].style,
                );
                if roots@.len() > 0 {
                    lemma_placed_first(turn_views, roots@, roots@.len());
                    assert(group_view(group@)[0].0 == group@[0].root);
                }
            }
            if group.len() >= 2 {
                let count: usize = state.added.len();
                assert(count == now.added.len());
                if !has_room(count, last, group.len(), 9) {
                    proof {
                        assert(!room(now.added, last, (9 + 4 * group@.len()) as int));
                        lemma_groups_stop(
                            begin,
                            last,
                            turn_views,
                            at as int,
                            context,
                            views,
                            (i + 1) as nat,
                            views.len(),
                        );
                    }
                    return false;
                }
                let freed_ids = find_freed(&start, index, &group);
                add_group(
                    state,
                    freed_ids,
                    last,
                    &group,
                    at,
                    context,
                    &infos[i].style,
                    Ghost(begin.base),
                    Ghost(turn_views),
                    Ghost(roots@),
                );
                proof {
                    assert forall|id: u64| #[trigger]
                        index@.contains_key(id) == (position(state@.base, id) is Some) && (
                        index@.contains_key(id) ==> index@[id] == position(
                            state@.base,
                            id,
                        )->Some_0) by {
                        assert(position(state@.base, id) == position(now.base, id));
                    }
                }
            }
        }
        i = i + 1;
    }
    true
}

proof fn lemma_first_position(entities: Seq<EntityView>, id: u64)
    ensures
        match first_position(entities, id) {
            Some(i) => 0 <= i < entities.len() && entities[i].id() == id && forall|j: int|
                0 <= j < i ==> (#[trigger] entities[j]).id() != id,
            None => forall|j: int|
                0 <= j < entities.len() ==> (#[trigger] entities[j]).id() != id,
        },
    decreases entities.len(),
{
    if entities.len() > 0 {
        let shorter = entities.drop_last();
        lemma_first_position(shorter, id);
        assert forall|j: int| 0 <= j < shorter.len() implies entities[j] == #[trigger] shorter[j] by {}
        match first_position(shorter, id) {
            Some(i) => {
                assert(entities[i] == shorter[i]);
                assert forall|j: int| 0 <= j < i implies (#[trigger] entities[j]).id() != id by {
                    assert(shorter[j] == entities[j]);
                }
            },
            None => {
                assert forall|j: int| 0 <= j < entities.len() - 1 implies (
                #[trigger] entities[j]).id() != id by {
                    assert(shorter[j] == entities[j]);
                }
            },
        }
    }
}

/// Where the first entity with an id stands.
pub fn current_index_of(entities: &Vec<EntityInstance>, id: u64) -> (out: Option<usize>)
    ensures
        out is Some == first_position(entities_view(entities@), id) is Some,
        out matches Some(at) ==> first_position(entities_view(entities@), id) == Some(at as int)
            && at < entities@.len(),
{
    let ghost views = entities_view(entities@);
    let mut i: usize = 0;
    while i < entities.len()
        invariant
            i <= entities.len(),
            views == entities_view(entities@),
            forall|j: int| 0 <= j < i ==> (#[trigger] views[j]).id() != id,
        decreases entities.len() - i,
    {
        assert(views[i as int] == entities@[i as int]@);
        if entity_id(&entities[i]) == id {
            proof {
                lemma_first_position(views, id);
            }
            return Some(i);
        }
        i = i + 1;
    }
    proof {
        lemma_first_position(views, id);
    }
    None
}

/// The items of a representation and its context.
pub fn representation_items_and_context(entity: &EntityInstance) -> (out: Option<(Vec<u64>, u64)>)
    ensures
        out is Some == items_and_context(entity@) is Some,
        out matches Some(found) ==> items_and_context(entity@) == Some((found.0@, found.1)),
{
    match entity {
        EntityInstance::Complex { .. } => None,
        EntityInstance::Simple { record, .. } => {
            if crate::graph::nth_param(record, 2).is_none() || crate::graph::nth_param(
                record,
                3,
            ).is_some() {
                return None;
            }
            match (nth_entity_ref_list(record, 1), nth_entity_ref(record, 2)) {
                (Some(items), Some(context)) => Some((items, context)),
                _ => None,
            }
        },
    }
}

/// Makes solids of a representation instances.
fn add_rep(
    origin: &Vec<EntityInstance>,
    table: &HashMap<u64, Vec<u64>>,
    evidence: &InstanceEvidence,
    state: &mut Progress,
    index: &HashMap<u64, usize>,
    last: u64,
    rep: u64,
) -> (done: bool)
    requires
        old(state).is_counted(),
        indexes(index@, old(state)@.base),
        forall|t: u64| #[trigger]
            listed(table@, t) == face_styles(entities_view(origin@), t),
    ensures
        done == after_rep(
            entities_view(origin@),
            evidence.shape_class@,
            turns_view(evidence.turns@),
            last,
            old(state)@,
            rep,
        ) is Some,
        done ==> final(state).is_counted() && indexes(index@, final(state)@.base) && after_rep(
            entities_view(origin@),
            evidence.shape_class@,
            turns_view(evidence.turns@),
            last,
            old(state)@,
            rep,
        ) == Some(final(state)@),
{
    let at: usize = match current_index_of(&state.base, rep) {
        Some(at) => at,
        None => {
            return true;
        },
    };
    assert(state@.base[at as int] == state.base@[at as int]@);
    let (items, context) = match representation_items_and_context(&state.base[at]) {
        Some(found) => found,
        None => {
            return true;
        },
    };
    let roots = ids_of_type(&items, &state.base, index, "MANIFOLD_SOLID_BREP");
    if roots.len() < 3 {
        return true;
    }
    let known = find_infos(origin, table, &state.base, index, &evidence.shape_class, &roots);
    add_groups(state, index, last, &evidence.turns, at, context, &known)
}

proof fn lemma_reps_stop(
    origin: Seq<EntityView>,
    shape: Map<u64, u64>,
    turns: Seq<TurnView>,
    n: nat,
    m: nat,
)
    requires
        n <= m,
        after_reps(origin, shape, turns, n) is None,
    ensures
        after_reps(origin, shape, turns, m) is None,
    decreases m,
{
    if n < m {
        lemma_reps_stop(origin, shape, turns, n, (m - 1) as nat);
    }
}

/// Makes solids of all representations instances.
fn add_reps(entities: &Vec<EntityInstance>, evidence: &InstanceEvidence) -> (out: Option<Progress>)
    ensures
        out is Some == after_reps(
            entities_view(entities@),
            evidence.shape_class@,
            turns_view(evidence.turns@),
            entities@.len(),
        ) is Some,
        out matches Some(state) ==> state.is_counted() && after_reps(
            entities_view(entities@),
            evidence.shape_class@,
            turns_view(evidence.turns@),
            entities@.len(),
        ) == Some(state@),
{
    let ghost views = entities_view(entities@);
    let ghost shape = evidence.shape_class@;
    let ghost turns = turns_view(evidence.turns@);
    let index = build_index(entities);
    let table = styles_by_target(entities);
    let last: u64 = largest_id(entities);
    let mut state = Progress {
        base: clone_entities(entities),
        added: Vec::new(),
        roots: Vec::new(),
        geometry: Vec::new(),
        styles: Vec::new(),
        groups: 0,
        solids: 0,
        counted_groups: Ghost(0),
        counted_solids: Ghost(0),
    };
    let mut i: usize = 0;
    assert(entities_view(state.added@) =~= Seq::empty());
    assert(after_reps(views, shape, turns, 0) == Some(state@));
    while i < entities.len()
        invariant
            i <= entities.len(),
            views == entities_view(entities@),
            shape == evidence.shape_class@,
            turns == turns_view(evidence.turns@),
            last == max_id(views),
            forall|t: u64| #[trigger] listed(table@, t) == face_styles(views, t),
            state.is_counted(),
            indexes(index@, state@.base),
            after_reps(views, shape, turns, i as nat) == Some(state@),
        decreases entities.len() - i,
    {
        assert(views[i as int] == entities@[i as int]@);
        if let EntityInstance::Simple { id, record } = &entities[i] {
            if same_text(record.name.as_str(), "ADVANCED_BREP_SHAPE_REPRESENTATION") {
                if !add_rep(entities, &table, evidence, &mut state, &index, last, *id) {
                    proof {
                        lemma_reps_stop(views, shape, turns, (i + 1) as nat, views.len());
                    }
                    return None;
                }
            }
        }
        i = i + 1;
    }
    Some(state)
}

/// The styled items of targets.
pub(crate) fn find_styles_of(
    entities: &Vec<EntityInstance>,
    table: &HashMap<u64, Vec<u64>>,
    targets: &Vec<u64>,
) -> (out: Vec<u64>)
    requires
        forall|t: u64| #[trigger]
            listed(table@, t) == face_styles(entities_view(entities@), t),
    ensures
        out@ == styles_of(entities_view(entities@), targets@),
{
    let ghost views = entities_view(entities@);
    let mut out: Vec<u64> = Vec::new();
    let mut i: usize = 0;
    assert(targets@.take(0) =~= Seq::empty());
    while i < targets.len()
        invariant
            i <= targets.len(),
            views == entities_view(entities@),
            forall|t: u64| #[trigger] listed(table@, t) == face_styles(views, t),
            out@ == styles_of(views, targets@.take(i as int)),
        decreases targets.len() - i,
    {
        let found = applied_styles(entities, table, targets[i]);
        let ghost style_views = styles_view(found@);
        let ghost ids = Seq::new(style_views.len(), |k: int| style_views[k].id);
        let ghost before = out@;
        let mut k: usize = 0;
        assert(before + ids.take(0) =~= before);
        while k < found.len()
            invariant
                k <= found.len(),
                style_views == styles_view(found@),
                ids == Seq::new(style_views.len(), |k: int| style_views[k].id),
                out@ == before + ids.take(k as int),
            decreases found.len() - k,
        {
            assert(style_views[k as int] == found@[k as int]@);
            out.push(found[k].id);
            k = k + 1;
            assert(before + ids.take(k as int) =~= (before + ids.take(k - 1)).push(ids[k - 1]));
        }
        assert(ids.take(ids.len() as int) =~= ids);
        i = i + 1;
        assert(targets@.take(i as int).drop_last() =~= targets@.take(i - 1));
    }
    assert(targets@.take(targets@.len() as int) =~= targets@);
    out
}

/// Whether one of the items refers to an id of a set.
pub(crate) fn find_mention(items: &Vec<Parameter>, ids: &HashSet<u64>) -> (out: bool)
    ensures
        out == mentions(params_view(items@), ids@),
{
    let ghost views = params_view(items@);
    let mut i: usize = 0;
    while i < items.len()
        invariant
            i <= items.len(),
            views == params_view(items@),
            forall|j: int|
                0 <= j < i ==> !(ref_value(#[trigger] views[j]) matches Some(id) && ids@.contains(
                    id,
                )),
        decreases items.len() - i,
    {
        assert(views[i as int] == items@[i as int]@);
        if let Some(id) = entity_ref_value(&items[i]) {
            if ids.contains(&id) {
                assert(ref_value(views[i as int]) == Some(id));
                return true;
            }
        }
        i = i + 1;
    }
    false
}

/// The items that stay, and new ones.
fn patch_items(items: &Vec<Parameter>, remove: &HashSet<u64>, new: &Vec<u64>) -> (out: Vec<
    Parameter,
>)
    ensures
        params_view(out@) == crate::face_coalesce::kept_refs(params_view(items@), remove@)
            + crate::face_coalesce::ref_params(new@),
{
    let ghost views = params_view(items@);
    let mut list: Vec<Parameter> = Vec::new();
    let mut k: usize = 0;
    assert(views.take(0) =~= Seq::empty());
    assert(params_view(list@) =~= Seq::empty());
    while k < items.len()
        invariant
            k <= items.len(),
            views == params_view(items@),
            params_view(list@) == crate::face_coalesce::kept_refs(views.take(k as int), remove@),
        decreases items.len() - k,
    {
        let ghost before = list@;
        assert(views[k as int] == items@[k as int]@);
        let gone = match entity_ref_value(&items[k]) {
            Some(id) => remove.contains(&id),
            None => false,
        };
        if !gone {
            list.push(items[k].clone());
            assert(params_view(list@) =~= params_view(before).push(list@.last()@));
        }
        k = k + 1;
        assert(views.take(k as int).drop_last() =~= views.take(k - 1));
    }
    assert(views.take(views.len() as int) =~= views);
    let ghost kept = params_view(list@);
    let ghost more = crate::face_coalesce::ref_params(new@);
    let mut i: usize = 0;
    assert(kept + more.take(0) =~= kept);
    while i < new.len()
        invariant
            i <= new.len(),
            more == crate::face_coalesce::ref_params(new@),
            params_view(list@) == kept + more.take(i as int),
        decreases new.len() - i,
    {
        let ghost before = list@;
        list.push(entity_ref(new[i]));
        i = i + 1;
        assert(params_view(list@) =~= params_view(before).push(ref_param(new@[i - 1])));
        assert(kept + more.take(i as int) =~= (kept + more.take(i - 1)).push(more[i - 1]));
    }
    assert(more.take(more.len() as int) =~= more);
    list
}

/// A presentation root with new items in the place of those that go.
fn patch(entity: &EntityInstance, remove: &HashSet<u64>, new: &Vec<u64>) -> (out: EntityInstance)
    ensures
        out@ == patched(entity@, remove@, new@),
{
    if let EntityInstance::Simple { id, record } = entity {
        let found: Option<usize> = if same_text(
            record.name.as_str(),
            "MECHANICAL_DESIGN_GEOMETRIC_PRESENTATION_REPRESENTATION",
        ) {
            Some(1)
        } else if same_text(record.name.as_str(), "PRESENTATION_LAYER_ASSIGNMENT") {
            Some(2)
        } else {
            None
        };
        if let Some(n) = found {
            if let Parameter::List(params) = &record.parameter {
                proof {
                    lemma_list_view(*params);
                }
                if n < params.len() {
                    assert(params_view(params@)[n as int] == params@[n as int]@);
                    if let Parameter::List(items) = &params[n] {
                        proof {
                            lemma_list_view(*items);
                        }
                        if find_mention(items, remove) {
                            let list = patch_items(items, remove, new);
                            proof {
                                lemma_list_view(list);
                            }
                            let list = Parameter::List(list);
                            let ghost list_view = list@;
                            let mut copy = clone_params(params);
                            let ghost before = copy@;
                            assert(params_view(before).len() == before.len());
                            copy.set(n, list);
                            assert(params_view(copy@) =~= params_view(before).update(
                                n as int,
                                list_view,
                            ));
                            proof {
                                lemma_list_view(copy);
                            }
                            return EntityInstance::Simple {
                                id: *id,
                                record: Record {
                                    name: record.name.clone(),
                                    parameter: Parameter::List(copy),
                                },
                            };
                        }
                    }
                }
            }
        }
    }
    entity.clone()
}

/// Replaces items in the presentation roots.
pub fn patch_presentation_lists(
    entities: &mut Vec<EntityInstance>,
    remove: &HashSet<u64>,
    new: &Vec<u64>,
)
    ensures
        entities_view(final(entities)@) == all_patched(
            entities_view(old(entities)@),
            remove@,
            new@,
        ),
{
    let ghost views = entities_view(entities@);
    let mut out: Vec<EntityInstance> = Vec::new();
    let mut i: usize = 0;
    while i < entities.len()
        invariant
            i <= entities.len(),
            out.len() == i,
            views == entities_view(entities@),
            *entities == *old(entities),
            forall|j: int|
                0 <= j < i ==> (#[trigger] out@[j])@ == patched(views[j], remove@, new@),
        decreases entities.len() - i,
    {
        assert(views[i as int] == entities@[i as int]@);
        let done = patch(&entities[i], remove, new);
        out.push(done);
        i = i + 1;
    }
    *entities = out;
    assert(entities_view(entities@) =~= all_patched(views, remove@, new@));
}

/// Candidates that stay although nothing refers to them.
pub fn find_loose(
    entities: &Vec<EntityInstance>,
    candidates: &Vec<u64>,
    seeds: &HashSet<u64>,
) -> (out: HashSet<u64>)
    ensures
        out@ == loose(entities_view(entities@), candidates@, seeds@),
{
    let ghost views = entities_view(entities@);
    let index = build_index(entities);
    let parents = parents_table(entities, &index);
    let mut out: HashSet<u64> = HashSet::new();
    let mut i: usize = 0;
    while i < candidates.len()
        invariant
            i <= candidates.len(),
            views == entities_view(entities@),
            lists_parents(parents@, views),
            forall|id: u64| #[trigger]
                out@.contains(id) ==> loose(views, candidates@, seeds@).contains(id),
            forall|j: int|
                0 <= j < i && loose(views, candidates@, seeds@).contains(
                    #[trigger] candidates@[j],
                ) ==> out@.contains(candidates@[j]),
        decreases candidates.len() - i,
    {
        let id: u64 = candidates[i];
        let alone = match parents.get(&id) {
            None => true,
            Some(list) => list.len() == 0,
        };
        proof {
            assert(alone == forall|parent: u64| !#[trigger] refers(views, parent, id)) by {
                if !alone {
                    let first = parents@[id]@[0];
                    assert(refers(views, first, id));
                }
                assert forall|parent: u64| #[trigger] refers(views, parent, id) implies !alone by {
                    assert(parents@[id]@.contains(parent));
                }
            }
        }
        if alone && !seeds.contains(&id) {
            assert(candidates@.contains(id));
            out.insert(id);
        }
        i = i + 1;
    }
    assert(out@ =~= loose(views, candidates@, seeds@)) by {
        assert forall|id: u64| loose(views, candidates@, seeds@).contains(id) implies #[trigger]
        out@.contains(id) by {
            let j = choose|j: int| 0 <= j < candidates@.len() && candidates@[j] == id;
            assert(loose(views, candidates@, seeds@).contains(candidates@[j]));
        }
    }
    out
}

/// How many ids of a list are in a set, each counted once.
pub fn count_in(ids: &Vec<u64>, set: &HashSet<u64>) -> (out: usize)
    ensures
        out == ids@.to_set().intersect(set@).len(),
{
    let mut found: HashSet<u64> = HashSet::new();
    let mut i: usize = 0;
    while i < ids.len()
        invariant
            i <= ids.len(),
            forall|id: u64| #[trigger] found@.contains(id) ==> ids@.contains(id) && set@.contains(id),
            forall|j: int|
                0 <= j < i && set@.contains(#[trigger] ids@[j]) ==> found@.contains(ids@[j]),
        decreases ids.len() - i,
    {
        if set.contains(&ids[i]) {
            found.insert(ids[i]);
        }
        i = i + 1;
    }
    assert(found@ =~= ids@.to_set().intersect(set@));
    found.len()
}

pub(crate) fn join_entities(base: &mut Vec<EntityInstance>, more: &Vec<EntityInstance>)
    ensures
        entities_view(final(base)@) == entities_view(old(base)@) + entities_view(more@),
{
    let ghost before = entities_view(base@);
    let ghost views = entities_view(more@);
    let mut i: usize = 0;
    assert(before + views.take(0) =~= before);
    while i < more.len()
        invariant
            i <= more.len(),
            views == entities_view(more@),
            entities_view(base@) == before + views.take(i as int),
        decreases more.len() - i,
    {
        let ghost so_far = base@;
        assert(views[i as int] == more@[i as int]@);
        base.push(more[i].clone());
        i = i + 1;
        assert(entities_view(base@) =~= entities_view(so_far).push(views[i - 1]));
        assert(before + views.take(i as int) =~= (before + views.take(i - 1)).push(views[i - 1]));
    }
    assert(views.take(views.len() as int) =~= views);
}

/// Makes solids of one shape instances of one of them, turned by quarters.
pub fn instance_z90_solids(entities: &mut Vec<EntityInstance>, evidence: &InstanceEvidence) -> (stats:
    InstanceStats)
    ensures
        instances_made(
            entities_view(old(entities)@),
            *evidence,
            entities_view(final(entities)@),
            stats,
        ),
{
    let ghost views = entities_view(entities@);
    let none = InstanceStats {
        groups: 0,
        solids_replaced: 0,
        entities_removed: 0,
        styles_replaced: 0,
    };
    let state = match add_reps(entities, evidence) {
        Some(state) => state,
        None => {
            return none;
        },
    };
    if state.groups == 0 {
        return none;
    }
    let table = styles_by_target(entities);
    let old_styles = find_styles_of(entities, &table, &state.geometry);
    let remove = set_of(&old_styles);
    let mut work = clone_entities(&state.base);
    join_entities(&mut work, &state.added);
    patch_presentation_lists(&mut work, &remove, &state.styles);
    let ghost done = entities_view(work@);
    let mut candidates: Vec<u64> = Vec::new();
    append_ids(&mut candidates, &state.geometry);
    append_ids(&mut candidates, &old_styles);
    assert(candidates@ =~= state.geometry@ + old_styles@);
    let mut seed_ids: Vec<u64> = Vec::new();
    append_ids(&mut seed_ids, &state.roots);
    append_ids(&mut seed_ids, &old_styles);
    let seeds = set_of(&seed_ids);
    proof {
        assert(seed_ids@ =~= state.roots@ + old_styles@);
        assert forall|id: u64| #[trigger]
            seeds@.contains(id) == state.roots@.to_set().union(old_styles@.to_set()).contains(
                id,
            ) by {
            if state.roots@.contains(id) {
                let k = choose|k: int| 0 <= k < state.roots@.len() && state.roots@[k] == id;
                assert(seed_ids@[k] == id);
            }
            if old_styles@.contains(id) {
                let k = choose|k: int| 0 <= k < old_styles@.len() && old_styles@[k] == id;
                assert(seed_ids@[state.roots@.len() + k] == id);
            }
            if seed_ids@.contains(id) {
                let k = choose|k: int| 0 <= k < seed_ids@.len() && seed_ids@[k] == id;
                if k < state.roots@.len() {
                    assert(state.roots@[k] == id);
                } else {
                    assert(old_styles@[k - state.roots@.len()] == id);
                }
            }
        }
        assert(seeds@ =~= state.roots@.to_set().union(old_styles@.to_set()));
    }
    let keep = find_loose(&work, &candidates, &seeds);
    let gone = find_dead(&work, &candidates, &keep);
    assert(gone@ =~= given_up(done, candidates@, seeds@));
    remove_entities(&mut work, &gone);
    let stats = InstanceStats {
        groups: state.groups,
        solids_replaced: state.solids,
        entities_removed: gone.len(),
        styles_replaced: count_in(&old_styles, &gone),
    };
    *entities = work;
    stats
}

} // verus!
