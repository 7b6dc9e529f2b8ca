//! Joining of solids that were cut apart along plane faces.

use std::collections::{HashMap, HashSet};
use vstd::prelude::*;

use crate::ast::{
    clone_entities, clone_params, entities_view, lemma_list_view, params_view, EntityInstance,
    EntityView, ParamView, Parameter, Record, RecordView,
};
use crate::face_coalesce::{
    append_ids, presentation_type, ref_list_param, ref_param, ref_params, truth, truth_param,
};
use crate::face_info::{edge_vertices, edge_vertices_of};
use crate::graph::{
    all_are_refs, build_index, dead, descendants, entity_ref, entity_ref_value, find_dead, indexes,
    largest_id, lemma_position, max_id, nth_bool, nth_entity_ref, nth_logical, nth_ref, position,
    push_simple, reachable, ref_value, remove_entities, replace_entity, simple_entity,
    simple_record, without,
};
use crate::partition_joins::{
    edge_joins, faces_oriented_edges, faces_uses, find_edge_joins, find_vertex_joins, join_all,
    vertex_joins,
};
use crate::partition_plan::{
    are_weld_plans, plan_welds, welds_view, ComponentPlan, Interface, WeldEvidence, WeldView,
};
use crate::sets::set_of;
use crate::text::same_text;
use crate::union_find::{root_after, UnionFind};

verus! {

broadcast use vstd::std_specs::hash::group_hash_axioms;

/// What the pass has joined.
#[derive(Debug, Clone, Copy, PartialEq, Eq, Structural)]
pub struct PartitionRecoveryStats {
    pub components: usize,
    pub solids_merged: usize,
    pub interfaces_removed: usize,
    pub styles_retargeted: usize,
    pub entities_removed: usize,
}

pub open spec fn no_stats() -> PartitionRecoveryStats {
    PartitionRecoveryStats {
        components: 0,
        solids_merged: 0,
        interfaces_removed: 0,
        styles_retargeted: 0,
        entities_removed: 0,
    }
}

/// The edge and direction that an oriented edge gets; `None` inside where it keeps its edge.
/// Without an outer value its ends do not fit.
pub open spec fn turned(
    entities: Seq<EntityView>,
    record: RecordView,
    edges: Seq<(u64, u64)>,
    vertices: Seq<(u64, u64)>,
) -> Option<Option<(u64, bool)>> {
    match nth_ref(record, 3) {
        None => None,
        Some(edge) => {
            let new = root_after(edges, edge);
            if new == edge {
                Some(None)
            } else {
                match (
                    edge_vertices_of(entities, edge),
                    nth_logical(record, 4),
                    edge_vertices_of(entities, new),
                ) {
                    (Some((v0, v1)), Some(forward), Some((c0, c1))) => {
                        let start = root_after(
                            vertices,
                            if forward {
                                v0
                            } else {
                                v1
                            },
                        );
                        let end = root_after(
                            vertices,
                            if forward {
                                v1
                            } else {
                                v0
                            },
                        );
                        let a = root_after(vertices, c0);
                        let b = root_after(vertices, c1);
                        if start == a && end == b {
                            Some(Some((new, true)))
                        } else if start == b && end == a {
                            Some(Some((new, false)))
                        } else {
                            None
                        }
                    },
                    _ => None,
                }
            }
        },
    }
}

/// Whether an entity is one of the oriented edges that stay.
pub open spec fn stays(entity: EntityView, uses: Seq<u64>) -> bool {
    &&& uses.contains(entity.id())
    &&& simple_record(entity) matches Some(record)
    &&& record.name == "ORIENTED_EDGE"@
}

/// What the oriented edges among the first `n` entities get.
pub open spec fn turns(
    entities: Seq<EntityView>,
    uses: Seq<u64>,
    edges: Seq<(u64, u64)>,
    vertices: Seq<(u64, u64)>,
    n: nat,
) -> Option<Map<u64, (u64, bool)>>
    decreases n,
{
    if n == 0 {
        Some(Map::empty())
    } else {
        let entity = entities[n - 1];
        match turns(entities, uses, edges, vertices, (n - 1) as nat) {
            None => None,
            Some(rest) => if stays(entity, uses) {
                match turned(entities, simple_record(entity)->Some_0, edges, vertices) {
                    None => None,
                    Some(None) => Some(rest),
                    Some(Some(turn)) => Some(rest.insert(entity.id(), turn)),
                }
            } else {
                Some(rest)
            },
        }
    }
}

/// An entity with the edges and vertices that stay. An edge or an oriented edge that lacks
/// parameters cannot be changed.
pub open spec fn relinked(
    entity: EntityView,
    turns: Map<u64, (u64, bool)>,
    vertices: Seq<(u64, u64)>,
) -> Option<EntityView> {
    match entity {
        EntityView::Complex { .. } => Some(entity),
        EntityView::Simple { id, record } => if record.name == "EDGE_CURVE"@ {
            match record.parameter {
                ParamView::List(items) if items.len() >= 5 && ref_value(items[1]) is Some
                    && ref_value(items[2]) is Some => Some(
                    simple_entity(
                        id,
                        record.name,
                        items.update(
                            1,
                            ref_param(root_after(vertices, ref_value(items[1])->Some_0)),
                        ).update(2, ref_param(root_after(vertices, ref_value(items[2])->Some_0))),
                    ),
                ),
                _ => None,
            }
        } else if record.name == "ORIENTED_EDGE"@ && turns.contains_key(id) {
            match record.parameter {
                ParamView::List(items) if items.len() >= 5 => Some(
                    simple_entity(
                        id,
                        record.name,
                        items.update(3, ref_param(turns[id].0)).update(4, truth(turns[id].1)),
                    ),
                ),
                _ => None,
            }
        } else {
            Some(entity)
        },
    }
}

pub open spec fn all_relinked(
    entities: Seq<EntityView>,
    turns: Map<u64, (u64, bool)>,
    vertices: Seq<(u64, u64)>,
) -> Option<Seq<EntityView>> {
    if forall|i: int|
        0 <= i < entities.len() ==> relinked(#[trigger] entities[i], turns, vertices) is Some {
        Some(
            Seq::new(
                entities.len(),
                |i: int| relinked(entities[i], turns, vertices)->Some_0,
            ),
        )
    } else {
        None
    }
}

/// The pairs of plans, one plan after the other.
pub open spec fn plan_pairs(plans: Seq<WeldView>, n: nat) -> Seq<Interface>
    decreases n,
{
    if n == 0 {
        Seq::empty()
    } else {
        plan_pairs(plans, (n - 1) as nat) + plans[n - 1].interfaces
    }
}

pub open spec fn plan_kept(plans: Seq<WeldView>, n: nat) -> Seq<u64>
    decreases n,
{
    if n == 0 {
        Seq::empty()
    } else {
        plan_kept(plans, (n - 1) as nat) + plans[n - 1].retained_faces
    }
}

pub open spec fn plan_solids(plans: Seq<WeldView>, n: nat) -> Seq<u64>
    decreases n,
{
    if n == 0 {
        Seq::empty()
    } else {
        plan_solids(plans, (n - 1) as nat) + plans[n - 1].solids
    }
}

pub open spec fn plan_old_styles(plans: Seq<WeldView>, n: nat) -> Seq<u64>
    decreases n,
{
    if n == 0 {
        Seq::empty()
    } else {
        plan_old_styles(plans, (n - 1) as nat) + plans[n - 1].old_styles
    }
}

/// The entities with the edges and vertices that stay.
pub open spec fn relinked_for(
    entities: Seq<EntityView>,
    edge_class: Map<u64, u64>,
    point_class: Map<u64, u64>,
    plans: Seq<WeldView>,
) -> Option<Seq<EntityView>> {
    match (
        edge_joins(entities, edge_class, plan_pairs(plans, plans.len())),
        faces_uses(entities, plan_kept(plans, plans.len())),
    ) {
        (Some(edges), Some(uses)) => match vertex_joins(entities, point_class, edges) {
            Some(vertices) => match turns(entities, uses, edges, vertices, entities.len()) {
                Some(turns) => all_relinked(entities, turns, vertices),
                None => None,
            },
            None => None,
        },
        _ => None,
    }
}

/// The entities with the shell, the solid and the styled item of a plan. Their ids follow `id`.
pub open spec fn with_weld(entities: Seq<EntityView>, plan: WeldView, id: u64) -> Seq<EntityView> {
    let name = ParamView::String("step-redox welded partition"@);
    entities.push(
        simple_entity(
            id,
            "CLOSED_SHELL"@,
            seq![name, ParamView::List(ref_params(plan.retained_faces))],
        ),
    ).push(
        simple_entity((id + 1) as u64, "MANIFOLD_SOLID_BREP"@, seq![name, ref_param(id)]),
    ).push(
        simple_entity(
            (id + 2) as u64,
            "STYLED_ITEM"@,
            seq![
                ParamView::String(Seq::empty()),
                ParamView::List(ref_params(plan.style_assignment)),
                ref_param((id + 1) as u64),
            ],
        ),
    )
}

/// The first of the three ids of a plan.
pub open spec fn weld_id(last: u64, k: int) -> u64 {
    (last + 3 * k + 1) as u64
}

pub open spec fn with_welds(
    entities: Seq<EntityView>,
    plans: Seq<WeldView>,
    last: u64,
    n: nat,
) -> Seq<EntityView>
    decreases n,
{
    if n == 0 {
        entities
    } else {
        with_weld(
            with_welds(entities, plans, last, (n - 1) as nat),
            plans[n - 1],
            weld_id(last, n - 1),
        )
    }
}

/// Whether one of the items refers to one of the ids.
pub open spec fn meets(items: Seq<ParamView>, ids: Seq<u64>) -> bool {
    exists|i: int|
        0 <= i < items.len() && (ref_value(#[trigger] items[i]) matches Some(id) && ids.contains(
            id,
        ))
}

/// A list of items in which some are replaced by one, where the first of them stands.
pub open spec fn merged_items(items: Seq<ParamView>, old: Seq<u64>, new: u64) -> Seq<ParamView>
    decreases items.len(),
{
    if items.len() == 0 {
        Seq::empty()
    } else {
        let rest = merged_items(items.drop_last(), old, new);
        match ref_value(items.last()) {
            Some(id) if old.contains(id) => if meets(items.drop_last(), old) {
                rest
            } else {
                rest.push(ref_param(new))
            },
            _ => rest.push(items.last()),
        }
    }
}

/// A representation in which some items are replaced by one.
pub open spec fn merged_rep(entity: EntityView, old: Seq<u64>, new: u64) -> Option<EntityView> {
    match simple_record(entity) {
        Some(record) => match record.parameter {
            ParamView::List(params) if params.len() > 1 => match params[1] {
                ParamView::List(items) if all_are_refs(items) => Some(
                    simple_entity(
                        entity.id(),
                        record.name,
                        params.update(1, ParamView::List(merged_items(items, old, new))),
                    ),
                ),
                _ => None,
            },
            _ => None,
        },
        None => None,
    }
}

/// The entities with the joined solids of the first `n` plans in their representations.
pub open spec fn with_reps(
    entities: Seq<EntityView>,
    plans: Seq<WeldView>,
    last: u64,
    n: nat,
) -> Option<Seq<EntityView>>
    decreases n,
{
    if n == 0 {
        Some(entities)
    } else {
        match with_reps(entities, plans, last, (n - 1) as nat) {
            None => None,
            Some(done) => {
                let plan = plans[n - 1];
                match position(done, plan.rep) {
                    None => None,
                    Some(at) => match merged_rep(
                        done[at],
                        plan.solids,
                        (weld_id(last, n - 1) + 1) as u64,
                    ) {
                        None => None,
                        Some(rep) => Some(done.update(at, rep)),
                    },
                }
            },
        }
    }
}

/// The styled items that stand for those of the first `n` plans.
pub open spec fn style_map(plans: Seq<WeldView>, last: u64, n: nat) -> Map<u64, u64>
    decreases n,
{
    if n == 0 {
        Map::empty()
    } else {
        mapped_to(
            style_map(plans, last, (n - 1) as nat),
            plans[n - 1].old_styles,
            (weld_id(last, n - 1) + 2) as u64,
        )
    }
}

/// A map in which some ids lead to one.
pub open spec fn mapped_to(map: Map<u64, u64>, ids: Seq<u64>, to: u64) -> Map<u64, u64>
    decreases ids.len(),
{
    if ids.len() == 0 {
        map
    } else {
        mapped_to(map, ids.drop_last(), to).insert(ids.last(), to)
    }
}

/// A list of references that are replaced, each kept where it first stands.
pub open spec fn moved_refs(items: Seq<ParamView>, map: Map<u64, u64>) -> Seq<ParamView>
    decreases items.len(),
{
    if items.len() == 0 {
        Seq::empty()
    } else {
        let rest = moved_refs(items.drop_last(), map);
        let id = ref_value(items.last())->Some_0;
        let new = ref_param(
            if map.contains_key(id) {
                map[id]
            } else {
                id
            },
        );
        if rest.contains(new) {
            rest
        } else {
            rest.push(new)
        }
    }
}

/// A parameter with references replaced, where they stand in a list of nothing but references.
pub open spec fn moved(p: ParamView, map: Map<u64, u64>) -> ParamView
    decreases p,
{
    match p {
        ParamView::List(items) => if items.len() > 0 && all_are_refs(items) {
            ParamView::List(moved_refs(items, map))
        } else {
            ParamView::List(
                Seq::new(
                    items.len(),
                    |i: int|
                        if 0 <= i < items.len() {
                            moved(items[i], map)
                        } else {
                            ParamView::Omitted
                        },
                ),
            )
        },
        ParamView::Typed { keyword, parameter } => ParamView::Typed {
            keyword,
            parameter: Box::new(moved(*parameter, map)),
        },
        other => other,
    }
}

pub open spec fn moved_root(entity: EntityView, map: Map<u64, u64>) -> EntityView {
    match entity {
        EntityView::Simple { id, record } if presentation_type(record.name) => EntityView::Simple {
            id,
            record: RecordView { name: record.name, parameter: moved(record.parameter, map) },
        },
        _ => entity,
    }
}

pub open spec fn moved_roots(entities: Seq<EntityView>, map: Map<u64, u64>) -> Seq<EntityView> {
    Seq::new(entities.len(), |i: int| moved_root(entities[i], map))
}

/// The entities after all rewriting, before anything is given up; nothing where the parts do
/// not fit together or no ids are left.
pub open spec fn welded(
    entities: Seq<EntityView>,
    edge_class: Map<u64, u64>,
    point_class: Map<u64, u64>,
    plans: Seq<WeldView>,
) -> Option<Seq<EntityView>> {
    match relinked_for(entities, edge_class, point_class, plans) {
        None => None,
        Some(linked) => {
            let last = max_id(linked);
            if last + 3 * plans.len() > u64::MAX {
                None
            } else {
                match with_reps(
                    with_welds(linked, plans, last, plans.len()),
                    plans,
                    last,
                    plans.len(),
                ) {
                    None => None,
                    Some(done) => Some(moved_roots(done, style_map(plans, last, plans.len()))),
                }
            }
        },
    }
}

/// Styled items whose references are not followed.
pub open spec fn passed_over(plans: Seq<WeldView>) -> Set<u64> {
    plan_old_styles(plans, plans.len()).to_set().difference(
        plan_solids(plans, plans.len()).to_set(),
    )
}

/// What may be given up: the old styled items, the old solids, and what could be reached from
/// the solids other than through one of the styled items.
pub open spec fn may_go(entities: Seq<EntityView>, plans: Seq<WeldView>, id: u64) -> bool {
    reachable(without(entities, passed_over(plans)), plan_solids(plans, plans.len()), id)
        || plan_old_styles(plans, plans.len()).contains(id)
}

/// What a pass with these plans counts.
pub open spec fn weld_stats(plans: Seq<WeldView>, gone: Set<u64>) -> PartitionRecoveryStats {
    PartitionRecoveryStats {
        components: plans.len() as usize,
        solids_merged: plan_solids(plans, plans.len()).len() as usize,
        interfaces_removed: plan_pairs(plans, plans.len()).len() as usize,
        styles_retargeted: plan_old_styles(plans, plans.len()).to_set().len() as usize,
        entities_removed: gone.len() as usize,
    }
}

pub open spec fn given_up(done: Seq<EntityView>, candidates: Seq<u64>) -> Set<u64> {
    Set::new(|id: u64| dead(done, candidates, Set::empty(), id))
}

/// What the pass makes of entities. Where there is nothing to join, or the edges or vertices at
/// a pair of faces do not fit together, it leaves them as they are.
pub open spec fn joins_bodies(
    entities: Seq<EntityView>,
    evidence: WeldEvidence,
    plans: Seq<WeldView>,
    candidates: Seq<u64>,
    result: Seq<EntityView>,
    stats: PartitionRecoveryStats,
) -> bool {
    let done = welded(entities, evidence.edge_class@, evidence.point_class@, plans);
    &&& are_weld_plans(entities, evidence.face_class@, evidence.opposed@, plans)
    &&& forall|id: u64| #[trigger] candidates.contains(id) == may_go(entities, plans, id)
    &&& if plans.len() == 0 || done is None {
        result == entities && stats == no_stats()
    } else {
        let gone = given_up(done->Some_0, candidates);
        result == without(done->Some_0, gone) && stats == weld_stats(plans, gone)
    }
}

/// The edge and direction that an oriented edge gets.
fn find_turn(
    entities: &Vec<EntityInstance>,
    index: &HashMap<u64, usize>,
    record: &Record,
    edges: &mut UnionFind,
    vertices: &mut UnionFind,
    Ghost(e): Ghost<Seq<(u64, u64)>>,
    Ghost(v): Ghost<Seq<(u64, u64)>>,
) -> (out: Option<Option<(u64, bool)>>)
    requires
        indexes(index@, entities_view(entities@)),
        forall|x: u64| #[trigger] old(edges).root_of(x) == root_after(e, x),
        forall|x: u64| #[trigger] old(vertices).root_of(x) == root_after(v, x),
    ensures
        out == turned(entities_view(entities@), record@, e, v),
        forall|x: u64| #[trigger] final(edges).root_of(x) == root_after(e, x),
        forall|x: u64| #[trigger] final(vertices).root_of(x) == root_after(v, x),
{
    let edge: u64 = match nth_entity_ref(record, 3) {
        Some(edge) => edge,
        None => {
            return None;
        },
    };
    assert(edges.root_of(edge) == root_after(e, edge));
    let new: u64 = edges.mapped(edge);
    assert forall|x: u64| #[trigger] edges.root_of(x) == root_after(e, x) by {
        assert(old(edges).root_of(x) == root_after(e, x));
    }
    if new == edge {
        return Some(None);
    }
    match (
        edge_vertices(edge, entities, index),
        nth_bool(record, 4),
        edge_vertices(new, entities, index),
    ) {
        (Some((v0, v1)), Some(forward), Some((c0, c1))) => {
            let from: u64 = if forward {
                v0
            } else {
                v1
            };
            let to: u64 = if forward {
                v1
            } else {
                v0
            };
            let start: u64 = mapped_vertex(vertices, from, Ghost(v));
            let end: u64 = mapped_vertex(vertices, to, Ghost(v));
            let a: u64 = mapped_vertex(vertices, c0, Ghost(v));
            let b: u64 = mapped_vertex(vertices, c1, Ghost(v));
            if start == a && end == b {
                Some(Some((new, true)))
            } else if start == b && end == a {
                Some(Some((new, false)))
            } else {
                None
            }
        },
        _ => None,
    }
}

fn mapped_vertex(
    vertices: &mut UnionFind,
    id: u64,
    Ghost(v): Ghost<Seq<(u64, u64)>>,
) -> (out: u64)
    requires
        forall|x: u64| #[trigger] old(vertices).root_of(x) == root_after(v, x),
    ensures
        out == root_after(v, id),
        forall|x: u64| #[trigger] final(vertices).root_of(x) == root_after(v, x),
{
    assert(vertices.root_of(id) == root_after(v, id));
    let out: u64 = vertices.mapped(id);
    assert forall|x: u64| #[trigger] vertices.root_of(x) == root_after(v, x) by {
        assert(old(vertices).root_of(x) == root_after(v, x));
    }
    out
}

proof fn lemma_turns_stop(
    entities: Seq<EntityView>,
    uses: Seq<u64>,
    edges: Seq<(u64, u64)>,
    vertices: Seq<(u64, u64)>,
    n: nat,
    m: nat,
)
    requires
        n <= m,
        turns(entities, uses, edges, vertices, n) is None,
    ensures
        turns(entities, uses, edges, vertices, m) is None,
    decreases m,
{
    if n < m {
        lemma_turns_stop(entities, uses, edges, vertices, n, (m - 1) as nat);
    }
}

/// What the oriented edges that stay get.
fn find_turns(
    entities: &Vec<EntityInstance>,
    index: &HashMap<u64, usize>,
    uses: &Vec<u64>,
    edges: &mut UnionFind,
    vertices: &mut UnionFind,
    Ghost(e): Ghost<Seq<(u64, u64)>>,
    Ghost(v): Ghost<Seq<(u64, u64)>>,
) -> (out: Option<HashMap<u64, (u64, bool)>>)
    requires
        indexes(index@, entities_view(entities@)),
        forall|x: u64| #[trigger] old(edges).root_of(x) == root_after(e, x),
        forall|x: u64| #[trigger] old(vertices).root_of(x) == root_after(v, x),
    ensures
        out is Some == turns(entities_view(entities@), uses@, e, v, entities@.len()) is Some,
        out matches Some(found) ==> turns(
            entities_view(entities@),
            uses@,
            e,
            v,
            entities@.len(),
        ) == Some(found@),
        forall|x: u64| #[trigger] final(vertices).root_of(x) == root_after(v, x),
{
    let ghost views = entities_view(entities@);
    let wanted = set_of(uses);
    let mut out: HashMap<u64, (u64, bool)> = HashMap::new();
    let mut i: usize = 0;
    assert(out@ =~= Map::empty());
    while i < entities.len()
        invariant
            i <= entities.len(),
            views == entities_view(entities@),
            indexes(index@, views),
            wanted@ == uses@.to_set(),
            forall|x: u64| #[trigger] edges.root_of(x) == root_after(e, x),
            forall|x: u64| #[trigger] vertices.root_of(x) == root_after(v, x),
            turns(views, uses@, e, v, i as nat) == Some(out@),
        decreases entities.len() - i,
    {
        assert(views[i as int] == entities@[i as int]@);
        if let EntityInstance::Simple { id, record } = &entities[i] {
            assert(wanted@.contains(*id) == uses@.contains(*id));
            if wanted.contains(id) && same_text(record.name.as_str(), "ORIENTED_EDGE") {
                match find_turn(entities, index, record, edges, vertices, Ghost(e), Ghost(v)) {
                    None => {
                        proof {
                            lemma_turns_stop(views, uses@, e, v, (i + 1) as nat, views.len());
                        }
                        return None;
                    },
                    Some(None) => {},
                    Some(Some(turn)) => {
                        out.insert(*id, turn);
                    },
                }
            }
        }
        i = i + 1;
    }
    Some(out)
}

/// An entity with the edges and vertices that stay.
fn relink(
    entity: &EntityInstance,
    turns: &HashMap<u64, (u64, bool)>,
    vertices: &mut UnionFind,
    Ghost(v): Ghost<Seq<(u64, u64)>>,
) -> (out: Option<EntityInstance>)
    requires
        forall|x: u64| #[trigger] old(vertices).root_of(x) == root_after(v, x),
    ensures
        out is Some == relinked(entity@, turns@, v) is Some,
        out matches Some(done) ==> relinked(entity@, turns@, v) == Some(done@),
        forall|x: u64| #[trigger] final(vertices).root_of(x) == root_after(v, x),
{
    match entity {
        EntityInstance::Complex { .. } => Some(entity.clone()),
        EntityInstance::Simple { id, record } => {
            if same_text(record.name.as_str(), "EDGE_CURVE") {
                if let Parameter::List(items) = &record.parameter {
                    proof {
                        lemma_list_view(*items);
                    }
                    let ghost views = params_view(items@);
                    if items.len() >= 5 {
                        assert(views[1] == items@[1]@ && views[2] == items@[2]@);
                        match (entity_ref_value(&items[1]), entity_ref_value(&items[2])) {
                            (Some(v0), Some(v1)) => {
                                let a: u64 = mapped_vertex(vertices, v0, Ghost(v));
                                let b: u64 = mapped_vertex(vertices, v1, Ghost(v));
                                let mut params = clone_params(items);
                                let ghost copy = params@;
                                assert(params_view(copy).len() == copy.len());
                                params.set(1, entity_ref(a));
                                params.set(2, entity_ref(b));
                                assert(params_view(params@) =~= params_view(copy).update(
                                    1,
                                    ref_param(a),
                                ).update(2, ref_param(b)));
                                proof {
                                    lemma_list_view(params);
                                }
                                return Some(
                                    EntityInstance::Simple {
                                        id: *id,
                                        record: Record {
                                            name: record.name.clone(),
                                            parameter: Parameter::List(params),
                                        },
                                    },
                                );
                            },
                            _ => {
                                return None;
                            },
                        }
                    }
                }
                None
            } else if same_text(record.name.as_str(), "ORIENTED_EDGE") {
                match turns.get(id) {
                    None => Some(entity.clone()),
                    Some((edge, forward)) => {
                        if let Parameter::List(items) = &record.parameter {
                            proof {
                                lemma_list_view(*items);
                            }
                            if items.len() >= 5 {
                                let mut params = clone_params(items);
                                let ghost copy = params@;
                                assert(params_view(copy).len() == copy.len());
                                params.set(3, entity_ref(*edge));
                                params.set(4, truth_param(*forward));
                                assert(params_view(params@) =~= params_view(copy).update(
                                    3,
                                    ref_param(*edge),
                                ).update(4, truth(*forward)));
                                proof {
                                    lemma_list_view(params);
                                }
                                return Some(
                                    EntityInstance::Simple {
                                        id: *id,
                                        record: Record {
                                            name: record.name.clone(),
                                            parameter: Parameter::List(params),
                                        },
                                    },
                                );
                            }
                        }
                        None
                    },
                }
            } else {
                Some(entity.clone())
            }
        },
    }
}

/// The entities with the edges and vertices that stay.
fn relink_all(
    entities: &Vec<EntityInstance>,
    turns: &HashMap<u64, (u64, bool)>,
    vertices: &mut UnionFind,
    Ghost(v): Ghost<Seq<(u64, u64)>>,
) -> (out: Option<Vec<EntityInstance>>)
    requires
        forall|x: u64| #[trigger] old(vertices).root_of(x) == root_after(v, x),
    ensures
        out is Some == all_relinked(entities_view(entities@), turns@, v) is Some,
        out matches Some(done) ==> all_relinked(entities_view(entities@), turns@, v) == Some(
            entities_view(done@),
        ),
{
    let ghost views = entities_view(entities@);
    let mut out: Vec<EntityInstance> = Vec::new();
    let mut i: usize = 0;
    while i < entities.len()
        invariant
            i <= entities.len(),
            out.len() == i,
            views == entities_view(entities@),
            forall|x: u64| #[trigger] vertices.root_of(x) == root_after(v, x),
            forall|j: int|
                0 <= j < i ==> relinked(#[trigger] views[j], turns@, v) == Some(out@[j]@),
        decreases entities.len() - i,
    {
        assert(views[i as int] == entities@[i as int]@);
        match relink(&entities[i], turns, vertices, Ghost(v)) {
            Some(done) => out.push(done),
            None => {
                assert(relinked(views[i as int], turns@, v) is None);
                return None;
            },
        }
        i = i + 1;
    }
    assert(entities_view(out@) =~= Seq::new(
        views.len(),
        |j: int| relinked(views[j], turns@, v)->Some_0,
    ));
    Some(out)
}

/// Appends the shell, the solid and the styled item of a plan.
fn add_weld(entities: &mut Vec<EntityInstance>, plan: &ComponentPlan, id: u64)
    requires
        id <= u64::MAX - 2,
    ensures
        entities_view(final(entities)@) == with_weld(entities_view(old(entities)@), plan@, id),
{
    let mut shell: Vec<Parameter> = Vec::new();
    shell.push(Parameter::String("step-redox welded partition".to_owned()));
    shell.push(ref_list_param(&plan.retained_faces));
    assert(params_view(shell@) =~= seq![
        ParamView::String("step-redox welded partition"@),
        ParamView::List(ref_params(plan@.retained_faces)),
    ]);
    push_simple(entities, id, "CLOSED_SHELL", shell);
    let mut solid: Vec<Parameter> = Vec::new();
    solid.push(Parameter::String("step-redox welded partition".to_owned()));
    solid.push(entity_ref(id));
    assert(params_view(solid@) =~= seq![
        ParamView::String("step-redox welded partition"@),
        ref_param(id),
    ]);
    push_simple(entities, id + 1, "MANIFOLD_SOLID_BREP", solid);
    let mut style: Vec<Parameter> = Vec::new();
    style.push(Parameter::String(String::new()));
    style.push(ref_list_param(&plan.style_assignment));
    style.push(entity_ref(id + 1));
    assert(params_view(style@) =~= seq![
        ParamView::String(Seq::empty()),
        ParamView::List(ref_params(plan@.style_assignment)),
        ref_param((id + 1) as u64),
    ]);
    push_simple(entities, id + 2, "STYLED_ITEM", style);
}

fn add_welds(entities: &mut Vec<EntityInstance>, plans: &Vec<ComponentPlan>, last: u64)
    requires
        last + 3 * plans@.len() <= u64::MAX,
    ensures
        entities_view(final(entities)@) == with_welds(
            entities_view(old(entities)@),
            welds_view(plans@),
            last,
            plans@.len(),
        ),
{
    let ghost start = entities_view(entities@);
    let ghost views = welds_view(plans@);
    let mut k: usize = 0;
    while k < plans.len()
        invariant
            k <= plans.len(),
            views == welds_view(plans@),
            last + 3 * plans@.len() <= u64::MAX,
            entities_view(entities@) == with_welds(start, views, last, k as nat),
        decreases plans.len() - k,
    {
        assert(views[k as int] == plans@[k as int]@);
        let id: u64 = last + 3 * (k as u64) + 1;
        add_weld(entities, &plans[k], id);
        k = k + 1;
    }
}

/// A list of items in which some are replaced by one, where the first of them stands.
fn merge_items(items: &Vec<Parameter>, old: &Vec<u64>, new: u64) -> (out: Vec<Parameter>)
    ensures
        params_view(out@) == merged_items(params_view(items@), old@, new),
{
    let ghost views = params_view(items@);
    let members = set_of(old);
    let mut out: Vec<Parameter> = Vec::new();
    let mut emitted = false;
    let mut i: usize = 0;
    assert(views.take(0) =~= Seq::empty());
    assert(params_view(out@) =~= Seq::empty());
    while i < items.len()
        invariant
            i <= items.len(),
            views == params_view(items@),
            members@ == old@.to_set(),
            params_view(out@) == merged_items(views.take(i as int), old@, new),
            emitted == meets(views.take(i as int), old@),
        decreases items.len() - i,
    {
        let ghost before = params_view(out@);
        let ghost front = views.take(i as int);
        let ghost upto = views.take(i + 1);
        assert(views[i as int] == items@[i as int]@);
        assert(upto.drop_last() =~= front);
        let gone = match entity_ref_value(&items[i]) {
            Some(id) => {
                assert(members@.contains(id) == old@.contains(id));
                members.contains(&id)
            },
            None => false,
        };
        proof {
            assert(meets(upto, old@) == (meets(front, old@) || gone)) by {
                if meets(front, old@) {
                    let k = choose|k: int|
                        0 <= k < front.len() && (ref_value(#[trigger] front[k]) matches Some(id)
                            && old@.contains(id));
                    assert(upto[k] == front[k]);
                }
                if meets(upto, old@) {
                    let k = choose|k: int|
                        0 <= k < upto.len() && (ref_value(#[trigger] upto[k]) matches Some(id)
                            && old@.contains(id));
                    if k < front.len() {
                        assert(upto[k] == front[k]);
                    }
                }
                assert(upto[i as int] == views[i as int]);
            }
        }
        if gone {
            if !emitted {
                out.push(entity_ref(new));
                emitted = true;
                assert(params_view(out@) =~= before.push(ref_param(new)));
            }
        } else {
            out.push(items[i].clone());
            assert(params_view(out@) =~= before.push(views[i as int]));
        }
        i = i + 1;
    }
    assert(views.take(views.len() as int) =~= views);
    out
}

/// A representation in which some items are replaced by one.
fn merge_rep(entity: &EntityInstance, old: &Vec<u64>, new: u64) -> (out: Option<EntityInstance>)
    ensures
        out is Some == merged_rep(entity@, old@, new) is Some,
        out matches Some(done) ==> merged_rep(entity@, old@, new) == Some(done@),
{
    if let EntityInstance::Simple { id, record } = entity {
        if let Parameter::List(params) = &record.parameter {
            proof {
                lemma_list_view(*params);
            }
            if params.len() > 1 {
                assert(params_view(params@)[1] == params@[1]@);
                if crate::graph::entity_ref_list(&params[1]).is_none() {
                    return None;
                }
                if let Parameter::List(items) = &params[1] {
                    proof {
                        lemma_list_view(*items);
                    }
                    let merged = merge_items(items, old, new);
                    proof {
                        lemma_list_view(merged);
                    }
                    let mut copy = clone_params(params);
                    let ghost before = copy@;
                    assert(params_view(before).len() == before.len());
                    let list = Parameter::List(merged);
                    let ghost list_view = list@;
                    copy.set(1, list);
                    assert(params_view(copy@) =~= params_view(before).update(1, list_view));
                    proof {
                        lemma_list_view(copy);
                    }
                    return Some(
                        EntityInstance::Simple {
                            id: *id,
                            record: Record {
                                name: record.name.clone(),
                                parameter: Parameter::List(copy),
                            },
                        },
                    );
                }
            }
        }
    }
    None
}

proof fn lemma_reps_stop(
    entities: Seq<EntityView>,
    plans: Seq<WeldView>,
    last: u64,
    n: nat,
    m: nat,
)
    requires
        n <= m,
        with_reps(entities, plans, last, n) is None,
    ensures
        with_reps(entities, plans, last, m) is None,
    decreases m,
{
    if n < m {
        lemma_reps_stop(entities, plans, last, n, (m - 1) as nat);
    }
}

/// The ids and their order stay when a representation gets other items.
proof fn lemma_rep_position(entities: Seq<EntityView>, at: int, entity: EntityView, id: u64)
    requires
        0 <= at < entities.len(),
        entity.id() == entities[at].id(),
    ensures
        position(entities.update(at, entity), id) == position(entities, id),
{
    crate::face_coalesce::lemma_position_updated(entities, at, entity, id);
}

/// Puts the joined solids into their representations.
fn fill_reps(entities: &mut Vec<EntityInstance>, plans: &Vec<ComponentPlan>, last: u64) -> (done:
    bool)
    requires
        last + 3 * plans@.len() <= u64::MAX,
    ensures
        done == with_reps(
            entities_view(old(entities)@),
            welds_view(plans@),
            last,
            plans@.len(),
        ) is Some,
        done ==> with_reps(
            entities_view(old(entities)@),
            welds_view(plans@),
            last,
            plans@.len(),
        ) == Some(entities_view(final(entities)@)),
{
    let ghost start = entities_view(entities@);
    let ghost views = welds_view(plans@);
    let index = build_index(entities);
    let mut k: usize = 0;
    while k < plans.len()
        invariant
            k <= plans.len(),
            start == entities_view(old(entities)@),
            views == welds_view(plans@),
            last + 3 * plans@.len() <= u64::MAX,
            indexes(index@, entities_view(entities@)),
            with_reps(start, views, last, k as nat) == Some(entities_view(entities@)),
        decreases plans.len() - k,
    {
        let plan = &plans[k];
        assert(views[k as int] == plan@);
        let ghost now = entities_view(entities@);
        let new: u64 = last + 3 * (k as u64) + 2;
        proof {
            lemma_position(now, plan.rep);
        }
        let found: Option<usize> = match index.get(&plan.rep) {
            Some(at) => Some(*at),
            None => None,
        };
        match found {
            None => {
                proof {
                    lemma_reps_stop(start, views, last, (k + 1) as nat, views.len());
                }
                return false;
            },
            Some(at) => {
                assert(now[at as int] == entities@[at as int]@);
                match merge_rep(&entities[at], &plan.solids, new) {
                    None => {
                        proof {
                            lemma_reps_stop(start, views, last, (k + 1) as nat, views.len());
                        }
                        return false;
                    },
                    Some(rep) => {
                        let ghost rep_view = rep@;
                        replace_entity(entities, at, rep);
                        assert forall|id: u64| #[trigger]
                            index@.contains_key(id) == (position(
                                entities_view(entities@),
                                id,
                            ) is Some) && (index@.contains_key(id) ==> index@[id] == position(
                                entities_view(entities@),
                                id,
                            )->Some_0) by {
                            lemma_rep_position(now, at as int, rep_view, id);
                        }
                    },
                }
            },
        }
        k = k + 1;
    }
    true
}

/// A map in which the old styled items lead to the new ones.
fn find_style_map(plans: &Vec<ComponentPlan>, last: u64) -> (out: HashMap<u64, u64>)
    requires
        last + 3 * plans@.len() <= u64::MAX,
    ensures
        out@ == style_map(welds_view(plans@), last, plans@.len()),
{
    let ghost views = welds_view(plans@);
    let mut out: HashMap<u64, u64> = HashMap::new();
    let mut k: usize = 0;
    assert(out@ =~= Map::empty());
    while k < plans.len()
        invariant
            k <= plans.len(),
            views == welds_view(plans@),
            last + 3 * plans@.len() <= u64::MAX,
            out@ == style_map(views, last, k as nat),
        decreases plans.len() - k,
    {
        let plan = &plans[k];
        assert(views[k as int] == plan@);
        let to: u64 = last + 3 * (k as u64) + 3;
        let ghost start = out@;
        let mut i: usize = 0;
        assert(plan.old_styles@.take(0) =~= Seq::empty());
        while i < plan.old_styles.len()
            invariant
                i <= plan.old_styles.len(),
                out@ == mapped_to(start, plan.old_styles@.take(i as int), to),
            decreases plan.old_styles.len() - i,
        {
            out.insert(plan.old_styles[i], to);
            i = i + 1;
            assert(plan.old_styles@.take(i as int).drop_last() =~= plan.old_styles@.take(i - 1));
        }
        assert(plan.old_styles@.take(plan.old_styles@.len() as int) =~= plan.old_styles@);
        k = k + 1;
    }
    out
}

/// A copy of a parameter with references replaced.
pub fn replace_and_dedup_direct_ref_lists(param: &Parameter, map: &HashMap<u64, u64>) -> (out:
    Parameter)
    ensures
        out@ == moved(param@, map@),
    decreases param,
{
    match param {
        Parameter::List(items) => {
            let ghost views = params_view(items@);
            proof {
                lemma_list_view(*items);
            }
            let mut list: Vec<Parameter> = Vec::new();
            let refs = if items.len() > 0 {
                crate::graph::entity_ref_list(param)
            } else {
                None
            };
            match refs {
                Some(ids) => {
                    let mut seen: HashSet<u64> = HashSet::new();
                    let mut k: usize = 0;
                    assert(views.take(0) =~= Seq::empty());
                    assert(params_view(list@) =~= Seq::empty());
                    while k < ids.len()
                        invariant
                            k <= ids.len(),
                            ids@.len() == views.len(),
                            forall|j: int|
                                0 <= j < views.len() ==> ref_value(#[trigger] views[j]) == Some(
                                    ids@[j],
                                ),
                            params_view(list@) == moved_refs(views.take(k as int), map@),
                            forall|id: u64| #[trigger]
                                seen@.contains(id) == params_view(list@).contains(ref_param(id)),
                        decreases ids.len() - k,
                    {
                        let ghost before = params_view(list@);
                        assert(views.take(k + 1).drop_last() =~= views.take(k as int));
                        assert(ref_value(views[k as int]) == Some(ids@[k as int]));
                        let new: u64 = match map.get(&ids[k]) {
                            Some(new) => *new,
                            None => ids[k],
                        };
                        assert(seen@.contains(new) == before.contains(ref_param(new)));
                        if !seen.contains(&new) {
                            list.push(entity_ref(new));
                            let ghost known = seen@;
                            seen.insert(new);
                            proof {
                                let now = params_view(list@);
                                assert(now =~= before.push(ref_param(new)));
                                assert forall|id: u64| #[trigger]
                                    seen@.contains(id) == now.contains(ref_param(id)) by {
                                    assert(known.contains(id) == before.contains(ref_param(id)));
                                    if before.contains(ref_param(id)) {
                                        let m = choose|m: int|
                                            0 <= m < before.len() && before[m] == ref_param(id);
                                        assert(now[m] == ref_param(id));
                                    }
                                    if id == new {
                                        assert(now[before.len() as int] == ref_param(id));
                                    }
                                    if now.contains(ref_param(id)) && id != new {
                                        let m = choose|m: int|
                                            0 <= m < now.len() && now[m] == ref_param(id);
                                        assert(ref_param(id) != ref_param(new));
                                        assert(before[m] == ref_param(id));
                                    }
                                }
                            }
                        }
                        k = k + 1;
                    }
                    assert(views.take(views.len() as int) =~= views);
                },
                None => {
                    let mut k: usize = 0;
                    while k < items.len()
                        invariant
                            k <= items.len(),
                            list.len() == k,
                            decreases_to!(param => items@),
                            forall|j: int|
                                0 <= j < k ==> (#[trigger] list@[j])@ == moved(items@[j]@, map@),
                        decreases items.len() - k,
                    {
                        let item = replace_and_dedup_direct_ref_lists(&items[k], map);
                        list.push(item);
                        k = k + 1;
                    }
                    assert(!(views.len() > 0 && all_are_refs(views)));
                    assert(params_view(list@) =~= moved(param@, map@)->List_0);
                },
            }
            proof {
                lemma_list_view(list);
            }
            Parameter::List(list)
        },
        Parameter::Typed { keyword, parameter } => Parameter::Typed {
            keyword: keyword.clone(),
            parameter: Box::new(replace_and_dedup_direct_ref_lists(&**parameter, map)),
        },
        other => other.clone(),
    }
}

/// Replaces styled items in the presentation roots.
fn move_roots(entities: &mut Vec<EntityInstance>, map: &HashMap<u64, u64>)
    ensures
        entities_view(final(entities)@) == moved_roots(entities_view(old(entities)@), map@),
{
    let ghost views = entities_view(entities@);
    let mut out: Vec<EntityInstance> = Vec::new();
    let mut i: usize = 0;
    while i < entities.len()
        invariant
            i <= entities.len(),
            out.len() == i,
            views == entities_view(entities@),
            *entities == *old(entities),
            forall|j: int| 0 <= j < i ==> (#[trigger] out@[j])@ == moved_root(views[j], map@),
        decreases entities.len() - i,
    {
        let entity = &entities[i];
        assert(views[i as int] == entity@);
        match entity {
            EntityInstance::Simple { id, record } => {
                if same_text(
                    record.name.as_str(),
                    "MECHANICAL_DESIGN_GEOMETRIC_PRESENTATION_REPRESENTATION",
                ) || same_text(record.name.as_str(), "PRESENTATION_LAYER_ASSIGNMENT") {
                    out.push(
                        EntityInstance::Simple {
                            id: *id,
                            record: Record {
                                name: record.name.clone(),
                                parameter: replace_and_dedup_direct_ref_lists(
                                    &record.parameter,
                                    map,
                                ),
                            },
                        },
                    );
                } else {
                    out.push(entity.clone());
                }
            },
            EntityInstance::Complex { .. } => out.push(entity.clone()),
        }
        i = i + 1;
    }
    *entities = out;
    assert(entities_view(entities@) =~= moved_roots(views, map@));
}

/// The lists of all plans, one plan after the other.
struct PlanLists {
    pairs: Vec<Interface>,
    kept: Vec<u64>,
    solids: Vec<u64>,
    styles: Vec<u64>,
}

fn append_interfaces(out: &mut Vec<Interface>, more: &Vec<Interface>)
    ensures
        final(out)@ == old(out)@ + more@,
{
    let mut i: usize = 0;
    assert(old(out)@ + more@.take(0) =~= old(out)@);
    while i < more.len()
        invariant
            i <= more.len(),
            out@ == old(out)@ + more@.take(i as int),
        decreases more.len() - i,
    {
        out.push(more[i]);
        i = i + 1;
        assert(old(out)@ + more@.take(i as int) =~= (old(out)@ + more@.take(i - 1)).push(
            more@[i - 1],
        ));
    }
    assert(more@.take(more@.len() as int) =~= more@);
}

fn collect(plans: &Vec<ComponentPlan>) -> (out: PlanLists)
    ensures
        out.pairs@ == plan_pairs(welds_view(plans@), plans@.len()),
        out.kept@ == plan_kept(welds_view(plans@), plans@.len()),
        out.solids@ == plan_solids(welds_view(plans@), plans@.len()),
        out.styles@ == plan_old_styles(welds_view(plans@), plans@.len()),
{
    let ghost views = welds_view(plans@);
    let mut pairs: Vec<Interface> = Vec::new();
    let mut kept: Vec<u64> = Vec::new();
    let mut solids: Vec<u64> = Vec::new();
    let mut styles: Vec<u64> = Vec::new();
    let mut k: usize = 0;
    while k < plans.len()
        invariant
            k <= plans.len(),
            views == welds_view(plans@),
            pairs@ == plan_pairs(views, k as nat),
            kept@ == plan_kept(views, k as nat),
            solids@ == plan_solids(views, k as nat),
            styles@ == plan_old_styles(views, k as nat),
        decreases plans.len() - k,
    {
        let plan = &plans[k];
        assert(views[k as int] == plan@);
        append_interfaces(&mut pairs, &plan.interfaces);
        append_ids(&mut kept, &plan.retained_faces);
        append_ids(&mut solids, &plan.solids);
        append_ids(&mut styles, &plan.old_styles);
        k = k + 1;
    }
    PlanLists { pairs, kept, solids, styles }
}

/// The ids of one list that are not in another.
fn difference(ids: &Vec<u64>, not: &Vec<u64>) -> (out: HashSet<u64>)
    ensures
        out@ == ids@.to_set().difference(not@.to_set()),
{
    let without_these = set_of(not);
    let mut out: HashSet<u64> = HashSet::new();
    let mut i: usize = 0;
    while i < ids.len()
        invariant
            i <= ids.len(),
            without_these@ == not@.to_set(),
            forall|id: u64| #[trigger]
                out@.contains(id) ==> ids@.contains(id) && !not@.contains(id),
            forall|j: int|
                0 <= j < i && !not@.contains(#[trigger] ids@[j]) ==> out@.contains(ids@[j]),
        decreases ids.len() - i,
    {
        assert(without_these@.contains(ids@[i as int]) == not@.contains(ids@[i as int]));
        if !without_these.contains(&ids[i]) {
            out.insert(ids[i]);
        }
        i = i + 1;
    }
    assert(out@ =~= ids@.to_set().difference(not@.to_set()));
    out
}

/// What may be given up.
fn find_candidates(
    entities: &Vec<EntityInstance>,
    solids: &Vec<u64>,
    styles: &Vec<u64>,
    Ghost(plans): Ghost<Seq<WeldView>>,
) -> (out: Vec<u64>)
    requires
        solids@ == plan_solids(plans, plans.len()),
        styles@ == plan_old_styles(plans, plans.len()),
    ensures
        forall|id: u64| #[trigger]
            out@.contains(id) == may_go(entities_view(entities@), plans, id),
{
    let ghost views = entities_view(entities@);
    let over = difference(styles, solids);
    let mut graph = clone_entities(entities);
    remove_entities(&mut graph, &over);
    let index = build_index(&graph);
    let mut out = descendants(&graph, &index, solids);
    let ghost reached = out@;
    append_ids(&mut out, styles);
    proof {
        let seen = without(views, passed_over(plans));
        assert(entities_view(graph@) == seen);
        assert forall|id: u64| #[trigger] out@.contains(id) == may_go(views, plans, id) by {
            assert(reached.contains(id) == reachable(seen, solids@, id));
            if reached.contains(id) {
                let j = choose|j: int| 0 <= j < reached.len() && reached[j] == id;
                assert(out@[j] == id);
            }
            if styles@.contains(id) {
                let j = choose|j: int| 0 <= j < styles@.len() && styles@[j] == id;
                assert(out@[reached.len() + j] == id);
            }
            if out@.contains(id) {
                let j = choose|j: int| 0 <= j < out@.len() && out@[j] == id;
                if j < reached.len() {
                    assert(reached[j] == id);
                } else {
                    assert(styles@[j - reached.len()] == id);
                }
            }
        }
    }
    out
}

/// The entities after all rewriting.
fn weld(
    entities: &Vec<EntityInstance>,
    evidence: &WeldEvidence,
    plans: &Vec<ComponentPlan>,
    lists: &PlanLists,
) -> (out: Option<Vec<EntityInstance>>)
    requires
        lists.pairs@ == plan_pairs(welds_view(plans@), plans@.len()),
        lists.kept@ == plan_kept(welds_view(plans@), plans@.len()),
    ensures
        out is Some == welded(
            entities_view(entities@),
            evidence.edge_class@,
            evidence.point_class@,
            welds_view(plans@),
        ) is Some,
        out matches Some(done) ==> welded(
            entities_view(entities@),
            evidence.edge_class@,
            evidence.point_class@,
            welds_view(plans@),
        ) == Some(entities_view(done@)),
{
    let index = build_index(entities);
    let edges = match find_edge_joins(&lists.pairs, &evidence.edge_class, entities, &index) {
        Some(edges) => edges,
        None => {
            return None;
        },
    };
    let vertices = match find_vertex_joins(&edges, &evidence.point_class, entities, &index) {
        Some(vertices) => vertices,
        None => {
            return None;
        },
    };
    let uses = match faces_oriented_edges(&lists.kept, entities, &index) {
        Some(uses) => uses,
        None => {
            return None;
        },
    };
    let mut edge_sets = join_all(&edges);
    let mut vertex_sets = join_all(&vertices);
    let turned_edges = match find_turns(
        entities,
        &index,
        &uses,
        &mut edge_sets,
        &mut vertex_sets,
        Ghost(edges@),
        Ghost(vertices@),
    ) {
        Some(found) => found,
        None => {
            return None;
        },
    };
    let mut work = match relink_all(entities, &turned_edges, &mut vertex_sets, Ghost(vertices@)) {
        Some(work) => work,
        None => {
            return None;
        },
    };
    let last: u64 = largest_id(&work);
    if (u64::MAX - last) / 3 < plans.len() as u64 {
        return None;
    }
    add_welds(&mut work, plans, last);
    if !fill_reps(&mut work, plans, last) {
        return None;
    }
    let map = find_style_map(plans, last);
    move_roots(&mut work, &map);
    Some(work)
}

/// Joins solids that were cut apart along plane faces.
pub fn recover_partitioned_bodies(
    entities: &mut Vec<EntityInstance>,
    evidence: &WeldEvidence,
) -> (stats: PartitionRecoveryStats)
    ensures
        exists|plans: Seq<WeldView>, candidates: Seq<u64>| #[trigger]
            joins_bodies(
                entities_view(old(entities)@),
                *evidence,
                plans,
                candidates,
                entities_view(final(entities)@),
                stats,
            ),
{
    let ghost views = entities_view(entities@);
    let none = PartitionRecoveryStats {
        components: 0,
        solids_merged: 0,
        interfaces_removed: 0,
        styles_retargeted: 0,
        entities_removed: 0,
    };
    let plans = plan_welds(entities, evidence);
    let ghost plan_views = welds_view(plans@);
    let lists = collect(&plans);
    let candidates = find_candidates(entities, &lists.solids, &lists.styles, Ghost(plan_views));
    if plans.len() == 0 {
        assert(joins_bodies(views, *evidence, plan_views, candidates@, views, none));
        return none;
    }
    let mut work = match weld(entities, evidence, &plans, &lists) {
        Some(work) => work,
        None => {
            assert(joins_bodies(views, *evidence, plan_views, candidates@, views, none));
            return none;
        },
    };
    let ghost done = entities_view(work@);
    let keep: HashSet<u64> = HashSet::new();
    let gone = find_dead(&work, &candidates, &keep);
    assert(keep@ =~= Set::empty());
    assert(gone@ =~= given_up(done, candidates@));
    remove_entities(&mut work, &gone);
    let styles = set_of(&lists.styles);
    let stats = PartitionRecoveryStats {
        components: plans.len(),
        solids_merged: lists.solids.len(),
        interfaces_removed: lists.pairs.len(),
        styles_retargeted: styles.len(),
        entities_removed: gone.len(),
    };
    *entities = work;
    assert(joins_bodies(
        views,
        *evidence,
        plan_views,
        candidates@,
        entities_view(entities@),
        stats,
    ));
    stats
}

} // verus!
