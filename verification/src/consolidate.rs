//! Merging of presentation roots.
//!
//! Exporters often write one presentation representation or layer assignment per styled item.
//! Those that nothing refers to and that agree in everything but their items become one.

use std::collections::HashSet;
use vstd::prelude::*;

use crate::ast::{
    clone_params, entities_view, lemma_list_view, params_view, EntityInstance, EntityView,
    ParamView, Parameter, Record, RecordView,
};
use crate::counts::{counted, TypeCounts};
use crate::keys::KeyIndex;
use crate::refs::{all_refs, referenced_ids};
use crate::text::same_text;
use crate::write::{param_text, write_param};

verus! {

broadcast use vstd::std_specs::hash::group_hash_axioms;

/// Which parameter of a presentation root holds its items.
pub open spec fn items_at(name: Seq<char>) -> Option<int> {
    if name == "MECHANICAL_DESIGN_GEOMETRIC_PRESENTATION_REPRESENTATION"@ {
        Some(1)
    } else if name == "PRESENTATION_LAYER_ASSIGNMENT"@ {
        Some(2)
    } else {
        None
    }
}

/// Whether an entity is a presentation root: of one of the two types, with three parameters
/// of which the items are a list.
pub open spec fn is_root(entity: EntityView) -> bool {
    &&& entity matches EntityView::Simple { record, .. }
    &&& items_at(record.name) matches Some(at)
    &&& record.parameter matches ParamView::List(params)
    &&& params.len() == 3
    &&& params[at] is List
}

/// What two roots must have in common to be merged: the type and the other two parameters.
pub open spec fn root_key(entity: EntityView) -> Seq<char> {
    let record = entity->record;
    let params = record.parameter->List_0;
    if items_at(record.name) == Some(1int) {
        "MDGPR|"@ + param_text(params[0]) + seq!['|'] + param_text(params[2])
    } else {
        "PLA|"@ + param_text(params[0]) + seq!['|'] + param_text(params[1])
    }
}

pub open spec fn root_items(entity: EntityView) -> Seq<ParamView> {
    let record = entity->record;
    record.parameter->List_0[items_at(record.name)->Some_0]->List_0
}

/// A root with more items.
pub open spec fn with_items(entity: EntityView, items: Seq<ParamView>) -> EntityView {
    let record = entity->record;
    let at = items_at(record.name)->Some_0;
    EntityView::Simple {
        id: entity.id(),
        record: RecordView {
            name: record.name,
            parameter: ParamView::List(
                record.parameter->List_0.update(at, ParamView::List(root_items(entity) + items)),
            ),
        },
    }
}

/// A root that no entity refers to.
pub open spec fn free_root(entities: Seq<EntityView>, i: int) -> bool {
    is_root(entities[i]) && !all_refs(entities).contains(entities[i].id())
}

/// The first of the first `n` entities that is a free root with the given key.
pub open spec fn first_root(entities: Seq<EntityView>, key: Seq<char>, n: nat) -> Option<int>
    decreases n,
{
    if n == 0 {
        None
    } else {
        match first_root(entities, key, (n - 1) as nat) {
            Some(i) => Some(i),
            None => if free_root(entities, n - 1) && root_key(entities[n - 1]) == key {
                Some(n - 1)
            } else {
                None
            },
        }
    }
}

/// The free root that entity `i` is merged into, if it is a free root and not the first.
pub open spec fn merged_into(entities: Seq<EntityView>, i: int) -> Option<int> {
    if free_root(entities, i) {
        first_root(entities, root_key(entities[i]), i as nat)
    } else {
        None
    }
}

/// The items that entity `i` takes over from the first `n` entities.
pub open spec fn taken_over(entities: Seq<EntityView>, i: int, n: nat) -> Seq<ParamView>
    decreases n,
{
    if n == 0 {
        Seq::empty()
    } else {
        let rest = taken_over(entities, i, (n - 1) as nat);
        if merged_into(entities, n - 1) == Some(i) {
            rest + root_items(entities[n - 1])
        } else {
            rest
        }
    }
}

/// What the first `n` entities become.
pub open spec fn consolidated_upto(entities: Seq<EntityView>, n: nat) -> Seq<EntityView>
    decreases n,
{
    if n == 0 {
        Seq::empty()
    } else {
        let rest = consolidated_upto(entities, (n - 1) as nat);
        if merged_into(entities, n - 1) is Some {
            rest
        } else if free_root(entities, n - 1) {
            rest.push(
                with_items(entities[n - 1], taken_over(entities, n - 1, entities.len())),
            )
        } else {
            rest.push(entities[n - 1])
        }
    }
}

/// The entities with the free presentation roots merged.
pub open spec fn consolidated(entities: Seq<EntityView>) -> Seq<EntityView> {
    consolidated_upto(entities, entities.len())
}

/// How many roots of each type have been merged into another one.
pub open spec fn consolidated_counts(entities: Seq<EntityView>, n: nat) -> Map<Seq<char>, usize>
    decreases n,
{
    if n == 0 {
        Map::empty()
    } else {
        let rest = consolidated_counts(entities, (n - 1) as nat);
        if merged_into(entities, n - 1) is Some {
            counted(rest, entities[n - 1]->record.name, 1)
        } else {
            rest
        }
    }
}

/// What a consolidation pass has merged.
pub struct ConsolidateStats {
    pub total: usize,
    pub by_type: TypeCounts,
}

fn items_position(name: &str) -> (out: Option<usize>)
    ensures
        out is Some == items_at(name@) is Some,
        out is Some ==> out->Some_0 == items_at(name@)->Some_0,
{
    if same_text(name, "MECHANICAL_DESIGN_GEOMETRIC_PRESENTATION_REPRESENTATION") {
        Some(1)
    } else if same_text(name, "PRESENTATION_LAYER_ASSIGNMENT") {
        Some(2)
    } else {
        None
    }
}

/// The key and the items of a presentation root.
fn read_root(entity: &EntityInstance) -> (out: Option<(String, Vec<Parameter>)>)
    ensures
        out is Some == is_root(entity@),
        out matches Some(root) ==> root.0@ == root_key(entity@) && params_view(root.1@)
            == root_items(entity@),
{
    match entity {
        EntityInstance::Complex { .. } => None,
        EntityInstance::Simple { record, .. } => match items_position(record.name.as_str()) {
            None => None,
            Some(at) => match &record.parameter {
                Parameter::List(params) => {
                    proof {
                        lemma_list_view(*params);
                    }
                    if params.len() != 3 {
                        return None;
                    }
                    match &params[at] {
                        Parameter::List(items) => {
                            proof {
                                lemma_list_view(*items);
                            }
                            let mut key = String::new();
                            if at == 1 {
                                key.append("MDGPR|");
                                write_param(&params[0], &mut key);
                                key.push('|');
                                write_param(&params[2], &mut key);
                            } else {
                                key.append("PLA|");
                                write_param(&params[0], &mut key);
                                key.push('|');
                                write_param(&params[1], &mut key);
                            }
                            assert(key@ =~= root_key(entity@));
                            assert(params_view(items@) =~= root_items(entity@));
                            Some((key, clone_params(items)))
                        },
                        _ => None,
                    }
                },
                _ => None,
            },
        },
    }
}

/// A copy of a presentation root with more items.
fn extend_root(entity: &EntityInstance, more: &Vec<Parameter>) -> (out: EntityInstance)
    requires
        is_root(entity@),
    ensures
        out@ == with_items(entity@, params_view(more@)),
{
    if let EntityInstance::Simple { id, record } = entity {
        if let Some(at) = items_position(record.name.as_str()) {
            if let Parameter::List(params) = &record.parameter {
                proof {
                    lemma_list_view(*params);
                }
                if let Parameter::List(items) = &params[at] {
                    proof {
                        lemma_list_view(*items);
                    }
                    let mut list = clone_params(items);
                    let ghost start = list@;
                    let mut k: usize = 0;
                    while k < more.len()
                        invariant
                            k <= more.len(),
                            list.len() == start.len() + k,
                            forall|j: int| 0 <= j < start.len() ==> #[trigger] list@[j] == start[j],
                            forall|j: int|
                                0 <= j < k ==> (#[trigger] list@[start.len() + j])@ == more@[j]@,
                        decreases more.len() - k,
                    {
                        list.push(more[k].clone());
                        k = k + 1;
                    }
                    let mut copy = clone_params(params);
                    let ghost before = copy@;
                    proof {
                        assert forall|j: int| 0 <= j < list@.len() implies params_view(list@)[j]
                            == (params_view(items@) + params_view(more@))[j] by {
                            if j < start.len() {
                                assert(params_view(start)[j] == params_view(items@)[j]);
                            } else {
                                assert(list@[start.len() + (j - start.len())]@ == more@[j
                                    - start.len()]@);
                            }
                        }
                        assert(params_view(start).len() == params_view(items@).len());
                        assert(params_view(list@) =~= params_view(items@) + params_view(more@));
                        lemma_list_view(list);
                    }
                    let ghost listed = Parameter::List(list)@;
                    copy.set(at, Parameter::List(list));
                    proof {
                        lemma_list_view(copy);
                        assert(params_view(before).len() == params_view(params@).len());
                        assert forall|j: int| 0 <= j < copy@.len() implies params_view(copy@)[j]
                            == params_view(params@).update(at as int, listed)[j] by {
                            if j != at {
                                assert(params_view(before)[j] == params_view(params@)[j]);
                            }
                        }
                        assert(params_view(copy@) =~= params_view(params@).update(
                            at as int,
                            listed,
                        ));
                        assert(root_items(entity@) == params_view(items@));
                    }
                    return EntityInstance::Simple {
                        id: *id,
                        record: Record {
                            name: record.name.clone(),
                            parameter: Parameter::List(copy),
                        },
                    };
                }
            }
        }
    }
    entity.clone()
}

pub proof fn lemma_first_root(entities: Seq<EntityView>, key: Seq<char>, n: nat)
    ensures
        first_root(entities, key, n) matches Some(i) ==> 0 <= i < n && free_root(entities, i)
            && root_key(entities[i]) == key,
    decreases n,
{
    if n > 0 {
        lemma_first_root(entities, key, (n - 1) as nat);
    }
}

/// Merges the presentation roots that nothing refers to.
pub fn consolidate_presentation(entities: &mut Vec<EntityInstance>) -> (stats: ConsolidateStats)
    ensures
        entities_view(final(entities)@) == consolidated(entities_view(old(entities)@)),
        stats.total == old(entities)@.len() - final(entities)@.len(),
        stats.by_type.wf(),
        stats.by_type@ == consolidated_counts(
            entities_view(old(entities)@),
            old(entities)@.len(),
        ),
{
    let ghost views = entities_view(entities@);
    let referenced: HashSet<u64> = referenced_ids(entities);
    let mut groups = KeyIndex::new();
    let mut additions: Vec<Vec<Parameter>> = Vec::new();
    let mut removed: Vec<bool> = Vec::new();
    let mut by_type = TypeCounts::new();
    let mut i: usize = 0;
    while i < entities.len()
        invariant
            i <= entities.len(),
            additions.len() == i,
            removed.len() == i,
            views == entities_view(entities@),
            *entities == *old(entities),
            forall|id: u64| #[trigger] referenced@.contains(id) == all_refs(views).contains(id),
            groups.wf(),
            forall|key: Seq<char>| #[trigger]
                groups@.contains_key(key) == (first_root(views, key, i as nat) is Some),
            forall|key: Seq<char>| #[trigger]
                groups@.contains_key(key) ==> groups@[key] == first_root(
                    views,
                    key,
                    i as nat,
                )->Some_0,
            forall|j: int|
                0 <= j < i ==> params_view((#[trigger] additions@[j])@) == taken_over(
                    views,
                    j,
                    i as nat,
                ),
            forall|j: int|
                0 <= j < i ==> #[trigger] removed@[j] == (merged_into(views, j) is Some),
            by_type.wf(),
            by_type@ == consolidated_counts(views, i as nat),
        decreases entities.len() - i,
    {
        let entity = &entities[i];
        assert(views[i as int] == entity@);
        let id: u64 = crate::ast::entity_id(entity);
        let mut gone = false;
        let ghost before = additions@;
        let ghost mut target: Option<int> = None;
        if !referenced.contains(&id) {
            if let Some((key, items)) = read_root(entity) {
                assert(free_root(views, i as int));
                match groups.get(&key) {
                    Some(first) => {
                        proof {
                            lemma_first_root(views, key@, i as nat);
                            target = Some(first as int);
                        }
                        let into: usize = first as usize;
                        let mut list = clone_params(&additions[into]);
                        let ghost start = list@;
                        let mut k: usize = 0;
                        while k < items.len()
                            invariant
                                k <= items.len(),
                                list.len() == start.len() + k,
                                forall|j: int|
                                    0 <= j < start.len() ==> #[trigger] list@[j] == start[j],
                                forall|j: int|
                                    0 <= j < k ==> (#[trigger] list@[start.len() + j])@
                                        == items@[j]@,
                            decreases items.len() - k,
                        {
                            list.push(items[k].clone());
                            k = k + 1;
                        }
                        proof {
                            assert forall|j: int| 0 <= j < list@.len() implies params_view(
                                list@,
                            )[j] == (params_view(start) + params_view(items@))[j] by {
                                if j >= start.len() {
                                    assert(list@[start.len() + (j - start.len())]@ == items@[j
                                        - start.len()]@);
                                }
                            }
                            assert(params_view(list@) =~= params_view(start) + params_view(
                                items@,
                            ));
                        }
                        additions.set(into, list);
                        gone = true;
                        if let EntityInstance::Simple { record, .. } = entity {
                            by_type.count(record.name.clone(), 1);
                        }
                    },
                    None => {
                        groups.insert(key, i as u64);
                    },
                }
            }
        }
        let empty: Vec<Parameter> = Vec::new();
        additions.push(empty);
        removed.push(gone);
        proof {
            assert(merged_into(views, i as int) == target);
            assert forall|j: int| 0 <= j < i + 1 implies params_view((#[trigger] additions@[j])@)
                == taken_over(views, j, (i + 1) as nat) by {
                if j == i {
                    lemma_nothing_before(views, i as int, i as nat);
                    assert(params_view(additions@[j]@) =~= Seq::empty());
                    if target is Some {
                        lemma_first_root(views, root_key(views[i as int]), i as nat);
                    }
                } else if target == Some(j) {
                    assert(params_view(additions@[j]@) =~= taken_over(views, j, i as nat)
                        + root_items(views[i as int]));
                } else {
                    assert(additions@[j] == before[j]);
                }
            }
        }
        i = i + 1;
    }
    let mut kept: Vec<EntityInstance> = Vec::new();
    let mut k: usize = 0;
    assert(entities_view(kept@) =~= Seq::empty());
    while k < entities.len()
        invariant
            k <= entities.len(),
            additions.len() == entities.len(),
            removed.len() == entities.len(),
            views == entities_view(entities@),
            *entities == *old(entities),
            forall|id: u64| #[trigger] referenced@.contains(id) == all_refs(views).contains(id),
            forall|j: int|
                0 <= j < entities.len() ==> params_view((#[trigger] additions@[j])@) == taken_over(
                    views,
                    j,
                    views.len(),
                ),
            forall|j: int|
                0 <= j < entities.len() ==> #[trigger] removed@[j] == (merged_into(
                    views,
                    j,
                ) is Some),
            kept.len() <= k,
            entities_view(kept@) == consolidated_upto(views, k as nat),
        decreases entities.len() - k,
    {
        let entity = &entities[k];
        assert(views[k as int] == entity@);
        let id: u64 = crate::ast::entity_id(entity);
        let ghost old_kept = kept@;
        if !removed[k] {
            if !referenced.contains(&id) && read_root(entity).is_some() {
                kept.push(extend_root(entity, &additions[k]));
            } else {
                kept.push(entity.clone());
            }
            assert(entities_view(kept@) =~= entities_view(old_kept).push(kept@.last()@));
        }
        k = k + 1;
    }
    let total: usize = entities.len() - kept.len();
    *entities = kept;
    ConsolidateStats { total, by_type }
}

pub proof fn lemma_nothing_before(entities: Seq<EntityView>, i: int, n: nat)
    requires
        n <= i,
    ensures
        taken_over(entities, i, n) == Seq::<ParamView>::empty(),
    decreases n,
{
    if n > 0 {
        lemma_nothing_before(entities, i, (n - 1) as nat);
        lemma_first_root(entities, root_key(entities[n - 1]), (n - 1) as nat);
    }
}

/// Presentation roots are merged only where nothing refers to either of them and they agree in
/// everything but their items.
pub proof fn law_merged_roots_are_free(entities: Seq<EntityView>, i: int)
    requires
        0 <= i < entities.len(),
        merged_into(entities, i) is Some,
    ensures
        ({
            let j = merged_into(entities, i)->Some_0;
            &&& 0 <= j < i
            &&& free_root(entities, i)
            &&& free_root(entities, j)
            &&& root_key(entities[i]) == root_key(entities[j])
        }),
{
    lemma_first_root(entities, root_key(entities[i]), i as nat);
}

} // verus!
