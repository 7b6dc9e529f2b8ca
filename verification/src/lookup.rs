//! Finding entities by their ids in lists that have grown or shrunk.

use vstd::prelude::*;

use crate::ast::{EntityView, ParamView};
use crate::face_coalesce::ref_params;
use crate::graph::{
    dead, law_dead_is_unreferenced, lemma_position, nth, nth_ref, position, record_at, ref_list,
    ref_value, refers, simple_record, without,
};
use crate::refs::{list_refs, param_refs, records_refs};

verus! {

/// Whether new entities are numbered from the one behind `last` on.
pub open spec fn numbered_from(added: Seq<EntityView>, last: u64) -> bool {
    &&& last + added.len() <= u64::MAX
    &&& forall|j: int| 0 <= j < added.len() ==> (#[trigger] added[j]).id() == last + 1 + j
}

/// Whether no id of a list is above `last`.
pub open spec fn numbered_upto(base: Seq<EntityView>, last: u64) -> bool {
    forall|i: int| 0 <= i < base.len() ==> (#[trigger] base[i]).id() <= last
}

/// Whether a list finds the same records under the ids that another one knows.
pub open spec fn finds_as(more: Seq<EntityView>, less: Seq<EntityView>) -> bool {
    forall|id: u64|
        record_at(less, id) is Some ==> #[trigger] record_at(more, id) == record_at(less, id)
}

/// The only entity with an id is the one that is found.
pub proof fn lemma_only_position(entities: Seq<EntityView>, i: int)
    requires
        0 <= i < entities.len(),
        forall|j: int|
            0 <= j < entities.len() && j != i ==> (#[trigger] entities[j]).id() != entities[i].id(),
    ensures
        position(entities, entities[i].id()) == Some(i),
        record_at(entities, entities[i].id()) == simple_record(entities[i]),
{
    lemma_position(entities, entities[i].id());
}

/// A new entity is found under its number.
pub proof fn lemma_new_found(added: Seq<EntityView>, last: u64, k: int)
    requires
        numbered_from(added, last),
        0 <= k < added.len(),
    ensures
        record_at(added, (last + 1 + k) as u64) == simple_record(added[k]),
{
    assert(added[k].id() == last + 1 + k);
    assert forall|j: int| 0 <= j < added.len() && j != k implies (#[trigger] added[j]).id()
        != added[k].id() by {}
    lemma_only_position(added, k);
}

/// What is found among new entities is found with more of them behind.
pub proof fn lemma_new_finds_as(less: Seq<EntityView>, more: Seq<EntityView>, last: u64)
    requires
        numbered_from(more, last),
        less.len() <= more.len(),
        forall|j: int| 0 <= j < less.len() ==> #[trigger] less[j] == more[j],
    ensures
        numbered_from(less, last),
        finds_as(more, less),
{
    assert forall|j: int| 0 <= j < less.len() implies (#[trigger] less[j]).id() == last + 1 + j by {
        assert(less[j] == more[j]);
    }
    assert forall|id: u64| record_at(less, id) is Some implies #[trigger] record_at(more, id)
        == record_at(less, id) by {
        lemma_position(less, id);
        let k = position(less, id)->Some_0;
        assert(less[k] == more[k]);
        assert(less[k].id() == last + 1 + k);
        lemma_new_found(less, last, k);
        lemma_new_found(more, last, k);
    }
}

/// What is found in a list is found behind another one that has none of its ids, and what that
/// one knows is found too.
pub proof fn lemma_joined_found(base: Seq<EntityView>, added: Seq<EntityView>, last: u64)
    requires
        numbered_upto(base, last),
        numbered_from(added, last),
    ensures
        finds_as(base + added, added),
        finds_as(base + added, base),
        forall|id: u64| id <= last ==> #[trigger] record_at(base + added, id) == record_at(base, id),
        forall|id: u64|
            id > last ==> #[trigger] record_at(base + added, id) == record_at(added, id),
        forall|id: u64|
            id <= last ==> #[trigger] position(base + added, id) == position(base, id),
{
    let all = base + added;
    assert forall|i: int| 0 <= i < base.len() implies base[i] == all[i] && (
    #[trigger] all[i]).id() <= last by {
        assert(base[i].id() <= last);
    }
    assert forall|j: int| 0 <= j < added.len() implies (#[trigger] added[j]) == all[base.len() + j]
        && all[base.len() + j].id() == last + 1 + j by {}
    assert forall|id: u64|
        (id <= last ==> #[trigger] record_at(all, id) == record_at(base, id) && position(all, id)
            == position(base, id)) && (id > last ==> record_at(all, id) == record_at(
            added,
            id,
        )) by {
        lemma_position(all, id);
        lemma_position(base, id);
        lemma_position(added, id);
        if id <= last {
            if let Some(i) = position(all, id) {
                if i >= base.len() {
                    assert(added[i - base.len()] == all[i]);
                }
                assert(base[i] == all[i]);
                if let Some(j) = position(base, id) {
                    assert(all[j] == base[j]);
                    if i < j {
                        assert(all[j].id() != id);
                    } else if j < i {
                        assert(base[i].id() != id);
                    }
                }
            } else if let Some(j) = position(base, id) {
                assert(all[j] == base[j]);
            }
        } else {
            if let Some(i) = position(all, id) {
                if i < base.len() {
                    assert(all[i] == base[i]);
                }
                let k = i - base.len();
                assert(added[k] == all[i]);
                lemma_new_found(added, last, k);
            } else if let Some(k) = position(added, id) {
                assert(all[base.len() + k] == added[k]);
            }
        }
    }
    assert forall|id: u64| id <= last implies #[trigger] position(all, id) == position(base, id) by {
        assert(record_at(all, id) == record_at(base, id));
    }
    assert forall|id: u64| record_at(added, id) is Some implies #[trigger] record_at(all, id)
        == record_at(added, id) by {
        lemma_position(added, id);
        assert(added[position(added, id)->Some_0].id() > last);
    }
    assert forall|id: u64| record_at(base, id) is Some implies #[trigger] record_at(all, id)
        == record_at(base, id) by {
        lemma_position(base, id);
        assert(base[position(base, id)->Some_0].id() <= last);
    }
}

/// What does not go is found as before, and what goes is not found.
pub proof fn lemma_left_found(entities: Seq<EntityView>, gone: Set<u64>, id: u64)
    ensures
        !gone.contains(id) ==> record_at(without(entities, gone), id) == record_at(entities, id)
            && (position(without(entities, gone), id) is Some) == (position(
            entities,
            id,
        ) is Some),
        gone.contains(id) ==> position(without(entities, gone), id) is None,
    decreases entities.len(),
{
    if entities.len() > 0 {
        let shorter = entities.drop_last();
        let rest = without(shorter, gone);
        lemma_left_found(shorter, gone, id);
        if !gone.contains(entities.last().id()) {
            let all = rest.push(entities.last());
            assert(all.drop_last() =~= rest);
            assert(all.last() == entities.last());
            if entities.last().id() != id {
                lemma_position(rest, id);
                if let Some(i) = position(rest, id) {
                    assert(all[i] == rest[i]);
                }
                lemma_position(shorter, id);
                if let Some(i) = position(shorter, id) {
                    assert(entities[i] == shorter[i]);
                }
            }
        } else if entities.last().id() != id {
            lemma_position(shorter, id);
            if let Some(i) = position(shorter, id) {
                assert(entities[i] == shorter[i]);
            }
        }
    }
}

/// Where every entity keeps its id, and those that are simple keep being so, the same entities
/// are found.
pub proof fn lemma_changed_found(a: Seq<EntityView>, b: Seq<EntityView>, id: u64)
    requires
        a.len() == b.len(),
        forall|i: int| 0 <= i < a.len() ==> (#[trigger] a[i]).id() == b[i].id(),
    ensures
        position(a, id) == position(b, id),
    decreases a.len(),
{
    if a.len() > 0 {
        assert(a[a.len() - 1].id() == b[a.len() - 1].id());
        assert forall|i: int| 0 <= i < a.len() - 1 implies (#[trigger] a.drop_last()[i]).id()
            == b.drop_last()[i].id() by {
            assert(a.drop_last()[i] == a[i]);
            assert(b.drop_last()[i] == b[i]);
        }
        lemma_changed_found(a.drop_last(), b.drop_last(), id);
    }
}

/// A list of references lists what it refers to.
pub proof fn lemma_ref_params(ids: Seq<u64>)
    ensures
        ref_list(ParamView::List(ref_params(ids))) == Some(ids),
{
    let items = ref_params(ids);
    assert forall|i: int| 0 <= i < items.len() implies ref_value(#[trigger] items[i]) == Some(
        ids[i],
    ) by {}
    assert(ref_list(ParamView::List(items))->Some_0 =~= ids);
}

/// A list refers to what its items refer to.
pub proof fn lemma_list_refers(items: Seq<ParamView>, k: int, id: u64)
    requires
        0 <= k < items.len(),
        param_refs(items[k]).contains(id),
    ensures
        list_refs(items).contains(id),
    decreases items.len(),
{
    let front = list_refs(items.drop_last());
    let back = param_refs(items.last());
    if k < items.len() - 1 {
        assert(items.drop_last()[k] == items[k]);
        lemma_list_refers(items.drop_last(), k, id);
        let i = choose|i: int| 0 <= i < front.len() && front[i] == id;
        assert((front + back)[i] == id);
    } else {
        let i = choose|i: int| 0 <= i < back.len() && back[i] == id;
        assert((front + back)[front.len() + i] == id);
    }
}

/// An entity refers to what one of its parameters refers to.
pub proof fn lemma_record_refers(entities: Seq<EntityView>, parent: u64, n: int, child: u64)
    requires
        record_at(entities, parent) matches Some(record) && nth(record, n) is Some && param_refs(
            nth(record, n)->Some_0,
        ).contains(child),
    ensures
        refers(entities, parent, child),
{
    let at = position(entities, parent)->Some_0;
    let record = record_at(entities, parent)->Some_0;
    let items = record.parameter->List_0;
    lemma_list_refers(items, n, child);
    let records = entities[at].records();
    assert(records =~= seq![record]);
    assert(records.drop_last() =~= Seq::empty());
    reveal_with_fuel(records_refs, 2);
    assert(records_refs(records) =~= param_refs(record.parameter));
}

/// Whether nothing goes that is still referred to.
pub open spec fn keeps_targets(entities: Seq<EntityView>, gone: Set<u64>) -> bool {
    forall|parent: u64, child: u64| #[trigger]
        refers(entities, parent, child) && gone.contains(child) ==> gone.contains(parent)
}

/// What an entity that stays refers to by a parameter stays.
pub proof fn lemma_target_stays(
    entities: Seq<EntityView>,
    gone: Set<u64>,
    parent: u64,
    n: int,
    child: u64,
)
    requires
        keeps_targets(entities, gone),
        !gone.contains(parent),
        record_at(entities, parent) matches Some(record) && nth(record, n) is Some && param_refs(
            nth(record, n)->Some_0,
        ).contains(child),
    ensures
        !gone.contains(child),
        record_at(without(entities, gone), child) == record_at(entities, child),
{
    lemma_record_refers(entities, parent, n, child);
    lemma_left_found(entities, gone, child);
}

/// As before, for a parameter that is a reference.
pub proof fn lemma_ref_stays(
    entities: Seq<EntityView>,
    gone: Set<u64>,
    parent: u64,
    n: int,
    child: u64,
)
    requires
        keeps_targets(entities, gone),
        !gone.contains(parent),
        record_at(entities, parent) matches Some(record) && nth_ref(record, n) == Some(child),
    ensures
        !gone.contains(child),
        record_at(without(entities, gone), child) == record_at(entities, child),
{
    let p = nth(record_at(entities, parent)->Some_0, n)->Some_0;
    assert(param_refs(p) =~= seq![child]);
    assert(param_refs(p)[0] == child);
    lemma_target_stays(entities, gone, parent, n, child);
}

/// What is given up is referred to by nothing that stays.
pub proof fn lemma_dead_keeps(entities: Seq<EntityView>, candidates: Seq<u64>, keep: Set<u64>)
    ensures
        keeps_targets(entities, Set::new(|id: u64| dead(entities, candidates, keep, id))),
{
    let gone = Set::new(|id: u64| dead(entities, candidates, keep, id));
    assert forall|parent: u64, child: u64| #[trigger]
        refers(entities, parent, child) && gone.contains(child) implies gone.contains(parent) by {
        law_dead_is_unreferenced(entities, candidates, keep, parent, child);
    }
}

} // verus!
