//! What lists of references keep when some are added, left out or replaced.

use vstd::prelude::*;

use crate::ast::{EntityView, ParamView};
use crate::bound_laws::law_kept_items_stay_in_order;
use crate::brep::{list_with, list_without};
use crate::face_coalesce::{ref_param, ref_params};
use crate::graph::{all_are_refs, nth, ref_value, simple_record};
use crate::partition_recovery::moved_refs;
use crate::planar_features::{anchored, missing};

verus! {

/// Whether two entities have the same id, type and parameters, but for one list.
pub open spec fn differ_in_list(
    before: EntityView,
    after: EntityView,
    n: int,
    old: Seq<ParamView>,
    new: Seq<ParamView>,
) -> bool {
    &&& after.id() == before.id()
    &&& simple_record(before) matches Some(first)
    &&& simple_record(after) matches Some(second)
    &&& second.name == first.name
    &&& nth(first, n) == Some(ParamView::List(old))
    &&& nth(second, n) == Some(ParamView::List(new))
    &&& forall|k: int| k != n ==> #[trigger] nth(second, k) == nth(first, k)
}

/// The items of a list that do not refer to one of some ids.
pub open spec fn items_without(items: Seq<ParamView>, remove: Set<u64>) -> Seq<ParamView> {
    items.filter(|p: ParamView| !(ref_value(p) matches Some(id) && remove.contains(id)))
}

/// The ids of a list that no item refers to.
pub open spec fn ids_beside(items: Seq<ParamView>, ids: Seq<u64>) -> Seq<u64> {
    ids.filter(|id: u64| !items.contains(ref_param(id)))
}

/// Leaving references out of a list of an entity keeps the other items of the list in their
/// order, and all else. Where none of them is in the list there is nothing to do.
pub proof fn law_list_loses_only_references(entity: EntityView, n: int, remove: Set<u64>)
    ensures
        list_without(entity, n, remove) matches Some(after) ==> exists|items: Seq<ParamView>|
            #[trigger] differ_in_list(
                entity,
                after,
                n,
                items,
                items_without(items, remove),
            ),
{
    if let Some(after) = list_without(entity, n, remove) {
        let items = nth(simple_record(entity)->Some_0, n)->Some_0->List_0;
        law_kept_items_stay_in_order(items, remove);
        assert(differ_in_list(
            entity,
            after,
            n,
            items,
            items_without(items, remove),
        ));
    }
}

/// Adding references to a list of an entity puts them behind its items, in their order, and
/// keeps all else.
pub proof fn law_list_gains_references_at_its_end(entity: EntityView, n: int, more: Seq<u64>)
    ensures
        list_with(entity, n, more) matches Some(after) ==> exists|items: Seq<ParamView>|
            #[trigger] differ_in_list(entity, after, n, items, items + ref_params(more)),
{
    if let Some(after) = list_with(entity, n, more) {
        let items = nth(simple_record(entity)->Some_0, n)->Some_0->List_0;
        assert(differ_in_list(entity, after, n, items, items + ref_params(more)));
    }
}

proof fn lemma_missing(items: Seq<ParamView>, new: Seq<u64>)
    ensures
        missing(items, new) == ids_beside(items, new),
    decreases new.len(),
{
    reveal(Seq::filter);
    if new.len() > 0 {
        lemma_missing(items, new.drop_last());
    }
}

/// A presentation root that gets new items keeps all that it has, and gets at the end those of
/// the new items that it does not have yet.
pub proof fn law_anchored_root_keeps_its_items(
    entity: EntityView,
    anchors: Set<u64>,
    new: Seq<u64>,
)
    ensures
        anchored(entity, anchors, new) == entity || exists|n: int, items: Seq<ParamView>|
            #[trigger] differ_in_list(
                entity,
                anchored(entity, anchors, new),
                n,
                items,
                items + ref_params(ids_beside(items, new)),
            ),
{
    let after = anchored(entity, anchors, new);
    if after != entity {
        let record = simple_record(entity)->Some_0;
        let n = crate::instances::presented(record.name)->Some_0;
        let items = nth(record, n)->Some_0->List_0;
        lemma_missing(items, new);
        assert(differ_in_list(
            entity,
            after,
            n,
            items,
            items + ref_params(ids_beside(items, new)),
        ));
    }
}

/// What a reference is replaced by.
pub open spec fn image_of(map: Map<u64, u64>, id: u64) -> u64 {
    if map.contains_key(id) {
        map[id]
    } else {
        id
    }
}

/// A list whose references are replaced has what each of them is replaced by, and nothing else,
/// and has it once.
pub proof fn law_replaced_references_are_listed_once(
    items: Seq<ParamView>,
    map: Map<u64, u64>,
    id: u64,
)
    requires
        all_are_refs(items),
    ensures
        moved_refs(items, map).no_duplicates(),
        moved_refs(items, map).contains(ref_param(id)) == exists|i: int|
            0 <= i < items.len() && image_of(map, ref_value(#[trigger] items[i])->Some_0) == id,
    decreases items.len(),
{
    if items.len() > 0 {
        let front = items.drop_last();
        assert forall|i: int| 0 <= i < front.len() implies #[trigger] front[i] == items[i] by {}
        assert(all_are_refs(front));
        law_replaced_references_are_listed_once(front, map, id);
        let rest = moved_refs(front, map);
        let all = moved_refs(items, map);
        let new = ref_param(image_of(map, ref_value(items.last())->Some_0));
        assert(items[items.len() - 1] == items.last());
        if !rest.contains(new) {
            assert(all == rest.push(new));
            assert(all[rest.len() as int] == new);
            assert forall|i: int, j: int|
                0 <= i < all.len() && 0 <= j < all.len() && i != j implies all[i] != all[j] by {
                if i < rest.len() {
                    assert(rest.contains(rest[i]));
                }
                if j < rest.len() {
                    assert(rest.contains(rest[j]));
                }
            }
        }
        assert(all.contains(new));
        if rest.contains(ref_param(id)) {
            let k = choose|k: int| 0 <= k < rest.len() && rest[k] == ref_param(id);
            assert(all[k] == ref_param(id));
            let i = choose|i: int|
                0 <= i < front.len() && image_of(map, ref_value(#[trigger] front[i])->Some_0)
                    == id;
            assert(items[i] == front[i]);
        }
        if all.contains(ref_param(id)) && !rest.contains(ref_param(id)) {
            let k = choose|k: int| 0 <= k < all.len() && all[k] == ref_param(id);
            if k < rest.len() {
                assert(rest[k] == ref_param(id));
            }
            assert(new == ref_param(id));
            assert(image_of(map, ref_value(items[items.len() - 1])->Some_0) == id);
        }
        if exists|i: int|
            0 <= i < items.len() && image_of(map, ref_value(#[trigger] items[i])->Some_0) == id {
            let i = choose|i: int|
                0 <= i < items.len() && image_of(map, ref_value(#[trigger] items[i])->Some_0)
                    == id;
            if i < front.len() {
                assert(front[i] == items[i]);
            }
        }
    }
}

} // verus!
