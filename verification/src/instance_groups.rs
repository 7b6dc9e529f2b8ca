//! Grouping of instances that can form a lattice, and the lattices that they form.

use std::collections::HashMap;
use vstd::prelude::*;

use crate::ast::{entities_view, entity_id, EntityInstance, EntityView};
use crate::face_plan::{
    face_styles, lemma_styles_at, listed, styled, styled_assignments, styles_by_target,
};
use crate::graph::{nth_entity_ref, nth_ref, simple_record, simple_record_of};
use crate::instances::{insert_id, inserted};
use crate::partition_plan::{find_shape_items, shape_items};
use crate::text::same_text;

verus! {

broadcast use vstd::std_specs::hash::group_hash_axioms;

/// Whether a list comes before another, from one place on.
pub open spec fn list_before(a: Seq<u64>, b: Seq<u64>, k: int) -> bool
    decreases a.len() - k,
{
    if k >= a.len() {
        k < b.len()
    } else if k >= b.len() {
        false
    } else if a[k] != b[k] {
        a[k] < b[k]
    } else {
        list_before(a, b, k + 1)
    }
}

/// Whether lists come before others, from one place on.
pub open spec fn lists_before(a: Seq<Seq<u64>>, b: Seq<Seq<u64>>, k: int) -> bool
    decreases a.len() - k,
{
    if k >= a.len() {
        k < b.len()
    } else if k >= b.len() {
        false
    } else if a[k] != b[k] {
        list_before(a[k], b[k], 0)
    } else {
        lists_before(a, b, k + 1)
    }
}

pub open spec fn put_list(sorted: Seq<Seq<u64>>, list: Seq<u64>) -> Seq<Seq<u64>>
    decreases sorted.len(),
{
    if sorted.len() == 0 || !list_before(list, sorted.last(), 0) {
        sorted.push(list)
    } else {
        put_list(sorted.drop_last(), list).push(sorted.last())
    }
}

/// What the styled items at positions assign, in order.
pub open spec fn assignments_at(entities: Seq<EntityView>, at: Seq<u64>) -> Seq<Seq<u64>>
    decreases at.len(),
{
    if at.len() == 0 {
        Seq::empty()
    } else {
        put_list(
            assignments_at(entities, at.drop_last()),
            styled(entities[at.last() as int])->Some_0.1,
        )
    }
}

/// What the styled items of a target assign, in order.
pub open spec fn signature(entities: Seq<EntityView>, target: u64) -> Seq<Seq<u64>> {
    assignments_at(entities, face_styles(entities, target))
}

/// An id once for each time that another occurs in a list.
pub open spec fn once_per(items: Seq<u64>, item: u64, id: u64) -> Seq<u64>
    decreases items.len(),
{
    if items.len() == 0 {
        Seq::empty()
    } else {
        let rest = once_per(items.drop_last(), item, id);
        if items.last() == item {
            rest.push(id)
        } else {
            rest
        }
    }
}

/// The shape representations among the first `n` entities that list an item.
pub open spec fn parents(entities: Seq<EntityView>, item: u64, n: nat) -> Seq<u64>
    decreases n,
{
    if n == 0 {
        Seq::empty()
    } else {
        let before = parents(entities, item, (n - 1) as nat);
        match shape_items(entities[n - 1]) {
            Some(items) => before + once_per(items, item, entities[n - 1].id()),
            None => before,
        }
    }
}

/// What instances must share to form a lattice: the representation that lists them, the shape,
/// the way they are turned, and the styles.
#[verifier::ext_equal]
pub struct GroupKeyView {
    pub parent: u64,
    pub map: u64,
    pub orientation: u64,
    pub styles: Seq<Seq<u64>>,
}

/// Whether a key comes before another.
pub open spec fn key_before(a: GroupKeyView, b: GroupKeyView) -> bool {
    if a.parent != b.parent {
        a.parent < b.parent
    } else if a.map != b.map {
        a.map < b.map
    } else if a.orientation != b.orientation {
        a.orientation < b.orientation
    } else {
        lists_before(a.styles, b.styles, 0)
    }
}

/// The key of an entity that is an instance. How instances are turned was measured: those that
/// are turned in the same way have the same number.
pub open spec fn key_of(
    entities: Seq<EntityView>,
    orientation: Map<u64, u64>,
    entity: EntityView,
) -> Option<GroupKeyView> {
    match simple_record(entity) {
        Some(record) if record.name == "MAPPED_ITEM"@ => match (
            nth_ref(record, 1),
            nth_ref(record, 2),
        ) {
            (Some(map), Some(_)) => {
                let above = parents(entities, entity.id(), entities.len());
                if above.len() == 1 && orientation.contains_key(entity.id()) {
                    Some(
                        GroupKeyView {
                            parent: above[0],
                            map,
                            orientation: orientation[entity.id()],
                            styles: signature(entities, entity.id()),
                        },
                    )
                } else {
                    None
                }
            },
            _ => None,
        },
        _ => None,
    }
}

/// Instances that can form a lattice.
#[verifier::ext_equal]
pub struct GroupView {
    pub key: GroupKeyView,
    pub items: Seq<u64>,
}

/// Groups in order of their keys with one more instance.
pub open spec fn put_instance(groups: Seq<GroupView>, key: GroupKeyView, item: u64) -> Seq<
    GroupView,
>
    decreases groups.len(),
{
    if groups.len() == 0 {
        seq![GroupView { key, items: seq![item] }]
    } else if groups.last().key == key {
        groups.drop_last().push(GroupView { key, items: inserted(groups.last().items, item) })
    } else if !key_before(key, groups.last().key) {
        groups.push(GroupView { key, items: seq![item] })
    } else {
        put_instance(groups.drop_last(), key, item).push(groups.last())
    }
}

/// The groups of the instances among the first `n` entities.
pub open spec fn groups_of(entities: Seq<EntityView>, orientation: Map<u64, u64>, n: nat) -> Seq<
    GroupView,
>
    decreases n,
{
    if n == 0 {
        Seq::empty()
    } else {
        let before = groups_of(entities, orientation, (n - 1) as nat);
        match key_of(entities, orientation, entities[n - 1]) {
            Some(key) => put_instance(before, key, entities[n - 1].id()),
            None => before,
        }
    }
}

/// Instances that can form a lattice.
#[derive(Debug)]
pub struct InstanceGroup {
    pub parent: u64,
    pub map: u64,
    pub orientation: u64,
    pub styles: Vec<Vec<u64>>,
    pub items: Vec<u64>,
}

pub open spec fn lists_view(lists: Seq<Vec<u64>>) -> Seq<Seq<u64>> {
    Seq::new(lists.len(), |i: int| lists[i]@)
}

impl View for InstanceGroup {
    type V = GroupView;

    open spec fn view(&self) -> GroupView {
        GroupView {
            key: GroupKeyView {
                parent: self.parent,
                map: self.map,
                orientation: self.orientation,
                styles: lists_view(self.styles@),
            },
            items: self.items@,
        }
    }
}

pub open spec fn groups_view(groups: Seq<InstanceGroup>) -> Seq<GroupView> {
    Seq::new(groups.len(), |i: int| groups[i]@)
}

fn find_list_before(a: &Vec<u64>, b: &Vec<u64>) -> (out: bool)
    ensures
        out == list_before(a@, b@, 0),
{
    let mut k: usize = 0;
    while k < a.len() && k < b.len() && a[k] == b[k]
        invariant
            k <= a.len(),
            k <= b.len(),
            list_before(a@, b@, 0) == list_before(a@, b@, k as int),
        decreases a.len() - k,
    {
        k = k + 1;
    }
    if k >= a.len() {
        k < b.len()
    } else if k >= b.len() {
        false
    } else {
        a[k] < b[k]
    }
}

fn find_lists_before(a: &Vec<Vec<u64>>, b: &Vec<Vec<u64>>) -> (out: bool)
    ensures
        out == lists_before(lists_view(a@), lists_view(b@), 0),
{
    let ghost first = lists_view(a@);
    let ghost second = lists_view(b@);
    let mut k: usize = 0;
    while k < a.len() && k < b.len() && crate::face_plan::same_ids(&a[k], &b[k])
        invariant
            k <= a.len(),
            k <= b.len(),
            first == lists_view(a@),
            second == lists_view(b@),
            lists_before(first, second, 0) == lists_before(first, second, k as int),
        decreases a.len() - k,
    {
        assert(first[k as int] == a@[k as int]@ && second[k as int] == b@[k as int]@);
        k = k + 1;
    }
    if k >= a.len() {
        k < b.len()
    } else if k >= b.len() {
        false
    } else {
        assert(first[k as int] == a@[k as int]@ && second[k as int] == b@[k as int]@);
        find_list_before(&a[k], &b[k])
    }
}

fn are_same_lists(a: &Vec<Vec<u64>>, b: &Vec<Vec<u64>>) -> (out: bool)
    ensures
        out == (lists_view(a@) == lists_view(b@)),
{
    let ghost first = lists_view(a@);
    let ghost second = lists_view(b@);
    if a.len() != b.len() {
        assert(first.len() != second.len());
        return false;
    }
    let mut k: usize = 0;
    while k < a.len()
        invariant
            k <= a.len(),
            a.len() == b.len(),
            first == lists_view(a@),
            second == lists_view(b@),
            forall|j: int| 0 <= j < k ==> first[j] == second[j],
        decreases a.len() - k,
    {
        assert(first[k as int] == a@[k as int]@ && second[k as int] == b@[k as int]@);
        if !crate::face_plan::same_ids(&a[k], &b[k]) {
            return false;
        }
        k = k + 1;
    }
    assert(first =~= second);
    true
}

proof fn lemma_put_list_at(sorted: Seq<Seq<u64>>, list: Seq<u64>, at: int)
    requires
        0 <= at <= sorted.len(),
        forall|k: int| at <= k < sorted.len() ==> list_before(list, #[trigger] sorted[k], 0),
        at > 0 ==> !list_before(list, sorted[at - 1], 0),
    ensures
        put_list(sorted, list) == sorted.insert(at, list),
    decreases sorted.len(),
{
    if at == sorted.len() {
        assert(sorted.insert(at, list) =~= sorted.push(list));
    } else {
        lemma_put_list_at(sorted.drop_last(), list, at);
        assert(sorted.insert(at, list) =~= sorted.drop_last().insert(at, list).push(sorted.last()));
    }
}

fn insert_list(sorted: &mut Vec<Vec<u64>>, list: Vec<u64>)
    ensures
        lists_view(final(sorted)@) == put_list(lists_view(old(sorted)@), list@),
{
    let ghost views = lists_view(sorted@);
    let ghost added = list@;
    let mut at: usize = sorted.len();
    while at > 0 && find_list_before(&list, &sorted[at - 1])
        invariant
            at <= sorted.len(),
            views == lists_view(sorted@),
            added == list@,
            forall|k: int| at <= k < sorted.len() ==> list_before(added, #[trigger] views[k], 0),
        decreases at,
    {
        assert(views[at - 1] == sorted@[at - 1]@);
        at = at - 1;
    }
    proof {
        if at > 0 {
            assert(views[at - 1] == sorted@[at - 1]@);
        }
        lemma_put_list_at(views, added, at as int);
        assert(lists_view(sorted@.insert(at as int, list)) =~= views.insert(at as int, added));
    }
    sorted.insert(at, list);
}

/// What the styled items of a target assign, in order.
fn find_signature(entities: &Vec<EntityInstance>, table: &HashMap<u64, Vec<u64>>, target: u64) -> (out:
    Vec<Vec<u64>>)
    requires
        forall|t: u64| #[trigger]
            listed(table@, t) == face_styles(entities_view(entities@), t),
    ensures
        lists_view(out@) == signature(entities_view(entities@), target),
{
    let ghost views = entities_view(entities@);
    assert(listed(table@, target) == face_styles(views, target));
    let mut out: Vec<Vec<u64>> = Vec::new();
    assert(lists_view(out@) =~= Seq::empty());
    if let Some(at) = table.get(&target) {
        let n: usize = entities.len();
        let mut i: usize = 0;
        assert(at@.take(0) =~= Seq::empty());
        while i < at.len()
            invariant
                i <= at.len(),
                n == entities.len(),
                views == entities_view(entities@),
                at@ == face_styles(views, target),
                lists_view(out@) == assignments_at(views, at@.take(i as int)),
            decreases at.len() - i,
        {
            proof {
                lemma_styles_at(views, target, views.len(), i as int);
            }
            let place: usize = at[i] as usize;
            assert(views[place as int] == entities@[place as int]@);
            let assignments = styled_assignments(&entities[place]);
            insert_list(&mut out, assignments);
            i = i + 1;
            assert(at@.take(i as int).drop_last() =~= at@.take(i - 1));
        }
        assert(at@.take(at@.len() as int) =~= at@);
    }
    out
}

/// The shape representations that list an item.
fn find_parents(entities: &Vec<EntityInstance>, item: u64) -> (out: Vec<u64>)
    ensures
        out@ == parents(entities_view(entities@), item, entities@.len()),
{
    let ghost views = entities_view(entities@);
    let mut out: Vec<u64> = Vec::new();
    let mut i: usize = 0;
    while i < entities.len()
        invariant
            i <= entities.len(),
            views == entities_view(entities@),
            out@ == parents(views, item, i as nat),
        decreases entities.len() - i,
    {
        assert(views[i as int] == entities@[i as int]@);
        if let Some(items) = find_shape_items(&entities[i]) {
            let id: u64 = entity_id(&entities[i]);
            let ghost before = out@;
            let mut k: usize = 0;
            assert(items@.take(0) =~= Seq::empty());
            assert(before + once_per(items@.take(0), item, id) =~= before);
            while k < items.len()
                invariant
                    k <= items.len(),
                    out@ == before + once_per(items@.take(k as int), item, id),
                decreases items.len() - k,
            {
                assert(items@.take(k + 1).drop_last() =~= items@.take(k as int));
                if items[k] == item {
                    let ghost rest = once_per(items@.take(k as int), item, id);
                    out.push(id);
                    assert((before + rest).push(id) =~= before + rest.push(id));
                }
                k = k + 1;
            }
            assert(items@.take(items@.len() as int) =~= items@);
        }
        i = i + 1;
    }
    out
}

fn is_key_before(a: &InstanceGroup, b: &InstanceGroup) -> (out: bool)
    ensures
        out == key_before(a@.key, b@.key),
{
    if a.parent != b.parent {
        a.parent < b.parent
    } else if a.map != b.map {
        a.map < b.map
    } else if a.orientation != b.orientation {
        a.orientation < b.orientation
    } else {
        find_lists_before(&a.styles, &b.styles)
    }
}

fn have_same_key(a: &InstanceGroup, b: &InstanceGroup) -> (out: bool)
    ensures
        out == (a@.key == b@.key),
{
    let same = are_same_lists(&a.styles, &b.styles);
    a.parent == b.parent && a.map == b.map && a.orientation == b.orientation && same
}

proof fn lemma_put_instance_at(groups: Seq<GroupView>, key: GroupKeyView, item: u64, at: int)
    requires
        0 <= at <= groups.len(),
        forall|k: int|
            at <= k < groups.len() ==> (#[trigger] groups[k]).key != key && key_before(
                key,
                groups[k].key,
            ),
        at > 0 ==> groups[at - 1].key == key || !key_before(key, groups[at - 1].key),
    ensures
        put_instance(groups, key, item) == (if at > 0 && groups[at - 1].key == key {
            groups.update(
                at - 1,
                GroupView { key, items: inserted(groups[at - 1].items, item) },
            )
        } else {
            groups.insert(at, GroupView { key, items: seq![item] })
        }),
    decreases groups.len(),
{
    let same = at > 0 && groups[at - 1].key == key;
    let out = if same {
        groups.update(at - 1, GroupView { key, items: inserted(groups[at - 1].items, item) })
    } else {
        groups.insert(at, GroupView { key, items: seq![item] })
    };
    if at == groups.len() {
        assert(put_instance(groups, key, item) =~= out);
    } else {
        lemma_put_instance_at(groups.drop_last(), key, item, at);
        assert(put_instance(groups, key, item) =~= out);
    }
}

/// Puts an instance, given as a group of its own, in among others.
fn insert_instance(groups: &mut Vec<InstanceGroup>, group: InstanceGroup)
    requires
        group.items@.len() == 1,
    ensures
        groups_view(final(groups)@) == put_instance(
            groups_view(old(groups)@),
            group@.key,
            group@.items[0],
        ),
{
    let ghost views = groups_view(groups@);
    let ghost key = group@.key;
    let item: u64 = group.items[0];
    let mut at: usize = groups.len();
    while at > 0 && !have_same_key(&groups[at - 1], &group) && is_key_before(
        &group,
        &groups[at - 1],
    )
        invariant
            at <= groups.len(),
            views == groups_view(groups@),
            key == group@.key,
            forall|k: int|
                at <= k < groups.len() ==> (#[trigger] views[k]).key != key && key_before(
                    key,
                    views[k].key,
                ),
        decreases at,
    {
        assert(views[at - 1] == groups@[at - 1]@);
        at = at - 1;
    }
    proof {
        if at > 0 {
            assert(views[at - 1] == groups@[at - 1]@);
        }
        lemma_put_instance_at(views, key, item, at as int);
    }
    if at > 0 && have_same_key(&groups[at - 1], &group) {
        let ghost before = groups@;
        let mut own = groups.remove(at - 1);
        insert_id(&mut own.items, item);
        let ghost changed = own@;
        groups.insert(at - 1, own);
        assert(groups_view(groups@) =~= views.update(at - 1, changed)) by {
            assert forall|k: int| 0 <= k < groups@.len() implies groups_view(groups@)[k]
                == views.update(at - 1, changed)[k] by {
                if k != at - 1 {
                    assert(groups@[k] == before[k]);
                }
            }
        }
    } else {
        assert(group@.items =~= seq![item]);
        assert(groups_view(groups@.insert(at as int, group)) =~= views.insert(
            at as int,
            group@,
        ));
        groups.insert(at, group);
    }
}

/// Groups the instances among entities that can form a lattice. An instance whose turn was not
/// measured is left out.
pub fn find_instance_groups(entities: &Vec<EntityInstance>, orientation: &HashMap<u64, u64>) -> (out:
    Vec<InstanceGroup>)
    ensures
        groups_view(out@) == groups_of(
            entities_view(entities@),
            orientation@,
            entities@.len(),
        ),
{
    let ghost views = entities_view(entities@);
    let table = styles_by_target(entities);
    assert(views.len() == entities@.len());
    let mut out: Vec<InstanceGroup> = Vec::new();
    let mut i: usize = 0;
    assert(groups_view(out@) =~= Seq::empty());
    while i < entities.len()
        invariant
            i <= entities.len(),
            views == entities_view(entities@),
            views.len() == entities@.len(),
            forall|t: u64| #[trigger] listed(table@, t) == face_styles(views, t),
            groups_view(out@) == groups_of(views, orientation@, i as nat),
        decreases entities.len() - i,
    {
        assert(views[i as int] == entities@[i as int]@);
        let item: u64 = entity_id(&entities[i]);
        if let Some(record) = simple_record_of(&entities[i]) {
            if same_text(record.name.as_str(), "MAPPED_ITEM") {
                match (nth_entity_ref(record, 1), nth_entity_ref(record, 2)) {
                    (Some(map), Some(_)) => {
                        if let Some(turn) = orientation.get(&item) {
                            let above = find_parents(entities, item);
                            if above.len() == 1 {
                                let group = InstanceGroup {
                                    parent: above[0],
                                    map,
                                    orientation: *turn,
                                    styles: find_signature(entities, &table, item),
                                    items: vec![item],
                                };
                                insert_instance(&mut out, group);
                            }
                        }
                    },
                    _ => {},
                }
            }
        }
        i = i + 1;
    }
    out
}

} // verus!
