//! The lattices that instances form.

use vstd::prelude::*;

use crate::ast::EntityView;
use crate::graph::simple_record;
use crate::instance_groups::{
    groups_of, groups_view, key_before, key_of, put_instance, GroupKeyView, GroupView,
    InstanceGroup,
};
use crate::instances::inserted;
use crate::patterns::{InstancePattern, PatternView};

verus! {

/// A lattice that was fitted to instances: for each of them its place, and what the lattice is.
/// Numbers that are no integers are the bit patterns of doubles.
#[derive(Debug)]
pub struct LatticeFit {
    pub dimension: u8,
    pub origin: [u64; 3],
    pub basis: Vec<[u64; 3]>,
    pub pitch: Vec<u64>,
    pub occupancy: Vec<[i64; 2]>,
    pub grid_shape: Vec<usize>,
    pub fill_ratio: u64,
    pub max_residual: u64,
}

/// Whether a place comes behind another, or the same with a larger instance.
pub open spec fn is_farther(a: ([i64; 2], u64), b: ([i64; 2], u64)) -> bool {
    if a.0@[0] != b.0@[0] {
        a.0@[0] > b.0@[0]
    } else if a.0@[1] != b.0@[1] {
        a.0@[1] > b.0@[1]
    } else {
        a.1 > b.1
    }
}

pub open spec fn put_place(sorted: Seq<([i64; 2], u64)>, item: ([i64; 2], u64)) -> Seq<
    ([i64; 2], u64),
>
    decreases sorted.len(),
{
    if sorted.len() == 0 || !is_farther(sorted.last(), item) {
        sorted.push(item)
    } else {
        put_place(sorted.drop_last(), item).push(sorted.last())
    }
}

/// The first `n` instances with their places, in the order of the places.
pub open spec fn placed(items: Seq<u64>, places: Seq<[i64; 2]>, n: nat) -> Seq<([i64; 2], u64)>
    decreases n,
{
    if n == 0 {
        Seq::empty()
    } else {
        put_place(placed(items, places, (n - 1) as nat), (places[n - 1], items[n - 1]))
    }
}

/// The lattice that a group forms.
pub open spec fn pattern_of(group: GroupView, fit: LatticeFit) -> PatternView {
    let order = placed(group.items, fit.occupancy@, group.items.len());
    PatternView {
        parent_representation: group.key.parent,
        representation_map: group.key.map,
        item_ids: Seq::new(order.len(), |i: int| order[i].1),
        style_signature: group.key.styles,
        dimension: fit.dimension,
        origin: fit.origin,
        basis: fit.basis@,
        pitch: fit.pitch@,
        occupancy: Seq::new(order.len(), |i: int| order[i].0),
        grid_shape: fit.grid_shape@,
        fill_ratio: fit.fill_ratio,
        max_residual: fit.max_residual,
    }
}

/// Whether a lattice comes behind another: it has fewer instances, or as many and a larger id
/// of the representation, or of the shape.
pub open spec fn comes_behind(a: PatternView, b: PatternView) -> bool {
    if a.item_ids.len() != b.item_ids.len() {
        a.item_ids.len() < b.item_ids.len()
    } else if a.parent_representation != b.parent_representation {
        a.parent_representation > b.parent_representation
    } else {
        a.representation_map > b.representation_map
    }
}

pub open spec fn put_pattern(sorted: Seq<PatternView>, item: PatternView) -> Seq<PatternView>
    decreases sorted.len(),
{
    if sorted.len() == 0 || !comes_behind(sorted.last(), item) {
        sorted.push(item)
    } else {
        put_pattern(sorted.drop_last(), item).push(sorted.last())
    }
}

/// Whether a group forms a lattice. There must be enough instances, and each has a place.
pub open spec fn forms(
    groups: Seq<GroupView>,
    fits: Seq<Option<LatticeFit>>,
    least: usize,
    i: int,
) -> bool {
    groups[i].items.len() >= least && i < fits.len() && (fits[i] matches Some(fit)
        && fit.occupancy@.len() == groups[i].items.len())
}

/// The lattices that the first `n` groups form, the largest first.
pub open spec fn patterns_of(
    groups: Seq<GroupView>,
    fits: Seq<Option<LatticeFit>>,
    least: usize,
    n: nat,
) -> Seq<PatternView>
    decreases n,
{
    if n == 0 {
        Seq::empty()
    } else {
        let before = patterns_of(groups, fits, least, (n - 1) as nat);
        if forms(groups, fits, least, n - 1) {
            put_pattern(before, pattern_of(groups[n - 1], fits[n - 1]->Some_0))
        } else {
            before
        }
    }
}

pub open spec fn patterns_view(patterns: Seq<InstancePattern>) -> Seq<PatternView> {
    Seq::new(patterns.len(), |i: int| patterns[i]@)
}

fn find_farther(a: &([i64; 2], u64), b: &([i64; 2], u64)) -> (out: bool)
    ensures
        out == is_farther(*a, *b),
{
    if a.0[0] != b.0[0] {
        a.0[0] > b.0[0]
    } else if a.0[1] != b.0[1] {
        a.0[1] > b.0[1]
    } else {
        a.1 > b.1
    }
}

proof fn lemma_put_place_at(sorted: Seq<([i64; 2], u64)>, item: ([i64; 2], u64), at: int)
    requires
        0 <= at <= sorted.len(),
        forall|k: int| at <= k < sorted.len() ==> is_farther(#[trigger] sorted[k], item),
        at > 0 ==> !is_farther(sorted[at - 1], item),
    ensures
        put_place(sorted, item) == sorted.insert(at, item),
    decreases sorted.len(),
{
    if at == sorted.len() {
        assert(sorted.insert(at, item) =~= sorted.push(item));
    } else {
        lemma_put_place_at(sorted.drop_last(), item, at);
        assert(sorted.insert(at, item) =~= sorted.drop_last().insert(at, item).push(sorted.last()));
    }
}

fn find_placed(items: &Vec<u64>, places: &Vec<[i64; 2]>) -> (out: Vec<([i64; 2], u64)>)
    requires
        items@.len() == places@.len(),
    ensures
        out@ == placed(items@, places@, items@.len()),
{
    let mut out: Vec<([i64; 2], u64)> = Vec::new();
    let mut i: usize = 0;
    while i < items.len()
        invariant
            i <= items.len(),
            items@.len() == places@.len(),
            out@ == placed(items@, places@, i as nat),
        decreases items.len() - i,
    {
        let item: ([i64; 2], u64) = (places[i], items[i]);
        let mut at: usize = out.len();
        while at > 0 && find_farther(&out[at - 1], &item)
            invariant
                at <= out.len(),
                forall|k: int| at <= k < out.len() ==> is_farther(#[trigger] out@[k], item),
            decreases at,
        {
            at = at - 1;
        }
        proof {
            lemma_put_place_at(out@, item, at as int);
        }
        out.insert(at, item);
        i = i + 1;
    }
    out
}

fn is_behind(a: &InstancePattern, b: &InstancePattern) -> (out: bool)
    ensures
        out == comes_behind(a@, b@),
{
    if a.item_ids.len() != b.item_ids.len() {
        a.item_ids.len() < b.item_ids.len()
    } else if a.parent_representation != b.parent_representation {
        a.parent_representation > b.parent_representation
    } else {
        a.representation_map > b.representation_map
    }
}

proof fn lemma_put_pattern_at(sorted: Seq<PatternView>, item: PatternView, at: int)
    requires
        0 <= at <= sorted.len(),
        forall|k: int| at <= k < sorted.len() ==> comes_behind(#[trigger] sorted[k], item),
        at > 0 ==> !comes_behind(sorted[at - 1], item),
    ensures
        put_pattern(sorted, item) == sorted.insert(at, item),
    decreases sorted.len(),
{
    if at == sorted.len() {
        assert(sorted.insert(at, item) =~= sorted.push(item));
    } else {
        lemma_put_pattern_at(sorted.drop_last(), item, at);
        assert(sorted.insert(at, item) =~= sorted.drop_last().insert(at, item).push(sorted.last()));
    }
}

fn insert_pattern(sorted: &mut Vec<InstancePattern>, item: InstancePattern)
    ensures
        patterns_view(final(sorted)@) == put_pattern(patterns_view(old(sorted)@), item@),
{
    let ghost views = patterns_view(sorted@);
    let ghost added = item@;
    let mut at: usize = sorted.len();
    while at > 0 && is_behind(&sorted[at - 1], &item)
        invariant
            at <= sorted.len(),
            views == patterns_view(sorted@),
            added == item@,
            forall|k: int| at <= k < sorted.len() ==> comes_behind(#[trigger] views[k], added),
        decreases at,
    {
        assert(views[at - 1] == sorted@[at - 1]@);
        at = at - 1;
    }
    proof {
        if at > 0 {
            assert(views[at - 1] == sorted@[at - 1]@);
        }
        lemma_put_pattern_at(views, added, at as int);
        assert(patterns_view(sorted@.insert(at as int, item)) =~= views.insert(at as int, added));
    }
    sorted.insert(at, item);
}

/// The lattice that a group forms.
fn make_pattern(group: InstanceGroup, fit: LatticeFit) -> (out: InstancePattern)
    requires
        group.items@.len() == fit.occupancy@.len(),
    ensures
        out@ == pattern_of(group@, fit),
{
    let order = find_placed(&group.items, &fit.occupancy);
    let mut item_ids: Vec<u64> = Vec::new();
    let mut occupancy: Vec<[i64; 2]> = Vec::new();
    let mut i: usize = 0;
    while i < order.len()
        invariant
            i <= order.len(),
            item_ids@.len() == i,
            occupancy@.len() == i,
            forall|k: int| 0 <= k < i ==> item_ids@[k] == (#[trigger] order@[k]).1,
            forall|k: int| 0 <= k < i ==> occupancy@[k] == (#[trigger] order@[k]).0,
        decreases order.len() - i,
    {
        item_ids.push(order[i].1);
        occupancy.push(order[i].0);
        i = i + 1;
    }
    let out = InstancePattern {
        parent_representation: group.parent,
        representation_map: group.map,
        item_ids,
        style_signature: group.styles,
        dimension: fit.dimension,
        origin: fit.origin,
        basis: fit.basis,
        pitch: fit.pitch,
        occupancy,
        grid_shape: fit.grid_shape,
        fill_ratio: fit.fill_ratio,
        max_residual: fit.max_residual,
    };
    assert(out@ =~= pattern_of(group@, fit));
    out
}

/// The lattices that groups of instances form, the largest first. For each group, in order,
/// there is the lattice that was fitted to it, or none.
pub fn instance_patterns(groups: Vec<InstanceGroup>, fits: Vec<Option<LatticeFit>>, least: usize) -> (out:
    Vec<InstancePattern>)
    ensures
        patterns_view(out@) == (if least < 2 {
            Seq::empty()
        } else {
            patterns_of(groups_view(groups@), fits@, least, groups@.len())
        }),
{
    let ghost views = groups_view(groups@);
    let ghost all_fits = fits@;
    let mut out: Vec<InstancePattern> = Vec::new();
    assert(patterns_view(out@) =~= Seq::empty());
    if least < 2 {
        return out;
    }
    let mut groups = groups;
    let mut fits = fits;
    let ghost mut n: nat = 0;
    assert(views.skip(0) =~= views);
    assert(all_fits.skip(0) =~= all_fits);
    while groups.len() > 0
        invariant
            n <= views.len(),
            groups_view(groups@) == views.skip(n as int),
            fits@ == (if n <= all_fits.len() {
                all_fits.skip(n as int)
            } else {
                Seq::empty()
            }),
            patterns_view(out@) == patterns_of(views, all_fits, least, n),
        decreases groups.len(),
    {
        let ghost before = groups@;
        let ghost ahead = groups_view(groups@);
        assert(ahead.len() == before.len());
        assert(ahead[0] == before[0]@);
        assert(ahead[0] == views[n as int]);
        let group = groups.remove(0);
        assert forall|k: int| 0 <= k < groups@.len() implies groups_view(groups@)[k] == views.skip(
            n as int + 1,
        )[k] by {
            assert(groups@[k] == before[k + 1]);
            assert(ahead[k + 1] == before[k + 1]@);
        }
        assert(groups_view(groups@) =~= views.skip(n as int + 1));
        let ghost fits_before = fits@;
        let fit: Option<LatticeFit> = if fits.len() > 0 {
            fits.remove(0)
        } else {
            None
        };
        assert(fit == (if n < all_fits.len() {
            all_fits[n as int]
        } else {
            None
        }));
        assert(fits@ =~= (if n + 1 <= all_fits.len() {
            all_fits.skip(n as int + 1)
        } else {
            Seq::empty()
        }));
        if let Some(fit) = fit {
            if group.items.len() >= least && fit.occupancy.len() == group.items.len() {
                assert(forms(views, all_fits, least, n as int));
                let pattern = make_pattern(group, fit);
                insert_pattern(&mut out, pattern);
            }
        }
        proof {
            n = n + 1;
        }
    }
    out
}

/// Whether no lattice has more instances than an earlier one.
pub open spec fn largest_first(patterns: Seq<PatternView>) -> bool {
    forall|i: int, j: int|
        0 <= i < j < patterns.len() ==> (#[trigger] patterns[i]).item_ids.len() >= (
        #[trigger] patterns[j]).item_ids.len()
}

proof fn lemma_put_keeps_order(sorted: Seq<PatternView>, item: PatternView)
    requires
        largest_first(sorted),
    ensures
        largest_first(put_pattern(sorted, item)),
        forall|i: int|
            0 <= i < put_pattern(sorted, item).len() ==> (#[trigger] put_pattern(
                sorted,
                item,
            )[i]).item_ids.len() >= item.item_ids.len() || exists|k: int|
                0 <= k < sorted.len() && put_pattern(sorted, item)[i] == #[trigger] sorted[k],
    decreases sorted.len(),
{
    let all = put_pattern(sorted, item);
    if sorted.len() == 0 || !comes_behind(sorted.last(), item) {
        assert forall|i: int, j: int| 0 <= i < j < all.len() implies (
        #[trigger] all[i]).item_ids.len() >= (#[trigger] all[j]).item_ids.len() by {
            if j == sorted.len() {
                assert(sorted[i].item_ids.len() >= sorted.last().item_ids.len()) by {
                    if i < sorted.len() - 1 {
                        assert(sorted[i].item_ids.len() >= sorted[sorted.len() - 1].item_ids.len());
                    }
                }
            }
        }
        assert forall|i: int| 0 <= i < all.len() implies (
        #[trigger] all[i]).item_ids.len() >= item.item_ids.len() || exists|k: int|
            0 <= k < sorted.len() && all[i] == #[trigger] sorted[k] by {
            if i < sorted.len() {
                assert(all[i] == sorted[i]);
            }
        }
    } else {
        let front = sorted.drop_last();
        lemma_put_keeps_order(front, item);
        let rest = put_pattern(front, item);
        assert forall|i: int, j: int| 0 <= i < j < all.len() implies (
        #[trigger] all[i]).item_ids.len() >= (#[trigger] all[j]).item_ids.len() by {
            if j == rest.len() {
                assert(all[i] == rest[i]);
                if rest[i].item_ids.len() < item.item_ids.len() {
                    let k = choose|k: int| 0 <= k < front.len() && rest[i] == #[trigger] front[k];
                    assert(sorted[k].item_ids.len() >= sorted[sorted.len() - 1].item_ids.len());
                }
            } else {
                assert(all[i] == rest[i] && all[j] == rest[j]);
            }
        }
        assert forall|i: int| 0 <= i < all.len() implies (
        #[trigger] all[i]).item_ids.len() >= item.item_ids.len() || exists|k: int|
            0 <= k < sorted.len() && all[i] == #[trigger] sorted[k] by {
            if i < rest.len() {
                assert(all[i] == rest[i]);
                if rest[i].item_ids.len() < item.item_ids.len() {
                    let k = choose|k: int| 0 <= k < front.len() && rest[i] == #[trigger] front[k];
                    assert(all[i] == sorted[k]);
                }
            } else {
                assert(all[i] == sorted[sorted.len() - 1]);
            }
        }
    }
}

/// No lattice has more instances than one that comes before it.
pub proof fn law_largest_lattices_first(
    groups: Seq<GroupView>,
    fits: Seq<Option<LatticeFit>>,
    least: usize,
    n: nat,
)
    requires
        n <= groups.len(),
    ensures
        largest_first(patterns_of(groups, fits, least, n)),
    decreases n,
{
    if n > 0 {
        law_largest_lattices_first(groups, fits, least, (n - 1) as nat);
        if forms(groups, fits, least, n - 1) {
            lemma_put_keeps_order(
                patterns_of(groups, fits, least, (n - 1) as nat),
                pattern_of(groups[n - 1], fits[n - 1]->Some_0),
            );
        }
    }
}

/// Whether an id is that of an instance.
pub open spec fn is_instance(entities: Seq<EntityView>, id: u64) -> bool {
    exists|i: int|
        0 <= i < entities.len() && (#[trigger] entities[i]).id() == id && (simple_record(
            entities[i],
        ) matches Some(record) && record.name == "MAPPED_ITEM"@)
}

/// Whether all of some ids are those of instances.
pub open spec fn are_instances(entities: Seq<EntityView>, ids: Seq<u64>) -> bool {
    forall|i: int| 0 <= i < ids.len() ==> is_instance(entities, #[trigger] ids[i])
}

pub open spec fn group_instances(entities: Seq<EntityView>, groups: Seq<GroupView>) -> bool {
    forall|i: int| 0 <= i < groups.len() ==> are_instances(entities, (#[trigger] groups[i]).items)
}

pub open spec fn pattern_instances(entities: Seq<EntityView>, patterns: Seq<PatternView>) -> bool {
    forall|i: int|
        0 <= i < patterns.len() ==> are_instances(entities, (#[trigger] patterns[i]).item_ids)
}

proof fn lemma_inserted_instances(entities: Seq<EntityView>, sorted: Seq<u64>, id: u64)
    requires
        are_instances(entities, sorted),
        is_instance(entities, id),
    ensures
        are_instances(entities, inserted(sorted, id)),
    decreases sorted.len(),
{
    if sorted.len() > 0 && sorted.last() > id {
        let front = sorted.drop_last();
        assert forall|i: int| 0 <= i < front.len() implies is_instance(
            entities,
            #[trigger] front[i],
        ) by {
            assert(front[i] == sorted[i]);
        }
        lemma_inserted_instances(entities, front, id);
        assert(is_instance(entities, sorted[sorted.len() - 1]));
    }
}

proof fn lemma_put_instance(
    entities: Seq<EntityView>,
    groups: Seq<GroupView>,
    key: GroupKeyView,
    item: u64,
)
    requires
        group_instances(entities, groups),
        is_instance(entities, item),
    ensures
        group_instances(entities, put_instance(groups, key, item)),
    decreases groups.len(),
{
    if groups.len() > 0 {
        let front = groups.drop_last();
        let last = groups.last();
        assert(last == groups[groups.len() - 1]);
        assert forall|i: int| 0 <= i < front.len() implies are_instances(
            entities,
            (#[trigger] front[i]).items,
        ) by {
            assert(front[i] == groups[i]);
        }
        if last.key == key {
            lemma_inserted_instances(entities, last.items, item);
        } else if key_before(key, last.key) {
            lemma_put_instance(entities, front, key, item);
        }
    }
}

proof fn lemma_groups_of_instances(
    entities: Seq<EntityView>,
    orientation: Map<u64, u64>,
    n: nat,
)
    requires
        n <= entities.len(),
    ensures
        group_instances(entities, groups_of(entities, orientation, n)),
    decreases n,
{
    if n > 0 {
        lemma_groups_of_instances(entities, orientation, (n - 1) as nat);
        if let Some(key) = key_of(entities, orientation, entities[n - 1]) {
            assert(is_instance(entities, entities[n - 1].id()));
            lemma_put_instance(
                entities,
                groups_of(entities, orientation, (n - 1) as nat),
                key,
                entities[n - 1].id(),
            );
        }
    }
}

proof fn lemma_put_placed(
    entities: Seq<EntityView>,
    sorted: Seq<([i64; 2], u64)>,
    item: ([i64; 2], u64),
)
    requires
        forall|i: int| 0 <= i < sorted.len() ==> is_instance(entities, (#[trigger] sorted[i]).1),
        is_instance(entities, item.1),
    ensures
        forall|i: int|
            0 <= i < put_place(sorted, item).len() ==> is_instance(
                entities,
                (#[trigger] put_place(sorted, item)[i]).1,
            ),
    decreases sorted.len(),
{
    if sorted.len() > 0 && is_farther(sorted.last(), item) {
        let front = sorted.drop_last();
        assert forall|i: int| 0 <= i < front.len() implies is_instance(
            entities,
            (#[trigger] front[i]).1,
        ) by {
            assert(front[i] == sorted[i]);
        }
        lemma_put_placed(entities, front, item);
        assert(is_instance(entities, sorted[sorted.len() - 1].1));
        let rest = put_place(front, item);
        let all = put_place(sorted, item);
        assert(all == rest.push(sorted.last()));
        assert forall|i: int| 0 <= i < all.len() implies is_instance(
            entities,
            (#[trigger] all[i]).1,
        ) by {
            if i < rest.len() {
                assert(all[i] == rest[i]);
            }
        }
    } else {
        assert forall|i: int| 0 <= i < sorted.len() + 1 implies is_instance(
            entities,
            (#[trigger] sorted.push(item)[i]).1,
        ) by {
            if i < sorted.len() {
                assert(sorted.push(item)[i] == sorted[i]);
            }
        }
    }
}

proof fn lemma_placed_instances(
    entities: Seq<EntityView>,
    items: Seq<u64>,
    places: Seq<[i64; 2]>,
    n: nat,
)
    requires
        n <= items.len(),
        are_instances(entities, items),
    ensures
        forall|i: int|
            0 <= i < placed(items, places, n).len() ==> is_instance(
                entities,
                (#[trigger] placed(items, places, n)[i]).1,
            ),
    decreases n,
{
    if n > 0 {
        lemma_placed_instances(entities, items, places, (n - 1) as nat);
        assert(is_instance(entities, items[n - 1]));
        lemma_put_placed(
            entities,
            placed(items, places, (n - 1) as nat),
            (places[n - 1], items[n - 1]),
        );
    }
}

proof fn lemma_put_pattern_instances(
    entities: Seq<EntityView>,
    sorted: Seq<PatternView>,
    item: PatternView,
)
    requires
        pattern_instances(entities, sorted),
        are_instances(entities, item.item_ids),
    ensures
        pattern_instances(entities, put_pattern(sorted, item)),
    decreases sorted.len(),
{
    if sorted.len() > 0 && comes_behind(sorted.last(), item) {
        let front = sorted.drop_last();
        assert forall|i: int| 0 <= i < front.len() implies are_instances(
            entities,
            (#[trigger] front[i]).item_ids,
        ) by {
            assert(front[i] == sorted[i]);
        }
        lemma_put_pattern_instances(entities, front, item);
        assert(are_instances(entities, sorted[sorted.len() - 1].item_ids));
    }
}

/// The items of the lattices that are found among entities are instances of these entities.
pub proof fn law_lattices_name_instances(
    entities: Seq<EntityView>,
    orientation: Map<u64, u64>,
    fits: Seq<Option<LatticeFit>>,
    least: usize,
    n: nat,
)
    requires
        n <= groups_of(entities, orientation, entities.len()).len(),
    ensures
        pattern_instances(
            entities,
            patterns_of(groups_of(entities, orientation, entities.len()), fits, least, n),
        ),
    decreases n,
{
    let groups = groups_of(entities, orientation, entities.len());
    if n > 0 {
        law_lattices_name_instances(entities, orientation, fits, least, (n - 1) as nat);
        if forms(groups, fits, least, n - 1) {
            let group = groups[n - 1];
            let fit = fits[n - 1]->Some_0;
            lemma_groups_of_instances(entities, orientation, entities.len());
            assert(are_instances(entities, group.items));
            lemma_placed_instances(entities, group.items, fit.occupancy@, group.items.len());
            let order = placed(group.items, fit.occupancy@, group.items.len());
            let pattern = pattern_of(group, fit);
            assert forall|i: int| 0 <= i < pattern.item_ids.len() implies is_instance(
                entities,
                #[trigger] pattern.item_ids[i],
            ) by {
                assert(pattern.item_ids[i] == order[i].1);
            }
            lemma_put_pattern_instances(
                entities,
                patterns_of(groups, fits, least, (n - 1) as nat),
                pattern,
            );
        }
    }
}

} // verus!
