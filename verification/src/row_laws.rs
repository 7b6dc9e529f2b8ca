//! What resizing a row of instances keeps.

use vstd::prelude::*;

use crate::ast::{EntityView, ParamView, RecordView};
use crate::face_coalesce::{lemma_max_id, ref_param, ref_params};
use crate::graph::{
    lemma_position, max_id, nth, nth_ref, nth_ref_list, position, record_at, ref_value,
    simple_record, without,
};
use crate::instance_laws::{has_triple, lemma_no_roots};
use crate::lookup::{
    finds_as, keeps_targets, lemma_changed_found, lemma_dead_keeps, lemma_joined_found,
    lemma_left_found, lemma_list_refers, lemma_new_finds_as, lemma_new_found, lemma_ref_stays,
    lemma_target_stays, numbered_from, numbered_upto,
};
use crate::partition_recovery::meets;
use crate::pattern_resize::{
    anchored_fault, built, given_up, is_row_resized, item_target, moved_item, resized, respliced,
    restyled_root, restyled_roots, row_of, row_resized, shift_of, spliced, with_site, HalfSteps,
    RowView, SiteView,
};
use crate::patterns::{InstancePattern, PatternAnchor, PatternResizeStats};
use crate::placements::fresh;

verus! {

/// Whether an instance of a map stands on a placement at a point, with an axis and a reference
/// direction.
pub open spec fn stands_on(
    entities: Seq<EntityView>,
    item: u64,
    map: u64,
    site: SiteView,
    axis: ParamView,
    direction: ParamView,
) -> bool {
    &&& record_at(entities, item) matches Some(record)
    &&& record.name == "MAPPED_ITEM"@
    &&& nth_ref(record, 1) == Some(map)
    &&& nth_ref(record, 2) matches Some(placement)
    &&& record_at(entities, placement) matches Some(frame)
    &&& frame.name == "AXIS2_PLACEMENT_3D"@
    &&& nth_ref(frame, 1) matches Some(point)
    &&& has_triple(entities, point, "CARTESIAN_POINT"@, site.x, site.y, site.z)
    &&& nth(frame, 2) == Some(axis)
    &&& nth(frame, 3) == Some(direction)
    &&& nth(frame, 4) is None
}

/// The place of an instance of a resized row, in half-steps from where the first one was. With
/// the start kept the instances are counted from the start, with the end kept from the end, and
/// with the middle kept from the middle.
pub open spec fn half_step(anchor: PatternAnchor, old_count: int, new_count: int, k: int) -> int {
    match anchor {
        PatternAnchor::Start => 2 * k,
        PatternAnchor::End => 2 * (old_count - 1) - 2 * (new_count - 1 - k),
        PatternAnchor::Center => (old_count - 1) + (2 * k - (new_count - 1)),
    }
}

/// The frame of an instance: the axis and the reference direction of its placement.
pub open spec fn frame_of(entities: Seq<EntityView>, item: u64) -> Option<(ParamView, ParamView)> {
    match record_at(entities, item) {
        Some(record) => match nth_ref(record, 2) {
            Some(placement) => match record_at(entities, placement) {
                Some(frame) => match (nth(frame, 2), nth(frame, 3)) {
                    (Some(axis), Some(direction)) => Some((axis, direction)),
                    _ => None,
                },
                None => None,
            },
            None => None,
        },
        None => None,
    }
}

proof fn lemma_row_of(entities: Seq<EntityView>, map: u64, items: Seq<u64>, n: nat)
    requires
        1 <= n <= items.len(),
        row_of(entities, map, items, n) is Ok,
    ensures
        ({
            let row = row_of(entities, map, items, n)->Ok_0;
            &&& frame_of(entities, items[0]) == Some((row.axis, row.direction))
            &&& row.styles.len() == n
            &&& forall|i: int|
                0 <= i < n ==> {
                    &&& record_at(entities, #[trigger] items[i]) matches Some(record)
                    &&& record.name == "MAPPED_ITEM"@
                    &&& record.parameter is List
                    &&& nth_ref(record, 1) == Some(map)
                    &&& nth(record, 2) is Some
                }
        }),
    decreases n,
{
    if n > 1 {
        lemma_row_of(entities, map, items, (n - 1) as nat);
        assert forall|i: int| 0 <= i < n implies ({
            &&& record_at(entities, #[trigger] items[i]) matches Some(record)
            &&& record.name == "MAPPED_ITEM"@
            &&& record.parameter is List
            &&& nth_ref(record, 1) == Some(map)
            &&& nth(record, 2) is Some
        }) by {
            if i == n - 1 {
                assert(item_target(entities, map, items[n - 1]) is Ok);
            }
        }
    } else {
        assert(item_target(entities, map, items[0]) is Ok);
    }
}

/// Whether an instance refers to a new placement.
spec fn is_moved(
    record: RecordView,
    added: Seq<EntityView>,
    map: u64,
    site: SiteView,
    axis: ParamView,
    direction: ParamView,
) -> bool {
    &&& record.name == "MAPPED_ITEM"@
    &&& nth_ref(record, 1) == Some(map)
    &&& nth_ref(record, 2) matches Some(placement)
    &&& record_at(added, placement) matches Some(frame)
    &&& frame.name == "AXIS2_PLACEMENT_3D"@
    &&& nth_ref(frame, 1) matches Some(point)
    &&& has_triple(added, point, "CARTESIAN_POINT"@, site.x, site.y, site.z)
    &&& nth(frame, 2) == Some(axis)
    &&& nth(frame, 3) == Some(direction)
    &&& nth(frame, 4) is None
}

/// What holds of the new row at every site.
spec fn row_so_far(
    start: Seq<EntityView>,
    pattern: InstancePattern,
    row: RowView,
    sites: Seq<SiteView>,
    last: u64,
    n: nat,
) -> bool {
    let done = built(start, pattern, row, sites, last, n);
    &&& done.base.len() == start.len()
    &&& forall|i: int| 0 <= i < start.len() ==> (#[trigger] done.base[i]).id() == start[i].id()
    &&& numbered_from(done.added, last)
    &&& done.items.len() == n
    &&& forall|k: int|
        0 <= k < n && k < pattern.item_ids@.len() ==> #[trigger] done.items[k]
            == pattern.item_ids@[k]
    &&& forall|k: int|
        0 <= k < n && k >= pattern.item_ids@.len() ==> #[trigger] done.items[k] > last
    &&& forall|id: u64|
        !done.items.contains(id) ==> #[trigger] record_at(done.base, id) == record_at(start, id)
    &&& forall|k: int|
        0 <= k < n ==> {
            let item = #[trigger] done.items[k];
            &&& record_at(
                if k < pattern.item_ids@.len() {
                    done.base
                } else {
                    done.added
                },
                item,
            ) matches Some(record)
            &&& is_moved(
                record,
                done.added,
                pattern.representation_map,
                sites[k],
                row.axis,
                row.direction,
            )
        }
}

proof fn lemma_moved_later(
    record: RecordView,
    less: Seq<EntityView>,
    more: Seq<EntityView>,
    map: u64,
    site: SiteView,
    axis: ParamView,
    direction: ParamView,
)
    requires
        finds_as(more, less),
        is_moved(record, less, map, site, axis, direction),
    ensures
        is_moved(record, more, map, site, axis, direction),
{
    let placement = nth_ref(record, 2)->Some_0;
    assert(record_at(more, placement) == record_at(less, placement));
    let point = nth_ref(record_at(less, placement)->Some_0, 1)->Some_0;
    assert(record_at(more, point) == record_at(less, point));
}

/// How many new entities the first `n` sites take.
spec fn ids_taken(old_count: nat, n: nat) -> nat {
    if n <= old_count {
        2 * n
    } else {
        (2 * old_count + 4 * (n - old_count)) as nat
    }
}

#[verifier::spinoff_prover]
#[verifier::rlimit(40)]
proof fn lemma_row_so_far(
    start: Seq<EntityView>,
    pattern: InstancePattern,
    row: RowView,
    sites: Seq<SiteView>,
    last: u64,
    n: nat,
)
    requires
        n <= sites.len(),
        numbered_upto(start, last),
        pattern.item_ids@.no_duplicates(),
        last + ids_taken(pattern.item_ids@.len(), sites.len()) <= u64::MAX,
        forall|i: int|
            0 <= i < pattern.item_ids@.len() ==> {
                &&& record_at(start, #[trigger] pattern.item_ids@[i]) matches Some(record)
                &&& record.name == "MAPPED_ITEM"@
                &&& record.parameter is List
                &&& nth_ref(record, 1) == Some(pattern.representation_map)
                &&& nth(record, 2) is Some
            },
    ensures
        row_so_far(start, pattern, row, sites, last, n),
        built(start, pattern, row, sites, last, n).added.len() == ids_taken(
            pattern.item_ids@.len(),
            n,
        ),
    decreases n,
{
    let old = pattern.item_ids@;
    let map = pattern.representation_map;
    if n > 0 {
        let m = (n - 1) as nat;
        lemma_row_so_far(start, pattern, row, sites, last, m);
        let before = built(start, pattern, row, sites, last, m);
        let done = built(start, pattern, row, sites, last, n);
        let site = sites[m as int];
        let placed = with_site(before.added, last, site, row.axis, row.direction);
        let placement = (fresh(before.added, last) + 1) as u64;
        let point = fresh(before.added, last);
        let len = before.added.len() as int;
        assert forall|j: int| 0 <= j < done.added.len() implies (#[trigger] done.added[j]).id()
            == last + 1 + j by {
            if j < len {
                assert(done.added[j] == before.added[j]);
            }
        }
        lemma_new_finds_as(before.added, done.added, last);
        lemma_new_found(done.added, last, len);
        lemma_new_found(done.added, last, len + 1);
        assert(has_triple(done.added, point, "CARTESIAN_POINT"@, site.x, site.y, site.z));
        let item = done.items[m as int];
        assert(done.items == before.items.push(item));
        if m < old.len() {
            assert(item == old[m as int]);
            assert(!before.items.contains(item)) by {
                if before.items.contains(item) {
                    let k = choose|k: int| 0 <= k < before.items.len() && before.items[k] == item;
                    assert(before.items[k] == old[k]);
                }
            }
            lemma_position(before.base, item);
            assert(record_at(before.base, item) == record_at(start, item));
            let at = position(before.base, item)->Some_0;
            let moved = moved_item(before.base[at], placement);
            assert(done.base == before.base.update(at, moved));
            assert forall|i: int| 0 <= i < start.len() implies (#[trigger] done.base[i]).id()
                == start[i].id() by {
                assert(before.base[i].id() == start[i].id());
            }
            assert forall|id: u64| id != item implies #[trigger] record_at(done.base, id)
                == record_at(before.base, id) by {
                lemma_changed_found(done.base, before.base, id);
                lemma_position(before.base, id);
            }
            lemma_changed_found(done.base, before.base, item);
            let record = record_at(done.base, item)->Some_0;
            assert(record == simple_record(moved)->Some_0);
            assert(is_moved(record, done.added, map, site, row.axis, row.direction));
        } else {
            assert(done.base == before.base);
            assert(item == fresh(placed, last));
            lemma_new_found(done.added, last, len + 2);
            assert(is_moved(
                record_at(done.added, item)->Some_0,
                done.added,
                map,
                site,
                row.axis,
                row.direction,
            ));
        }
        assert forall|id: u64| !done.items.contains(id) implies #[trigger] record_at(done.base, id)
            == record_at(start, id) by {
            assert(done.items[m as int] == item);
            if before.items.contains(id) {
                let k = choose|k: int| 0 <= k < before.items.len() && before.items[k] == id;
                assert(done.items[k] == id);
            }
            assert(record_at(before.base, id) == record_at(start, id));
        }
        assert forall|k: int| 0 <= k < n implies ({
            let one = #[trigger] done.items[k];
            &&& record_at(
                if k < old.len() {
                    done.base
                } else {
                    done.added
                },
                one,
            ) matches Some(record)
            &&& is_moved(record, done.added, map, sites[k], row.axis, row.direction)
        }) by {
            if k < m {
                let one = before.items[k];
                assert(done.items[k] == one);
                if k < old.len() {
                    assert(one == old[k]);
                    if m < old.len() {
                        assert(one != item);
                    }
                    assert(record_at(done.base, one) == record_at(before.base, one));
                    lemma_moved_later(
                        record_at(before.base, one)->Some_0,
                        before.added,
                        done.added,
                        map,
                        sites[k],
                        row.axis,
                        row.direction,
                    );
                } else {
                    assert(record_at(done.added, one) == record_at(before.added, one));
                    lemma_moved_later(
                        record_at(before.added, one)->Some_0,
                        before.added,
                        done.added,
                        map,
                        sites[k],
                        row.axis,
                        row.direction,
                    );
                }
            }
        }
        assert forall|k: int| 0 <= k < n && k < old.len() implies #[trigger] done.items[k]
            == old[k] by {
            if k < m {
                assert(done.items[k] == before.items[k]);
            }
        }
        assert forall|k: int| 0 <= k < n && k >= old.len() implies #[trigger] done.items[k]
            > last by {
            if k < m {
                assert(done.items[k] == before.items[k]);
            }
        }
    }
}

/// Whether a list is another one with new ids where the first of some stood, and without the
/// others of these.
pub open spec fn is_put_in(ids: Seq<u64>, old: Seq<u64>, new: Seq<u64>, after: Seq<u64>) -> bool {
    exists|p: int|
        {
            &&& 0 <= p < ids.len()
            &&& old.contains(#[trigger] ids[p])
            &&& forall|q: int| 0 <= q < p ==> !old.contains(#[trigger] ids[q])
            &&& after == ids.take(p) + new + ids.skip(p).filter(|id: u64| !old.contains(id))
        }
}

spec fn put_in(ids: Seq<u64>, old: Seq<u64>, new: Seq<u64>) -> Seq<u64>
    decreases ids.len(),
{
    if ids.len() == 0 {
        Seq::empty()
    } else {
        let front = ids.drop_last();
        let rest = put_in(front, old, new);
        if !old.contains(ids.last()) {
            rest.push(ids.last())
        } else if exists|i: int| 0 <= i < front.len() && old.contains(#[trigger] front[i]) {
            rest
        } else {
            rest + new
        }
    }
}

proof fn lemma_put_in(ids: Seq<u64>, old: Seq<u64>, new: Seq<u64>)
    ensures
        (forall|i: int| 0 <= i < ids.len() ==> !old.contains(#[trigger] ids[i])) ==> put_in(
            ids,
            old,
            new,
        ) == ids,
        (exists|i: int| 0 <= i < ids.len() && old.contains(#[trigger] ids[i])) ==> is_put_in(
            ids,
            old,
            new,
            put_in(ids, old, new),
        ),
    decreases ids.len(),
{
    if ids.len() > 0 {
        let front = ids.drop_last();
        let all = put_in(ids, old, new);
        let stays = |id: u64| !old.contains(id);
        lemma_put_in(front, old, new);
        assert forall|i: int| 0 <= i < front.len() implies #[trigger] front[i] == ids[i] by {}
        if exists|i: int| 0 <= i < front.len() && old.contains(#[trigger] front[i]) {
            let rest = put_in(front, old, new);
            let p = choose|p: int|
                {
                    &&& 0 <= p < front.len()
                    &&& old.contains(#[trigger] front[p])
                    &&& forall|q: int| 0 <= q < p ==> !old.contains(#[trigger] front[q])
                    &&& rest == front.take(p) + new + front.skip(p).filter(
                        |id: u64| !old.contains(id),
                    )
                };
            assert(ids[p] == front[p]);
            assert forall|q: int| 0 <= q < p implies !old.contains(#[trigger] ids[q]) by {
                assert(front[q] == ids[q]);
            }
            assert(ids.take(p) =~= front.take(p));
            assert(ids.skip(p).drop_last() =~= front.skip(p));
            assert(ids.skip(p).last() == ids.last());
            reveal(Seq::filter);
            assert(ids.skip(p).filter(stays) =~= if stays(ids.last()) {
                front.skip(p).filter(stays).push(ids.last())
            } else {
                front.skip(p).filter(stays)
            });
            assert(all =~= ids.take(p) + new + ids.skip(p).filter(stays));
            assert(is_put_in(ids, old, new, all));
        } else {
            assert(put_in(front, old, new) == front) by {
                assert forall|i: int| 0 <= i < front.len() implies !old.contains(
                    #[trigger] front[i],
                ) by {}
            }
            if old.contains(ids.last()) {
                let p = ids.len() - 1;
                assert(ids[p] == ids.last());
                assert forall|q: int| 0 <= q < p implies !old.contains(#[trigger] ids[q]) by {
                    assert(front[q] == ids[q]);
                }
                assert(ids.take(p) =~= front);
                assert(ids.skip(p) =~= seq![ids.last()]);
                reveal_with_fuel(Seq::<_>::filter, 3);
                assert(ids.skip(p).drop_last() =~= Seq::<u64>::empty());
                assert(ids.skip(p).filter(stays) =~= Seq::<u64>::empty());
                assert(all =~= ids.take(p) + new + ids.skip(p).filter(stays));
                assert(is_put_in(ids, old, new, all));
            } else {
                assert(front.push(ids.last()) =~= ids);
                assert forall|i: int| 0 <= i < ids.len() implies !old.contains(
                    #[trigger] ids[i],
                ) by {
                    if i < front.len() {
                        assert(!old.contains(front[i]));
                    }
                }
            }
        }
    }
}

proof fn lemma_spliced(ids: Seq<u64>, old: Seq<u64>, new: Seq<u64>)
    ensures
        spliced(ref_params(ids), old, new) == ref_params(put_in(ids, old, new)),
        meets(ref_params(ids), old) == exists|i: int|
            0 <= i < ids.len() && old.contains(#[trigger] ids[i]),
    decreases ids.len(),
{
    let params = ref_params(ids);
    assert(meets(params, old) == exists|i: int|
        0 <= i < ids.len() && old.contains(#[trigger] ids[i])) by {
        if meets(params, old) {
            let i = choose|i: int|
                0 <= i < params.len() && (ref_value(#[trigger] params[i]) matches Some(id)
                    && old.contains(id));
            assert(params[i] == ref_param(ids[i]));
            assert(old.contains(ids[i]));
        }
        if exists|i: int| 0 <= i < ids.len() && old.contains(#[trigger] ids[i]) {
            let i = choose|i: int| 0 <= i < ids.len() && old.contains(#[trigger] ids[i]);
            assert(params[i] == ref_param(ids[i]));
        }
    }
    if ids.len() > 0 {
        let front = ids.drop_last();
        lemma_spliced(front, old, new);
        assert(params.drop_last() =~= ref_params(front));
        assert(params.last() == ref_param(ids.last()));
        let rest = put_in(front, old, new);
        assert(ref_params(rest).push(ref_param(ids.last())) =~= ref_params(
            rest.push(ids.last()),
        ));
        assert(ref_params(rest) + ref_params(new) =~= ref_params(rest + new));
    } else {
        assert(spliced(params, old, new) =~= ref_params(Seq::<u64>::empty()));
    }
}

proof fn lemma_restyled_finds(all: Seq<EntityView>, old: Seq<u64>, new: Seq<u64>, id: u64)
    ensures
        record_at(all, id) matches Some(record) ==> {
            ||| record.name == "MECHANICAL_DESIGN_GEOMETRIC_PRESENTATION_REPRESENTATION"@
            ||| record.name == "PRESENTATION_LAYER_ASSIGNMENT"@
            ||| record_at(restyled_roots(all, old, new), id) == Some(record)
        },
{
    let done = restyled_roots(all, old, new);
    assert forall|i: int| 0 <= i < all.len() implies (#[trigger] all[i]).id() == done[i].id() by {
        assert(done[i] == restyled_root(all[i], old, new));
    }
    lemma_changed_found(all, done, id);
    lemma_position(all, id);
    if let Some(i) = position(all, id) {
        assert(done[i] == restyled_root(all[i], old, new));
    }
}

/// Whether the items of a resized row stand where they are to: each is an instance of the map of
/// the row, at the place that was measured for its half-step, and in the frame that the first
/// item had before.
pub open spec fn row_stands(
    before: Seq<EntityView>,
    pattern: InstancePattern,
    new_count: usize,
    anchor: PatternAnchor,
    steps: HalfSteps,
    after: Seq<EntityView>,
    items: Seq<u64>,
) -> bool {
    let old_count = pattern.item_ids@.len() as int;
    &&& items.len() == new_count
    &&& forall|k: int|
        0 <= k < new_count && k < old_count ==> #[trigger] items[k] == pattern.item_ids@[k]
    &&& forall|k: int|
        0 <= k < new_count && k >= old_count ==> #[trigger] items[k] > max_id(before)
    &&& frame_of(before, pattern.item_ids@[0]) is Some
    &&& forall|k: int|
        0 <= k < new_count ==> stands_at_step(
            after,
            #[trigger] items[k],
            pattern.representation_map,
            steps,
            half_step(anchor, old_count, new_count as int, k),
            frame_of(before, pattern.item_ids@[0])->Some_0,
        )
}

/// Whether an instance of a map stands at the place that was measured for a half-step, in a
/// frame.
pub open spec fn stands_at_step(
    entities: Seq<EntityView>,
    item: u64,
    map: u64,
    steps: HalfSteps,
    half: int,
    frame: (ParamView, ParamView),
) -> bool {
    &&& 0 <= half - steps.first < steps.places@.len()
    &&& stands_on(
        entities,
        item,
        map,
        steps.places@[half - steps.first]@,
        frame.0,
        frame.1,
    )
}

/// Whether a representation is another one with new items where the first of some stood, and
/// without the others of these.
pub open spec fn lists_instead(
    before: RecordView,
    old: Seq<u64>,
    new: Seq<u64>,
    after: RecordView,
) -> bool {
    &&& after.name == before.name
    &&& forall|n: int| n != 1 ==> #[trigger] nth(after, n) == nth(before, n)
    &&& nth_ref_list(before, 1) matches Some(was)
    &&& exists|listed: Seq<u64>| #[trigger]
        is_put_in(was, old, new, listed) && nth(after, 1) == Some(
            ParamView::List(ref_params(listed)),
        )
}

/// A resized row stands in the representation of the old one where its first item stood, all
/// else in the list of items being as before. Its first items are those of the old row, the
/// others are new. Each item is an instance of the same map at the place measured for it, counted
/// from the end that stays or from the middle, and all items are in the frame that the first one
/// had: the axis and the reference direction of their placements are those of its placement.
#[verifier::spinoff_prover]
#[verifier::rlimit(60)]
pub proof fn law_row_keeps_its_frame(
    before: Seq<EntityView>,
    pattern: InstancePattern,
    new_count: usize,
    anchor: PatternAnchor,
    steps: HalfSteps,
    after: Seq<EntityView>,
    stats: PatternResizeStats,
)
    requires
        anchored_fault(before, pattern, new_count, anchor, steps) is None,
        is_row_resized(before, pattern, new_count, anchor, steps, after, stats),
        pattern.item_ids@.no_duplicates(),
        pattern.item_ids@.len() <= usize::MAX,
        record_at(after, pattern.parent_representation) is Some,
        record_at(before, pattern.parent_representation) matches Some(parent) && parent.name
            != "MECHANICAL_DESIGN_GEOMETRIC_PRESENTATION_REPRESENTATION"@ && parent.name
            != "PRESENTATION_LAYER_ASSIGNMENT"@,
    ensures
        exists|items: Seq<u64>| #[trigger]
            row_stands(before, pattern, new_count, anchor, steps, after, items) && lists_instead(
                record_at(before, pattern.parent_representation)->Some_0,
                pattern.item_ids@,
                items,
                record_at(after, pattern.parent_representation)->Some_0,
            ),
        stats.old_count == pattern.item_ids@.len(),
        stats.new_count == new_count,
        stats.reused_items + stats.added_items == new_count,
        stats.reused_items + stats.removed_items == pattern.item_ids@.len(),
        stats.added_items == 0 || stats.removed_items == 0,
{
    let old = pattern.item_ids@;
    let map = pattern.representation_map;
    let parent = pattern.parent_representation;
    let last = max_id(before);
    let sites = steps.row(anchor, old.len() as int, new_count as int);
    let candidates = choose|candidates: Seq<u64>| #[trigger]
        row_resized(before, pattern, sites, candidates, after, stats);
    let row = row_of(before, map, old, old.len())->Ok_0;
    lemma_row_of(before, map, old, old.len());
    assert forall|i: int| 0 <= i < before.len() implies (#[trigger] before[i]).id() <= last by {
        lemma_max_id(before, i);
    }
    lemma_row_so_far(before, pattern, row, sites, last, sites.len());
    let made = built(before, pattern, row, sites, last, sites.len());
    let at = position(made.base, parent)->Some_0;
    let was = record_at(before, parent)->Some_0;
    let listed = nth_ref_list(was, 1)->Some_0;
    assert(!made.items.contains(parent)) by {
        lemma_position(before, parent);
        if made.items.contains(parent) {
            let k = choose|k: int| 0 <= k < made.items.len() && made.items[k] == parent;
            if k < old.len() {
                assert(made.items[k] == old[k]);
                assert(nth_ref(was, 1) == Some(map));
            } else {
                assert(made.items[k] > last);
                assert(before[position(before, parent)->Some_0].id() <= last);
            }
        }
    }
    assert(record_at(made.base, parent) == Some(was));
    lemma_position(made.base, parent);
    let spliced_parent = respliced(made.base[at], 1, old, made.items);
    let base = made.base.update(at, spliced_parent);
    let all = base + made.added;
    let done = restyled_roots(all, row.styles, made.styles);
    let gone = given_up(done, candidates);
    assert(after == without(done, gone));
    let params = was.parameter->List_0;
    let new_list = put_in(listed, old, made.items);
    assert(params[1] == ParamView::List(ref_params(listed))) by {
        let inner = params[1]->List_0;
        assert forall|i: int| 0 <= i < inner.len() implies #[trigger] inner[i] == ref_params(
            listed,
        )[i] by {
            assert(ref_value(inner[i]) is Some);
        }
        assert(inner =~= ref_params(listed));
    }
    lemma_spliced(listed, old, made.items);
    lemma_put_in(listed, old, made.items);
    assert(exists|i: int| 0 <= i < listed.len() && old.contains(#[trigger] listed[i])) by {
        assert(listed.contains(old[0]));
        let i = choose|i: int| 0 <= i < listed.len() && listed[i] == old[0];
        assert(old.contains(listed[i]));
    }
    let new_record = simple_record(spliced_parent)->Some_0;
    assert(new_record.parameter == ParamView::List(
        params.update(1, ParamView::List(ref_params(new_list))),
    ));
    assert forall|i: int| 0 <= i < base.len() implies (#[trigger] base[i]).id()
        == made.base[i].id() by {}
    assert forall|i: int| 0 <= i < base.len() implies (#[trigger] base[i]).id() <= last by {
        assert(made.base[i].id() == before[i].id());
    }
    assert forall|id: u64| id != parent implies #[trigger] record_at(base, id) == record_at(
        made.base,
        id,
    ) by {
        lemma_changed_found(base, made.base, id);
        lemma_position(made.base, id);
    }
    lemma_changed_found(base, made.base, parent);
    assert(record_at(base, parent) == Some(new_record));
    lemma_joined_found(base, made.added, last);
    lemma_dead_keeps(done, candidates, Set::empty());
    assert(keeps_targets(done, gone));
    assert(made.base[at].id() == parent);
    assert(parent <= last);
    assert(record_at(all, parent) == Some(new_record));
    lemma_restyled_finds(all, row.styles, made.styles, parent);
    lemma_left_found(done, gone, parent);
    assert(record_at(after, parent) == Some(new_record));
    let items = made.items;
    assert forall|k: int| 0 <= k < new_count implies stands_at_step(
        after,
        #[trigger] items[k],
        map,
        steps,
        half_step(anchor, old.len() as int, new_count as int, k),
        (row.axis, row.direction),
    ) by {
        let item = items[k];
        let half = half_step(anchor, old.len() as int, new_count as int, k);
        assert(half == shift_of(anchor, old.len() as int, new_count as int) + 2 * k);
        assert(steps.has(shift_of(anchor, old.len() as int, new_count as int) + 2 * k));
        let site = sites[k];
        assert(site == steps.places@[half - steps.first]@);
        let record = if k < old.len() {
            record_at(made.base, item)->Some_0
        } else {
            record_at(made.added, item)->Some_0
        };
        assert(is_moved(record, made.added, map, site, row.axis, row.direction));
        assert(items.contains(item));
        assert(record_at(all, item) == Some(record)) by {
            if k < old.len() {
                assert(item == old[k]);
                lemma_position(before, item);
                assert(before[position(before, item)->Some_0].id() <= last);
                assert(record_at(base, item) == record_at(made.base, item));
            } else {
                assert(item > last);
            }
        }
        let placement = nth_ref(record, 2)->Some_0;
        let frame = record_at(made.added, placement)->Some_0;
        let point = nth_ref(frame, 1)->Some_0;
        assert(record_at(all, placement) == Some(frame));
        assert(record_at(all, point) == record_at(made.added, point));
        lemma_no_roots();
        lemma_restyled_finds(all, row.styles, made.styles, item);
        lemma_restyled_finds(all, row.styles, made.styles, placement);
        lemma_restyled_finds(all, row.styles, made.styles, point);
        lemma_in_list(listed, old, items, new_list, item);
        let x = choose|x: int| 0 <= x < new_list.len() && new_list[x] == item;
        let refs = ref_params(new_list);
        assert(crate::refs::param_refs(refs[x]) =~= seq![item]);
        assert(crate::refs::param_refs(refs[x])[0] == item);
        lemma_list_refers(refs, x, item);
        lemma_target_stays(done, gone, parent, 1, item);
        lemma_ref_stays(done, gone, item, 2, placement);
        lemma_ref_stays(done, gone, placement, 1, point);
    }
    assert(items.len() == new_count);
    assert(frame_of(before, pattern.item_ids@[0]) == Some((row.axis, row.direction)));
    assert forall|k: int| 0 <= k < new_count && k < old.len() implies #[trigger] items[k]
        == pattern.item_ids@[k] by {
        assert(made.items[k] == old[k]);
    }
    assert forall|k: int| 0 <= k < new_count && k >= old.len() implies #[trigger] items[k]
        > max_id(before) by {
        assert(made.items[k] > last);
    }
    assert(row_stands(before, pattern, new_count, anchor, steps, after, items));
    assert(is_put_in(listed, old, items, new_list));
    assert(lists_instead(was, old, items, new_record));
}

proof fn lemma_in_list(
    ids: Seq<u64>,
    old: Seq<u64>,
    new: Seq<u64>,
    after: Seq<u64>,
    item: u64,
)
    requires
        is_put_in(ids, old, new, after),
        new.contains(item),
    ensures
        after.contains(item),
{
    let p = choose|p: int|
        {
            &&& 0 <= p < ids.len()
            &&& old.contains(#[trigger] ids[p])
            &&& forall|q: int| 0 <= q < p ==> !old.contains(#[trigger] ids[q])
            &&& after == ids.take(p) + new + ids.skip(p).filter(|id: u64| !old.contains(id))
        };
    let k = choose|k: int| 0 <= k < new.len() && new[k] == item;
    assert(after[p + k] == item);
}

} // verus!
