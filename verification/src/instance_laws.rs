//! What instances show, and where.

use vstd::prelude::*;

use crate::ast::{EntityView, ParamView, RecordView};
use crate::face_coalesce::{lemma_max_id, ref_param, ref_params};
use crate::graph::{
    lemma_position, max_id, nth, nth_ref, position, record_at, ref_value, simple_record, without,
};
use crate::instances::{
    after_group, after_groups, after_reps, all_patched, first_position, in_order, infos,
    instance_ids, instances_made, items_and_context, members, patched, place_of, placed,
    replacements, styles_of, swapped, swapped_item, turns_view, with_instances, InfoView,
    InstanceEvidence, InstanceStats, ProgressView, TurnView,
};
use crate::lookup::{
    finds_as, keeps_targets, lemma_changed_found, lemma_dead_keeps, lemma_joined_found,
    lemma_left_found, lemma_new_finds_as, lemma_new_found, lemma_ref_stays, lemma_target_stays,
    numbered_from, numbered_upto,
};
use crate::partition_plan::of_type;
use crate::placements::{
    fresh, mapped_id, room, with_frame, with_mapped, with_source, with_style, PlaceView,
};

verus! {

/// The cosine and the sine of a turn by some quarters: each quarter takes the first axis to the
/// second one, and the second one to the first one reversed.
pub open spec fn quarter_turn(quarters: nat) -> (int, int)
    decreases quarters,
{
    if quarters == 0 {
        (1, 0)
    } else {
        let (c, s) = quarter_turn((quarters - 1) as nat);
        (-s, c)
    }
}

/// One of the numbers minus one, zero and one as a real.
pub open spec fn unit_text(n: int) -> Seq<char> {
    if n == 1 {
        "1"@
    } else if n == -1 {
        "-1"@
    } else {
        "0"@
    }
}

/// Whether an entity is a point or a direction with some coordinates.
pub open spec fn has_triple(
    entities: Seq<EntityView>,
    id: u64,
    name: Seq<char>,
    x: Seq<char>,
    y: Seq<char>,
    z: Seq<char>,
) -> bool {
    &&& record_at(entities, id) matches Some(record)
    &&& record.name == name
    &&& nth(record, 1) == Some(
        ParamView::List(seq![ParamView::Real(x), ParamView::Real(y), ParamView::Real(z)]),
    )
}

/// Whether an entity is a placement at a point, upright, and turned by some quarters.
pub open spec fn stands_at(
    entities: Seq<EntityView>,
    id: u64,
    x: Seq<char>,
    y: Seq<char>,
    z: Seq<char>,
    quarters: nat,
) -> bool {
    &&& record_at(entities, id) matches Some(record)
    &&& record.name == "AXIS2_PLACEMENT_3D"@
    &&& nth(record, 4) is None
    &&& nth_ref(record, 1) matches Some(point)
    &&& has_triple(entities, point, "CARTESIAN_POINT"@, x, y, z)
    &&& nth_ref(record, 2) matches Some(up)
    &&& has_triple(entities, up, "DIRECTION"@, "0"@, "0"@, "1"@)
    &&& nth_ref(record, 3) matches Some(ahead)
    &&& has_triple(
        entities,
        ahead,
        "DIRECTION"@,
        unit_text(quarter_turn(quarters).0),
        unit_text(quarter_turn(quarters).1),
        "0"@,
    )
}

/// Whether an entity maps a representation in which one solid stands as it is.
pub open spec fn maps_solid(entities: Seq<EntityView>, id: u64, solid: u64, context: u64) -> bool {
    &&& record_at(entities, id) matches Some(map)
    &&& map.name == "REPRESENTATION_MAP"@
    &&& nth_ref(map, 0) matches Some(origin)
    &&& stands_at(entities, origin, "0"@, "0"@, "0"@, 0)
    &&& nth_ref(map, 1) matches Some(rep)
    &&& record_at(entities, rep) matches Some(source)
    &&& source.name == "ADVANCED_BREP_SHAPE_REPRESENTATION"@
    &&& nth(source, 1) == Some(ParamView::List(seq![ref_param(solid), ref_param(origin)]))
    &&& nth_ref(source, 2) == Some(context)
}

/// Whether an entity is an instance of a solid on a placement.
pub open spec fn is_instance_of(
    entities: Seq<EntityView>,
    id: u64,
    solid: u64,
    context: u64,
    placement: u64,
) -> bool {
    &&& record_at(entities, id) matches Some(record)
    &&& record.name == "MAPPED_ITEM"@
    &&& nth_ref(record, 1) matches Some(map)
    &&& maps_solid(entities, map, solid, context)
    &&& nth_ref(record, 2) == Some(placement)
}

/// Whether it was measured that one solid, turned and moved, is another, and a placement turns
/// and moves just so.
pub open spec fn turns_into(
    entities: Seq<EntityView>,
    placement: u64,
    turns: Seq<TurnView>,
    source: u64,
    target: u64,
) -> bool {
    exists|k: int|
        0 <= k < turns.len() && (#[trigger] turns[k]).source == source && turns[k].target == target
            && stands_at(
            entities,
            placement,
            turns[k].place.x,
            turns[k].place.y,
            turns[k].place.z,
            turns[k].place.quarter as nat,
        )
}

/// Whether an instance shows what a solid shows: it is an instance of the solid itself at the
/// origin, or of one that was measured to be the solid when it is turned and moved as the
/// placement of the instance turns and moves it.
pub open spec fn shows(
    entities: Seq<EntityView>,
    id: u64,
    solid: u64,
    context: u64,
    turns: Seq<TurnView>,
) -> bool {
    exists|source: u64, placement: u64| #[trigger]
        is_instance_of(entities, id, source, context, placement) && (turns_into(
            entities,
            placement,
            turns,
            source,
            solid,
        ) || (source == solid && stands_at(entities, placement, "0"@, "0"@, "0"@, 0)))
}

/// Whether an item of a representation shows what another one did: it is the same, or an
/// instance that shows the solid that the other one was.
pub open spec fn item_shows(
    entities: Seq<EntityView>,
    before: ParamView,
    after: ParamView,
    context: Option<u64>,
    turns: Seq<TurnView>,
) -> bool {
    ||| after == before
    ||| {
        &&& ref_value(before) matches Some(solid)
        &&& ref_value(after) matches Some(id)
        &&& context matches Some(context)
        &&& shows(entities, id, solid, context, turns)
    }
}

/// Whether a record shows what another one did: all but the items of a representation are the
/// same, and each of these shows what it did.
pub open spec fn record_shows(
    entities: Seq<EntityView>,
    before: RecordView,
    after: RecordView,
    turns: Seq<TurnView>,
) -> bool {
    ||| after == before
    ||| {
        &&& after.name == before.name
        &&& before.parameter matches ParamView::List(old)
        &&& after.parameter matches ParamView::List(new)
        &&& new.len() == old.len()
        &&& old.len() > 1
        &&& forall|n: int| 0 <= n < old.len() && n != 1 ==> #[trigger] new[n] == old[n]
        &&& old[1] matches ParamView::List(items)
        &&& new[1] matches ParamView::List(shown)
        &&& shown.len() == items.len()
        &&& forall|n: int|
            0 <= n < items.len() ==> item_shows(
                entities,
                items[n],
                #[trigger] shown[n],
                nth_ref(before, 2),
                turns,
            )
    }
}

proof fn lemma_quarters()
    ensures
        quarter_turn(0) == (1int, 0int),
        quarter_turn(1) == (0int, 1int),
        quarter_turn(2) == (-1int, 0int),
        quarter_turn(3) == (0int, -1int),
{
    reveal_with_fuel(quarter_turn, 5);
}

/// Four quarters are a full turn.
pub proof fn law_four_quarters(quarters: nat)
    ensures
        quarter_turn(quarters + 4) == quarter_turn(quarters),
        quarter_turn(quarters).0 * quarter_turn(quarters).0 + quarter_turn(quarters).1
            * quarter_turn(quarters).1 == 1,
    decreases quarters,
{
    lemma_quarters();
    reveal_with_fuel(quarter_turn, 6);
    if quarters > 0 {
        law_four_quarters((quarters - 1) as nat);
        let (c, s) = quarter_turn((quarters - 1) as nat);
        assert((-s) * (-s) == s * s) by (nonlinear_arith);
    }
}

proof fn lemma_quarter_rest(quarters: nat)
    ensures
        quarter_turn(quarters) == quarter_turn(quarters % 4),
    decreases quarters,
{
    if quarters >= 4 {
        law_four_quarters((quarters - 4) as nat);
        lemma_quarter_rest((quarters - 4) as nat);
        assert((quarters - 4) as nat % 4 == quarters % 4);
    }
}

/// The directions and the origin of a frame.
pub open spec fn has_frame(entities: Seq<EntityView>, frame: u64) -> bool {
    &&& frame + 6 <= u64::MAX
    &&& has_triple(entities, frame, "DIRECTION"@, "0"@, "0"@, "1"@)
    &&& forall|q: u64|
        q < 4 ==> has_triple(
            entities,
            #[trigger] ((frame + 1 + q) as u64),
            "DIRECTION"@,
            unit_text(quarter_turn(q as nat).0),
            unit_text(quarter_turn(q as nat).1),
            "0"@,
        )
    &&& stands_at(entities, (frame + 6) as u64, "0"@, "0"@, "0"@, 0)
}

proof fn lemma_frame(added: Seq<EntityView>, last: u64)
    requires
        numbered_from(added, last),
        room(added, last, 7),
    ensures
        numbered_from(with_frame(added, last), last),
        finds_as(with_frame(added, last), added),
        has_frame(with_frame(added, last), fresh(added, last)),
{
    let all = with_frame(added, last);
    let n = added.len() as int;
    let frame = fresh(added, last);
    assert forall|j: int| 0 <= j < all.len() implies (#[trigger] all[j]).id() == last + 1 + j by {
        if j < n {
            assert(all[j] == added[j]);
        }
    }
    lemma_new_finds_as(added, all, last);
    lemma_new_found(all, last, n);
    lemma_new_found(all, last, n + 1);
    lemma_new_found(all, last, n + 2);
    lemma_new_found(all, last, n + 3);
    lemma_new_found(all, last, n + 4);
    lemma_new_found(all, last, n + 5);
    lemma_new_found(all, last, n + 6);
    lemma_quarters();
    assert(has_triple(all, frame, "DIRECTION"@, "0"@, "0"@, "1"@));
    assert forall|q: u64| q < 4 implies has_triple(
        all,
        #[trigger] ((frame + 1 + q) as u64),
        "DIRECTION"@,
        unit_text(quarter_turn(q as nat).0),
        unit_text(quarter_turn(q as nat).1),
        "0"@,
    ) by {
        if q == 0 {
        } else if q == 1 {
        } else if q == 2 {
        } else {
            assert(q == 3);
        }
    }
    assert(has_triple(all, (frame + 5) as u64, "CARTESIAN_POINT"@, "0"@, "0"@, "0"@));
    assert(has_triple(all, (frame + 1 + 0) as u64, "DIRECTION"@, "1"@, "0"@, "0"@));
}

pub proof fn lemma_has_frame_later(less: Seq<EntityView>, more: Seq<EntityView>, frame: u64)
    requires
        finds_as(more, less),
        has_frame(less, frame),
    ensures
        has_frame(more, frame),
{
    assert forall|q: u64| q < 4 implies has_triple(
        more,
        #[trigger] ((frame + 1 + q) as u64),
        "DIRECTION"@,
        unit_text(quarter_turn(q as nat).0),
        unit_text(quarter_turn(q as nat).1),
        "0"@,
    ) by {
        assert(has_triple(
            less,
            (frame + 1 + q) as u64,
            "DIRECTION"@,
            unit_text(quarter_turn(q as nat).0),
            unit_text(quarter_turn(q as nat).1),
            "0"@,
        ));
    }
}

pub proof fn lemma_source(
    added: Seq<EntityView>,
    last: u64,
    name: Seq<char>,
    solid: u64,
    frame: u64,
    context: u64,
)
    requires
        numbered_from(added, last),
        room(added, last, 2),
        has_frame(added, frame),
    ensures
        ({
            let all = with_source(added, last, name, solid, frame, context);
            &&& numbered_from(all, last)
            &&& finds_as(all, added)
            &&& maps_solid(all, (fresh(added, last) + 1) as u64, solid, context)
        }),
{
    let all = with_source(added, last, name, solid, frame, context);
    let n = added.len() as int;
    assert forall|j: int| 0 <= j < all.len() implies (#[trigger] all[j]).id() == last + 1 + j by {
        if j < n {
            assert(all[j] == added[j]);
        }
    }
    lemma_new_finds_as(added, all, last);
    lemma_new_found(all, last, n);
    lemma_new_found(all, last, n + 1);
    lemma_has_frame_later(added, all, frame);
    assert(ref_params(seq![solid, (frame + 6) as u64]) =~= seq![
        ref_param(solid),
        ref_param((frame + 6) as u64),
    ]);
}

/// A new instance stands where it is placed.
pub proof fn lemma_mapped(
    added: Seq<EntityView>,
    last: u64,
    frame: u64,
    map: u64,
    solid: u64,
    context: u64,
    place: Option<PlaceView>,
) -> (placement: u64)
    requires
        numbered_from(added, last),
        room(added, last, 3),
        has_frame(added, frame),
        maps_solid(added, map, solid, context),
    ensures
        ({
            let all = with_mapped(added, last, frame, map, place);
            &&& numbered_from(all, last)
            &&& finds_as(all, added)
            &&& is_instance_of(all, mapped_id(added, last, place), solid, context, placement)
            &&& match place {
                None => stands_at(all, placement, "0"@, "0"@, "0"@, 0),
                Some(p) => stands_at(all, placement, p.x, p.y, p.z, p.quarter as nat),
            }
        }),
{
    let all = with_mapped(added, last, frame, map, place);
    let n = added.len() as int;
    assert forall|j: int| 0 <= j < all.len() implies (#[trigger] all[j]).id() == last + 1 + j by {
        if j < n {
            assert(all[j] == added[j]);
        }
    }
    lemma_new_finds_as(added, all, last);
    lemma_has_frame_later(added, all, frame);
    match place {
        None => {
            lemma_new_found(all, last, n);
            (frame + 6) as u64
        },
        Some(p) => {
            lemma_new_found(all, last, n);
            lemma_new_found(all, last, n + 1);
            lemma_new_found(all, last, n + 2);
            let q: u64 = (p.quarter % 4) as u64;
            lemma_quarter_rest(p.quarter as nat);
            assert(has_triple(
                all,
                (frame + 1 + q) as u64,
                "DIRECTION"@,
                unit_text(quarter_turn(q as nat).0),
                unit_text(quarter_turn(q as nat).1),
                "0"@,
            ));
            (fresh(added, last) + 1) as u64
        },
    }
}

pub proof fn lemma_styled(added: Seq<EntityView>, last: u64, styles: Seq<u64>, target: u64)
    requires
        numbered_from(added, last),
        room(added, last, 1),
    ensures
        numbered_from(with_style(added, last, styles, target), last),
        finds_as(with_style(added, last, styles, target), added),
{
    let all = with_style(added, last, styles, target);
    assert forall|j: int| 0 <= j < all.len() implies (#[trigger] all[j]).id() == last + 1 + j by {
        if j < added.len() {
            assert(all[j] == added[j]);
        }
    }
    lemma_new_finds_as(added, all, last);
}

proof fn lemma_shows_later(
    less: Seq<EntityView>,
    more: Seq<EntityView>,
    id: u64,
    solid: u64,
    context: u64,
    turns: Seq<TurnView>,
)
    requires
        finds_as(more, less),
        shows(less, id, solid, context, turns),
    ensures
        shows(more, id, solid, context, turns),
{
    let (source, placement) = choose|source: u64, placement: u64| #[trigger]
        is_instance_of(less, id, source, context, placement) && (turns_into(
            less,
            placement,
            turns,
            source,
            solid,
        ) || (source == solid && stands_at(less, placement, "0"@, "0"@, "0"@, 0)));
    assert(is_instance_of(more, id, source, context, placement));
    if turns_into(less, placement, turns, source, solid) {
        let k = choose|k: int|
            0 <= k < turns.len() && (#[trigger] turns[k]).source == source && turns[k].target
                == solid && stands_at(
                less,
                placement,
                turns[k].place.x,
                turns[k].place.y,
                turns[k].place.z,
                turns[k].place.quarter as nat,
            );
        assert(stands_at(
            more,
            placement,
            turns[k].place.x,
            turns[k].place.y,
            turns[k].place.z,
            turns[k].place.quarter as nat,
        ));
        assert(turns_into(more, placement, turns, source, solid));
    } else {
        assert(stands_at(more, placement, "0"@, "0"@, "0"@, 0));
    }
}

/// What a measured place was measured of.
proof fn lemma_place_measured(turns: Seq<TurnView>, source: u64, target: u64)
    ensures
        place_of(turns, source, target) matches Some(place) ==> exists|k: int|
            0 <= k < turns.len() && (#[trigger] turns[k]).source == source && turns[k].target
                == target && turns[k].place == place,
    decreases turns.len(),
{
    if turns.len() > 0 {
        let front = turns.drop_last();
        lemma_place_measured(front, source, target);
        if let Some(place) = place_of(front, source, target) {
            let k = choose|k: int|
                0 <= k < front.len() && (#[trigger] front[k]).source == source && front[k].target
                    == target && front[k].place == place;
            assert(turns[k] == front[k]);
        } else {
            assert(turns[turns.len() - 1] == turns.last());
        }
    }
}

/// Whether the members of a group are the first one or measured to be the first one turned.
spec fn is_group(turns: Seq<TurnView>, source: u64, group: Seq<(u64, Option<PlaceView>)>) -> bool {
    forall|i: int|
        0 <= i < group.len() ==> match (#[trigger] group[i]).1 {
            None => group[i].0 == source,
            Some(place) => exists|k: int|
                0 <= k < turns.len() && (#[trigger] turns[k]).source == source && turns[k].target
                    == group[i].0 && turns[k].place == place,
        }
}

proof fn lemma_group(turns: Seq<TurnView>, roots: Seq<u64>, n: nat)
    requires
        n <= roots.len(),
    ensures
        is_group(turns, roots[0], placed(turns, roots, n)),
        forall|i: int|
            0 <= i < placed(turns, roots, n).len() ==> roots.contains(
                (#[trigger] placed(turns, roots, n)[i]).0,
            ),
    decreases n,
{
    if n > 1 {
        lemma_group(turns, roots, (n - 1) as nat);
        lemma_place_measured(turns, roots[0], roots[n - 1]);
        let rest = placed(turns, roots, (n - 1) as nat);
        let all = placed(turns, roots, n);
        assert forall|i: int| 0 <= i < all.len() implies (match (#[trigger] all[i]).1 {
            None => all[i].0 == roots[0],
            Some(place) => exists|k: int|
                0 <= k < turns.len() && (#[trigger] turns[k]).source == roots[0] && turns[k].target
                    == all[i].0 && turns[k].place == place,
        }) && roots.contains(all[i].0) by {
            if i < rest.len() {
                assert(all[i] == rest[i]);
            } else {
                assert(roots[n - 1] == all[i].0);
            }
        }
    } else if n == 1 {
        assert(roots[0] == placed(turns, roots, 1)[0].0);
    }
}

/// The instances of a group show its members.
proof fn lemma_instances_show(
    added: Seq<EntityView>,
    last: u64,
    frame: u64,
    map: u64,
    group: Seq<(u64, Option<PlaceView>)>,
    style: Seq<u64>,
    n: nat,
    source: u64,
    context: u64,
    turns: Seq<TurnView>,
)
    requires
        n <= group.len(),
        numbered_from(added, last),
        room(added, last, (4 * n) as int),
        has_frame(added, frame),
        maps_solid(added, map, source, context),
        is_group(turns, source, group),
    ensures
        ({
            let all = with_instances(added, last, frame, map, group, style, n);
            let ids = instance_ids(added, last, frame, map, group, style, n);
            &&& numbered_from(all, last)
            &&& all.len() <= added.len() + 4 * n
            &&& finds_as(all, added)
            &&& ids.len() == n
            &&& forall|i: int|
                0 <= i < n ==> shows(all, #[trigger] ids[i], group[i].0, context, turns)
        }),
    decreases n,
{
    if n > 0 {
        let less = (n - 1) as nat;
        lemma_instances_show(
            added,
            last,
            frame,
            map,
            group,
            style,
            less,
            source,
            context,
            turns,
        );
        let before = with_instances(added, last, frame, map, group, style, less);
        let old_ids = instance_ids(added, last, frame, map, group, style, less);
        let place = group[n - 1].1;
        lemma_has_frame_later(added, before, frame);
        let id = mapped_id(before, last, place);
        let placement = lemma_mapped(before, last, frame, map, source, context, place);
        let placed = with_mapped(before, last, frame, map, place);
        assert(is_instance_of(placed, id, source, context, placement));
        assert(shows(placed, id, group[n - 1].0, context, turns)) by {
            if let Some(p) = place {
                let k = choose|k: int|
                    0 <= k < turns.len() && (#[trigger] turns[k]).source == source
                        && turns[k].target == group[n - 1].0 && turns[k].place == p;
                assert(stands_at(
                    placed,
                    placement,
                    turns[k].place.x,
                    turns[k].place.y,
                    turns[k].place.z,
                    turns[k].place.quarter as nat,
                ));
                assert(turns_into(placed, placement, turns, source, group[n - 1].0));
            }
        }
        lemma_styled(placed, last, style, id);
        let all = with_style(placed, last, style, id);
        let ids = instance_ids(added, last, frame, map, group, style, n);
        assert forall|i: int| 0 <= i < n implies shows(
            all,
            #[trigger] ids[i],
            group[i].0,
            context,
            turns,
        ) by {
            if i < n - 1 {
                assert(ids[i] == old_ids[i]);
                lemma_shows_later(before, placed, ids[i], group[i].0, context, turns);
            }
            lemma_shows_later(placed, all, ids[i], group[i].0, context, turns);
        }
        assert(finds_as(all, added)) by {
            assert forall|x: u64| record_at(added, x) is Some implies #[trigger] record_at(all, x)
                == record_at(added, x) by {
                assert(record_at(before, x) == record_at(added, x));
                assert(record_at(placed, x) == record_at(before, x));
            }
        }
    }
}

proof fn lemma_replaced(
    group: Seq<(u64, Option<PlaceView>)>,
    ids: Seq<u64>,
    n: nat,
    key: u64,
)
    requires
        n <= group.len(),
        replacements(group, ids, n).contains_key(key),
    ensures
        exists|i: int|
            0 <= i < n && (#[trigger] group[i]).0 == key && replacements(group, ids, n)[key]
                == ids[i],
    decreases n,
{
    if n > 0 {
        if group[n - 1].0 != key {
            lemma_replaced(group, ids, (n - 1) as nat, key);
        } else {
            assert(group[n - 1].0 == key);
        }
    }
}

/// Whether an entity shows what another one did.
spec fn entity_shows(
    entities: Seq<EntityView>,
    before: EntityView,
    after: EntityView,
    turns: Seq<TurnView>,
) -> bool {
    ||| after == before
    ||| {
        &&& after.id() == before.id()
        &&& simple_record(before) matches Some(old)
        &&& simple_record(after) matches Some(new)
        &&& record_shows(entities, old, new, turns)
    }
}

proof fn lemma_record_shows_later(
    less: Seq<EntityView>,
    more: Seq<EntityView>,
    before: RecordView,
    after: RecordView,
    turns: Seq<TurnView>,
)
    requires
        finds_as(more, less),
        record_shows(less, before, after, turns),
    ensures
        record_shows(more, before, after, turns),
{
    if after != before {
        let items = before.parameter->List_0[1]->List_0;
        let shown = after.parameter->List_0[1]->List_0;
        assert forall|n: int| 0 <= n < items.len() implies item_shows(
            more,
            items[n],
            #[trigger] shown[n],
            nth_ref(before, 2),
            turns,
        ) by {
            assert(item_shows(less, items[n], shown[n], nth_ref(before, 2), turns));
            if shown[n] != items[n] {
                lemma_shows_later(
                    less,
                    more,
                    ref_value(shown[n])->Some_0,
                    ref_value(items[n])->Some_0,
                    nth_ref(before, 2)->Some_0,
                    turns,
                );
            }
        }
    }
}

/// What holds of the pass at every step.
spec fn goes_on(
    state: ProgressView,
    origin: Seq<EntityView>,
    last: u64,
    turns: Seq<TurnView>,
) -> bool {
    &&& state.base.len() == origin.len()
    &&& numbered_upto(origin, last)
    &&& numbered_from(state.added, last)
    &&& forall|i: int| 0 <= i < origin.len() ==> (#[trigger] state.base[i]).id() == origin[i].id()
    &&& forall|i: int|
        0 <= i < origin.len() ==> entity_shows(
            state.added,
            origin[i],
            #[trigger] state.base[i],
            turns,
        )
}

spec fn all_upto(ids: Seq<u64>, last: u64) -> bool {
    forall|i: int| 0 <= i < ids.len() ==> #[trigger] ids[i] <= last
}

/// One more replacement of items.
proof fn lemma_swapped(
    less: Seq<EntityView>,
    more: Seq<EntityView>,
    last: u64,
    origin: EntityView,
    base: EntityView,
    map: Map<u64, u64>,
    context: u64,
    turns: Seq<TurnView>,
)
    requires
        numbered_from(less, last),
        finds_as(more, less),
        entity_shows(less, origin, base, turns),
        items_and_context(base) matches Some((_, c)) && c == context,
        forall|key: u64| #[trigger]
            map.contains_key(key) ==> key <= last && shows(more, map[key], key, context, turns),
    ensures
        entity_shows(more, origin, swapped(base, map), turns),
        items_and_context(swapped(base, map)) matches Some((_, c)) ==> c == context,
        swapped(base, map).id() == base.id(),
        items_and_context(swapped(base, map)) is Some,
{
    let old = simple_record(origin)->Some_0;
    let now = simple_record(base)->Some_0;
    let params = now.parameter->List_0;
    let next = swapped(base, map);
    assert(record_shows(less, old, now, turns));
    lemma_record_shows_later(less, more, old, now, turns);
    assert(nth_ref(old, 2) == Some(context));
    let items = params[1]->List_0;
    let after = simple_record(next)->Some_0;
    let first = old.parameter->List_0[1]->List_0;
    let shown = after.parameter->List_0[1]->List_0;
    assert(shown.len() == items.len());
    assert forall|n: int| 0 <= n < first.len() implies item_shows(
        more,
        first[n],
        #[trigger] shown[n],
        nth_ref(old, 2),
        turns,
    ) by {
        assert(shown[n] == swapped_item(items[n], map));
        assert(now != old ==> item_shows(more, first[n], items[n], nth_ref(old, 2), turns));
        assert(now != old ==> item_shows(less, first[n], items[n], nth_ref(old, 2), turns));
        if shown[n] != items[n] {
            let key = ref_value(items[n])->Some_0;
            assert(map.contains_key(key));
            if items[n] != first[n] {
                lemma_shown_is_new(
                    less,
                    last,
                    key,
                    ref_value(first[n])->Some_0,
                    context,
                    turns,
                );
            }
        }
    }
    assert(record_shows(more, old, after, turns)) by {
        let op = old.parameter->List_0;
        let np = after.parameter->List_0;
        assert forall|n: int| 0 <= n < op.len() && n != 1 implies #[trigger] np[n] == op[n] by {
            assert(params[n] == op[n]);
        }
    }
}

proof fn lemma_shown_is_new(
    added: Seq<EntityView>,
    last: u64,
    id: u64,
    solid: u64,
    context: u64,
    turns: Seq<TurnView>,
)
    requires
        numbered_from(added, last),
        shows(added, id, solid, context, turns),
    ensures
        id > last,
{
    lemma_position(added, id);
    assert(added[position(added, id)->Some_0].id() == id);
}

proof fn lemma_of_type_upto(entities: Seq<EntityView>, ids: Seq<u64>, name: Seq<char>, last: u64)
    requires
        numbered_upto(entities, last),
    ensures
        all_upto(of_type(entities, ids, name), last),
    decreases ids.len(),
{
    if ids.len() > 0 {
        let rest = of_type(entities, ids.drop_last(), name);
        let all = of_type(entities, ids, name);
        lemma_of_type_upto(entities, ids.drop_last(), name, last);
        lemma_position(entities, ids.last());
        assert forall|i: int| 0 <= i < all.len() implies #[trigger] all[i] <= last by {
            if i < rest.len() {
                assert(all[i] == rest[i]);
            } else {
                assert(entities[position(entities, ids.last())->Some_0].id() <= last);
            }
        }
    }
}

proof fn lemma_infos_upto(
    origin: Seq<EntityView>,
    entities: Seq<EntityView>,
    shape: Map<u64, u64>,
    roots: Seq<u64>,
    last: u64,
)
    requires
        all_upto(roots, last),
    ensures
        forall|i: int|
            0 <= i < infos(origin, entities, shape, roots).len() ==> (#[trigger] infos(
                origin,
                entities,
                shape,
                roots,
            )[i]).root <= last,
    decreases roots.len(),
{
    if roots.len() > 0 {
        assert forall|i: int| 0 <= i < roots.len() - 1 implies #[trigger] roots.drop_last()[i]
            <= last by {
            assert(roots[i] <= last);
        }
        lemma_infos_upto(origin, entities, shape, roots.drop_last(), last);
        let rest = infos(origin, entities, shape, roots.drop_last());
        let all = infos(origin, entities, shape, roots);
        assert(roots[roots.len() - 1] <= last);
        assert forall|i: int| 0 <= i < all.len() implies (#[trigger] all[i]).root <= last by {
            if i < rest.len() {
                assert(all[i] == rest[i]);
            }
        }
    }
}

proof fn lemma_members_upto(known: Seq<InfoView>, like: InfoView, n: nat, last: u64)
    requires
        n <= known.len(),
        forall|i: int| 0 <= i < known.len() ==> (#[trigger] known[i]).root <= last,
    ensures
        all_upto(members(known, like, n), last),
    decreases n,
{
    if n > 0 {
        lemma_members_upto(known, like, (n - 1) as nat, last);
        let rest = members(known, like, (n - 1) as nat);
        let all = members(known, like, n);
        assert(known[n - 1].root <= last);
        assert forall|i: int| 0 <= i < all.len() implies #[trigger] all[i] <= last by {
            if i < rest.len() {
                assert(all[i] == rest[i]);
            }
        }
    }
}

proof fn lemma_inserted_upto(sorted: Seq<u64>, id: u64, last: u64)
    requires
        all_upto(sorted, last),
        id <= last,
    ensures
        all_upto(crate::instances::inserted(sorted, id), last),
    decreases sorted.len(),
{
    if sorted.len() > 0 && sorted.last() > id {
        assert forall|i: int| 0 <= i < sorted.len() - 1 implies #[trigger] sorted.drop_last()[i]
            <= last by {
            assert(sorted[i] <= last);
        }
        assert(sorted[sorted.len() - 1] <= last);
        lemma_inserted_upto(sorted.drop_last(), id, last);
    }
}

proof fn lemma_order_upto(ids: Seq<u64>, last: u64)
    requires
        all_upto(ids, last),
    ensures
        all_upto(in_order(ids), last),
    decreases ids.len(),
{
    if ids.len() > 0 {
        assert forall|i: int| 0 <= i < ids.len() - 1 implies #[trigger] ids.drop_last()[i]
            <= last by {
            assert(ids[i] <= last);
        }
        lemma_order_upto(ids.drop_last(), last);
        assert(ids[ids.len() - 1] <= last);
        lemma_inserted_upto(in_order(ids.drop_last()), ids.last(), last);
    }
}

proof fn lemma_group_goes_on(
    state: ProgressView,
    origin: Seq<EntityView>,
    start: Seq<EntityView>,
    last: u64,
    turns: Seq<TurnView>,
    at: int,
    context: u64,
    roots: Seq<u64>,
    style: Seq<u64>,
)
    requires
        goes_on(state, origin, last, turns),
        0 <= at < origin.len(),
        items_and_context(state.base[at]) matches Some((_, c)) && c == context,
        all_upto(roots, last),
    ensures
        after_group(state, start, last, turns, at, context, roots, style) matches Some(next) ==> {
            &&& goes_on(next, origin, last, turns)
            &&& items_and_context(next.base[at]) matches Some((_, c))
            &&& c == context
        },
{
    if let Some(next) = after_group(state, start, last, turns, at, context, roots, style) {
        let group = placed(turns, roots, roots.len());
        if group.len() >= 2 {
            let frame = fresh(state.added, last);
            let framed = with_frame(state.added, last);
            let map = (fresh(framed, last) + 1) as u64;
            let name = "step-redox instance source"@;
            let sourced = with_source(framed, last, name, roots[0], frame, context);
            lemma_frame(state.added, last);
            lemma_source(framed, last, name, roots[0], frame, context);
            lemma_has_frame_later(framed, sourced, frame);
            lemma_group(turns, roots, roots.len());
            lemma_instances_show(
                sourced,
                last,
                frame,
                map,
                group,
                style,
                group.len(),
                roots[0],
                context,
                turns,
            );
            let ids = instance_ids(sourced, last, frame, map, group, style, group.len());
            let all = with_instances(sourced, last, frame, map, group, style, group.len());
            let swaps = replacements(group, ids, group.len());
            assert(finds_as(all, state.added)) by {
                assert forall|x: u64| record_at(state.added, x) is Some implies #[trigger] record_at(
                    all,
                    x,
                ) == record_at(state.added, x) by {
                    assert(record_at(framed, x) == record_at(state.added, x));
                    assert(record_at(sourced, x) == record_at(framed, x));
                }
            }
            assert forall|key: u64| #[trigger] swaps.contains_key(key) implies key <= last
                && shows(all, swaps[key], key, context, turns) by {
                lemma_replaced(group, ids, group.len(), key);
                let i = choose|i: int|
                    0 <= i < group.len() && (#[trigger] group[i]).0 == key && swaps[key] == ids[i];
                assert(roots.contains(group[i].0));
                assert(shows(all, ids[i], group[i].0, context, turns));
            }
            assert(entity_shows(state.added, origin[at], state.base[at], turns));
            lemma_swapped(
                state.added,
                all,
                last,
                origin[at],
                state.base[at],
                swaps,
                context,
                turns,
            );
            assert forall|i: int| 0 <= i < origin.len() implies entity_shows(
                all,
                origin[i],
                #[trigger] next.base[i],
                turns,
            ) && next.base[i].id() == origin[i].id() by {
                assert(state.base[i].id() == origin[i].id());
                if i != at {
                    assert(entity_shows(state.added, origin[i], state.base[i], turns));
                    if state.base[i] != origin[i] {
                        lemma_record_shows_later(
                            state.added,
                            all,
                            simple_record(origin[i])->Some_0,
                            simple_record(state.base[i])->Some_0,
                            turns,
                        );
                    }
                }
            }
        }
    }
}

proof fn lemma_groups_go_on(
    state: ProgressView,
    origin: Seq<EntityView>,
    last: u64,
    turns: Seq<TurnView>,
    at: int,
    context: u64,
    known: Seq<InfoView>,
    n: nat,
)
    requires
        n <= known.len(),
        goes_on(state, origin, last, turns),
        0 <= at < origin.len(),
        items_and_context(state.base[at]) matches Some((_, c)) && c == context,
        forall|i: int| 0 <= i < known.len() ==> (#[trigger] known[i]).root <= last,
    ensures
        after_groups(state, last, turns, at, context, known, n) matches Some(next) ==> {
            &&& goes_on(next, origin, last, turns)
            &&& items_and_context(next.base[at]) matches Some((_, c))
            &&& c == context
        },
    decreases n,
{
    if n > 0 {
        lemma_groups_go_on(state, origin, last, turns, at, context, known, (n - 1) as nat);
        if let Some(now) = after_groups(
            state,
            last,
            turns,
            at,
            context,
            known,
            (n - 1) as nat,
        ) {
            lemma_members_upto(known, known[n - 1], known.len(), last);
            lemma_order_upto(members(known, known[n - 1], known.len()), last);
            lemma_group_goes_on(
                now,
                origin,
                state.base,
                last,
                turns,
                at,
                context,
                in_order(members(known, known[n - 1], known.len())),
                known[n - 1].style,
            );
        }
    }
}

proof fn lemma_first_fits(entities: Seq<EntityView>, id: u64)
    ensures
        first_position(entities, id) matches Some(at) ==> 0 <= at < entities.len(),
    decreases entities.len(),
{
    if entities.len() > 0 {
        lemma_first_fits(entities.drop_last(), id);
    }
}

proof fn lemma_reps_go_on(
    origin: Seq<EntityView>,
    shape: Map<u64, u64>,
    turns: Seq<TurnView>,
    n: nat,
)
    ensures
        after_reps(origin, shape, turns, n) matches Some(state) ==> goes_on(
            state,
            origin,
            max_id(origin),
            turns,
        ),
    decreases n,
{
    let last = max_id(origin);
    assert forall|i: int| 0 <= i < origin.len() implies (#[trigger] origin[i]).id() <= last by {
        lemma_max_id(origin, i);
    }
    if n > 0 {
        lemma_reps_go_on(origin, shape, turns, (n - 1) as nat);
        if let Some(state) = after_reps(origin, shape, turns, (n - 1) as nat) {
            let rep = origin[n - 1].id();
            lemma_first_fits(state.base, rep);
            if let Some(at) = first_position(state.base, rep) {
                if let Some((items, context)) = items_and_context(state.base[at]) {
                    let name = "MANIFOLD_SOLID_BREP"@;
                    let roots = of_type(state.base, items, name);
                    assert forall|i: int| 0 <= i < state.base.len() implies (
                    #[trigger] state.base[i]).id() <= last by {
                        assert(state.base[i].id() == origin[i].id());
                    }
                    lemma_of_type_upto(state.base, items, name, last);
                    lemma_infos_upto(origin, state.base, shape, roots, last);
                    let known = infos(origin, state.base, shape, roots);
                    lemma_groups_go_on(
                        state,
                        origin,
                        last,
                        turns,
                        at,
                        context,
                        known,
                        known.len(),
                    );
                }
            }
        }
    }
}

proof fn lemma_placement_stays(
    done: Seq<EntityView>,
    gone: Set<u64>,
    id: u64,
    x: Seq<char>,
    y: Seq<char>,
    z: Seq<char>,
    quarters: nat,
)
    requires
        keeps_targets(done, gone),
        !gone.contains(id),
        stands_at(done, id, x, y, z, quarters),
    ensures
        stands_at(without(done, gone), id, x, y, z, quarters),
{
    let record = record_at(done, id)->Some_0;
    lemma_left_found(done, gone, id);
    lemma_ref_stays(done, gone, id, 1, nth_ref(record, 1)->Some_0);
    lemma_ref_stays(done, gone, id, 2, nth_ref(record, 2)->Some_0);
    lemma_ref_stays(done, gone, id, 3, nth_ref(record, 3)->Some_0);
}

proof fn lemma_instance_stays(
    done: Seq<EntityView>,
    gone: Set<u64>,
    id: u64,
    solid: u64,
    context: u64,
    turns: Seq<TurnView>,
)
    requires
        keeps_targets(done, gone),
        !gone.contains(id),
        shows(done, id, solid, context, turns),
    ensures
        shows(without(done, gone), id, solid, context, turns),
{
    let left = without(done, gone);
    let (source, placement) = choose|source: u64, placement: u64| #[trigger]
        is_instance_of(done, id, source, context, placement) && (turns_into(
            done,
            placement,
            turns,
            source,
            solid,
        ) || (source == solid && stands_at(done, placement, "0"@, "0"@, "0"@, 0)));
    let record = record_at(done, id)->Some_0;
    let map = nth_ref(record, 1)->Some_0;
    let mapped = record_at(done, map)->Some_0;
    lemma_left_found(done, gone, id);
    lemma_ref_stays(done, gone, id, 1, map);
    lemma_ref_stays(done, gone, id, 2, placement);
    lemma_ref_stays(done, gone, map, 0, nth_ref(mapped, 0)->Some_0);
    lemma_ref_stays(done, gone, map, 1, nth_ref(mapped, 1)->Some_0);
    lemma_placement_stays(done, gone, nth_ref(mapped, 0)->Some_0, "0"@, "0"@, "0"@, 0);
    assert(is_instance_of(left, id, source, context, placement));
    if turns_into(done, placement, turns, source, solid) {
        let k = choose|k: int|
            0 <= k < turns.len() && (#[trigger] turns[k]).source == source && turns[k].target
                == solid && stands_at(
                done,
                placement,
                turns[k].place.x,
                turns[k].place.y,
                turns[k].place.z,
                turns[k].place.quarter as nat,
            );
        lemma_placement_stays(
            done,
            gone,
            placement,
            turns[k].place.x,
            turns[k].place.y,
            turns[k].place.z,
            turns[k].place.quarter as nat,
        );
        assert(turns_into(left, placement, turns, source, solid));
    } else {
        lemma_placement_stays(done, gone, placement, "0"@, "0"@, "0"@, 0);
    }
}

/// The new entities of the pass are no presentation roots, which alone are patched.
proof fn lemma_patched_finds(all: Seq<EntityView>, remove: Set<u64>, new: Seq<u64>, id: u64)
    ensures
        record_at(all, id) matches Some(record) ==> {
            ||| record.name == "MECHANICAL_DESIGN_GEOMETRIC_PRESENTATION_REPRESENTATION"@
            ||| record.name == "PRESENTATION_LAYER_ASSIGNMENT"@
            ||| record_at(all_patched(all, remove, new), id) == Some(record)
        },
        record_at(all_patched(all, remove, new), id) matches Some(record) ==> {
            ||| record.name == "MECHANICAL_DESIGN_GEOMETRIC_PRESENTATION_REPRESENTATION"@
            ||| record.name == "PRESENTATION_LAYER_ASSIGNMENT"@
            ||| record_at(all, id) == Some(record)
        },
{
    let done = all_patched(all, remove, new);
    assert forall|i: int| 0 <= i < all.len() implies (#[trigger] all[i]).id() == done[i].id() by {
        assert(done[i] == patched(all[i], remove, new));
    }
    lemma_changed_found(all, done, id);
    lemma_position(all, id);
    if let Some(i) = position(all, id) {
        assert(done[i] == patched(all[i], remove, new));
    }
}

pub proof fn lemma_no_roots()
    ensures
        ({
            let a = "MECHANICAL_DESIGN_GEOMETRIC_PRESENTATION_REPRESENTATION"@;
            let b = "PRESENTATION_LAYER_ASSIGNMENT"@;
            &&& "MAPPED_ITEM"@ != a && "MAPPED_ITEM"@ != b
            &&& "REPRESENTATION_MAP"@ != a && "REPRESENTATION_MAP"@ != b
            &&& "ADVANCED_BREP_SHAPE_REPRESENTATION"@ != a && "ADVANCED_BREP_SHAPE_REPRESENTATION"@
                != b
            &&& "AXIS2_PLACEMENT_3D"@ != a && "AXIS2_PLACEMENT_3D"@ != b
            &&& "CARTESIAN_POINT"@ != a && "CARTESIAN_POINT"@ != b
            &&& "DIRECTION"@ != a && "DIRECTION"@ != b
        }),
{
    reveal_strlit("MECHANICAL_DESIGN_GEOMETRIC_PRESENTATION_REPRESENTATION");
    reveal_strlit("PRESENTATION_LAYER_ASSIGNMENT");
    reveal_strlit("MAPPED_ITEM");
    reveal_strlit("REPRESENTATION_MAP");
    reveal_strlit("ADVANCED_BREP_SHAPE_REPRESENTATION");
    reveal_strlit("AXIS2_PLACEMENT_3D");
    reveal_strlit("CARTESIAN_POINT");
    reveal_strlit("DIRECTION");
    assert("MECHANICAL_DESIGN_GEOMETRIC_PRESENTATION_REPRESENTATION"@.len() == 55);
    assert("PRESENTATION_LAYER_ASSIGNMENT"@.len() == 29);
    assert("MAPPED_ITEM"@.len() == 11);
    assert("REPRESENTATION_MAP"@.len() == 18);
    assert("ADVANCED_BREP_SHAPE_REPRESENTATION"@.len() == 34);
    assert("AXIS2_PLACEMENT_3D"@.len() == 18);
    assert("CARTESIAN_POINT"@.len() == 15);
    assert("DIRECTION"@.len() == 9);
}

proof fn lemma_placement_patched(
    all: Seq<EntityView>,
    remove: Set<u64>,
    new: Seq<u64>,
    id: u64,
    x: Seq<char>,
    y: Seq<char>,
    z: Seq<char>,
    quarters: nat,
)
    requires
        stands_at(all, id, x, y, z, quarters),
    ensures
        stands_at(all_patched(all, remove, new), id, x, y, z, quarters),
{
    lemma_no_roots();
    let record = record_at(all, id)->Some_0;
    lemma_patched_finds(all, remove, new, id);
    lemma_patched_finds(all, remove, new, nth_ref(record, 1)->Some_0);
    lemma_patched_finds(all, remove, new, nth_ref(record, 2)->Some_0);
    lemma_patched_finds(all, remove, new, nth_ref(record, 3)->Some_0);
}

proof fn lemma_shows_patched(
    all: Seq<EntityView>,
    remove: Set<u64>,
    new: Seq<u64>,
    id: u64,
    solid: u64,
    context: u64,
    turns: Seq<TurnView>,
)
    requires
        shows(all, id, solid, context, turns),
    ensures
        shows(all_patched(all, remove, new), id, solid, context, turns),
{
    lemma_no_roots();
    let done = all_patched(all, remove, new);
    let (source, placement) = choose|source: u64, placement: u64| #[trigger]
        is_instance_of(all, id, source, context, placement) && (turns_into(
            all,
            placement,
            turns,
            source,
            solid,
        ) || (source == solid && stands_at(all, placement, "0"@, "0"@, "0"@, 0)));
    let record = record_at(all, id)->Some_0;
    let map = nth_ref(record, 1)->Some_0;
    let mapped = record_at(all, map)->Some_0;
    lemma_patched_finds(all, remove, new, id);
    lemma_patched_finds(all, remove, new, map);
    lemma_patched_finds(all, remove, new, nth_ref(mapped, 1)->Some_0);
    lemma_placement_patched(
        all,
        remove,
        new,
        nth_ref(mapped, 0)->Some_0,
        "0"@,
        "0"@,
        "0"@,
        0,
    );
    assert(is_instance_of(done, id, source, context, placement));
    if turns_into(all, placement, turns, source, solid) {
        let k = choose|k: int|
            0 <= k < turns.len() && (#[trigger] turns[k]).source == source && turns[k].target
                == solid && stands_at(
                all,
                placement,
                turns[k].place.x,
                turns[k].place.y,
                turns[k].place.z,
                turns[k].place.quarter as nat,
            );
        lemma_placement_patched(
            all,
            remove,
            new,
            placement,
            turns[k].place.x,
            turns[k].place.y,
            turns[k].place.z,
            turns[k].place.quarter as nat,
        );
        assert(turns_into(done, placement, turns, source, solid));
    } else {
        lemma_placement_patched(all, remove, new, placement, "0"@, "0"@, "0"@, 0);
    }
}

/// Making solids instances keeps what every entity shows: an entity that is left and is no
/// presentation root is what it was, but that some of its items, which were solids, are
/// instances. Each of these stands in the result as an instance of a solid that was measured to
/// be the one in whose place it stands when it is turned by some quarters and moved, and its
/// placement turns and moves it by just these: the reference direction of the placement has the
/// cosine and the sine of the quarters as its coordinates, and its point is the one measured.
pub proof fn law_instances_stand_where_solids_stood(
    entities: Seq<EntityView>,
    evidence: InstanceEvidence,
    result: Seq<EntityView>,
    stats: InstanceStats,
    id: u64,
)
    requires
        instances_made(entities, evidence, result, stats),
        id <= max_id(entities),
        record_at(result, id) matches Some(record) && record.name
            != "MECHANICAL_DESIGN_GEOMETRIC_PRESENTATION_REPRESENTATION"@ && record.name
            != "PRESENTATION_LAYER_ASSIGNMENT"@,
    ensures
        record_at(entities, id) matches Some(before) && record_shows(
            result,
            before,
            record_at(result, id)->Some_0,
            turns_view(evidence.turns@),
        ),
{
    let turns = turns_view(evidence.turns@);
    let last = max_id(entities);
    lemma_reps_go_on(entities, evidence.shape_class@, turns, entities.len());
    if let Some(state) = after_reps(entities, evidence.shape_class@, turns, entities.len()) {
        if state.groups > 0 {
            let old = styles_of(entities, state.geometry);
            let all = state.base + state.added;
            let done = all_patched(all, old.to_set(), state.styles);
            let candidates = state.geometry + old;
            let seeds = state.roots.to_set().union(old.to_set());
            let keep = crate::instances::loose(done, candidates, seeds);
            let gone = crate::instances::given_up(done, candidates, seeds);
            assert forall|i: int| 0 <= i < state.base.len() implies (#[trigger] state.base[i]).id()
                <= last by {
                assert(state.base[i].id() == entities[i].id());
                lemma_max_id(entities, i);
            }
            lemma_joined_found(state.base, state.added, last);
            lemma_dead_keeps(done, candidates, keep);
            assert(keeps_targets(done, gone));
            lemma_left_found(done, gone, id);
            lemma_patched_finds(all, old.to_set(), state.styles, id);
            lemma_changed_found(state.base, entities, id);
            lemma_position(state.base, id);
            let after = record_at(result, id)->Some_0;
            assert(record_at(all, id) == record_at(state.base, id));
            let at = position(state.base, id)->Some_0;
            assert(entity_shows(state.added, entities[at], state.base[at], turns));
            if state.base[at] != entities[at] {
                let before = simple_record(entities[at])->Some_0;
                assert(record_at(entities, id) == Some(before));
                lemma_record_shows_later(state.added, all, before, after, turns);
                if after != before {
                    let items = before.parameter->List_0[1]->List_0;
                    let shown = after.parameter->List_0[1]->List_0;
                    assert forall|n: int| 0 <= n < items.len() implies item_shows(
                        result,
                        items[n],
                        #[trigger] shown[n],
                        nth_ref(before, 2),
                        turns,
                    ) by {
                        assert(item_shows(all, items[n], shown[n], nth_ref(before, 2), turns));
                        if shown[n] != items[n] {
                            let item = ref_value(shown[n])->Some_0;
                            let solid = ref_value(items[n])->Some_0;
                            let context = nth_ref(before, 2)->Some_0;
                            lemma_shows_patched(
                                all,
                                old.to_set(),
                                state.styles,
                                item,
                                solid,
                                context,
                                turns,
                            );
                            assert(crate::refs::param_refs(shown[n]) =~= seq![item]);
                            assert(crate::refs::param_refs(shown[n])[0] == item);
                            crate::lookup::lemma_list_refers(shown, n, item);
                            lemma_target_stays(done, gone, id, 1, item);
                            lemma_instance_stays(done, gone, item, solid, context, turns);
                        }
                    }
                }
            }
        }
    }
}

} // verus!
