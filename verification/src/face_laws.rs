//! What faces, their bounds, and solids made of faces keep.

use vstd::prelude::*;

use crate::ast::{EntityView, ParamView};
use crate::face_coalesce::truth;
use crate::graph::{nth, nth_ref, nth_ref_list, record_at};
use crate::instance_laws::{
    has_frame, is_instance_of, lemma_has_frame_later, lemma_mapped, lemma_source, lemma_styled,
    maps_solid, stands_at,
};
use crate::lookup::{finds_as, lemma_new_finds_as, lemma_new_found, lemma_ref_params, numbered_from};
use crate::placements::{fresh, mapped_id, room, with_mapped, with_source, PlaceView};
use crate::planar_features::{
    after_family, feature_place, look_styles, offset_of, quarters, with_family, with_solid,
    with_styles, GrownView, HostView, OffsetView, PlanarView,
};
use crate::planar_plan::FeatureView;

verus! {

/// Whether a solid is closed by one face: its shell lists some faces and, at the end, one more,
/// which lies on a surface and looks against a sense. That face has one bound, on a loop that it
/// takes against an orientation.
pub open spec fn closes(
    entities: Seq<EntityView>,
    solid: u64,
    feature: FeatureView,
    surface: u64,
    sense: bool,
) -> bool {
    &&& record_at(entities, solid) matches Some(body)
    &&& body.name == "MANIFOLD_SOLID_BREP"@
    &&& nth_ref(body, 1) matches Some(shell)
    &&& record_at(entities, shell) matches Some(skin)
    &&& skin.name == "CLOSED_SHELL"@
    &&& nth_ref_list(skin, 1) matches Some(faces)
    &&& faces.len() == feature.faces.len() + 1
    &&& faces.drop_last() == feature.faces
    &&& record_at(entities, faces.last()) matches Some(lid)
    &&& lid.name == "ADVANCED_FACE"@
    &&& nth_ref(lid, 2) == Some(surface)
    &&& says(nth(lid, 3), !sense)
    &&& nth_ref_list(lid, 1) matches Some(bounds)
    &&& bounds.len() == 1
    &&& record_at(entities, bounds[0]) matches Some(bound)
    &&& bound.name == "FACE_OUTER_BOUND"@
    &&& nth_ref(bound, 1) == Some(feature.bound.loop_id)
    &&& says(nth(bound, 2), !feature.bound.orientation)
}

/// Whether a parameter is a truth value.
pub open spec fn says(p: Option<ParamView>, value: bool) -> bool {
    if value {
        p == Some(ParamView::Enumeration("T"@))
    } else {
        p == Some(ParamView::Enumeration("F"@))
    }
}

proof fn lemma_closed(
    added: Seq<EntityView>,
    last: u64,
    feature: FeatureView,
    surface: u64,
    sense: bool,
)
    requires
        numbered_from(added, last),
        room(added, last, 4),
    ensures
        ({
            let all = with_solid(added, last, feature, surface, sense);
            &&& all.len() == added.len() + 4
            &&& numbered_from(all, last)
            &&& finds_as(all, added)
            &&& closes(all, (fresh(added, last) + 3) as u64, feature, surface, sense)
        }),
{
    let all = with_solid(added, last, feature, surface, sense);
    let n = added.len() as int;
    let id = fresh(added, last);
    assert forall|j: int| 0 <= j < all.len() implies (#[trigger] all[j]).id() == last + 1 + j by {
        if j < n {
            assert(all[j] == added[j]);
        }
    }
    lemma_new_finds_as(added, all, last);
    lemma_new_found(all, last, n);
    lemma_new_found(all, last, n + 1);
    lemma_new_found(all, last, n + 2);
    lemma_new_found(all, last, n + 3);
    let faces = feature.faces.push((id + 1) as u64);
    lemma_ref_params(seq![id]);
    lemma_ref_params(faces);
    assert(faces.drop_last() =~= feature.faces);
}

/// Whether an entity is an instance of a solid at a place; nothing means where the solid is.
pub open spec fn is_placed(
    entities: Seq<EntityView>,
    id: u64,
    solid: u64,
    context: u64,
    place: Option<PlaceView>,
) -> bool {
    exists|placement: u64| #[trigger]
        is_instance_of(entities, id, solid, context, placement) && match place {
            None => stands_at(entities, placement, "0"@, "0"@, "0"@, 0),
            Some(p) => stands_at(entities, placement, p.x, p.y, p.z, p.quarter as nat),
        }
}

proof fn lemma_placed_later(
    less: Seq<EntityView>,
    more: Seq<EntityView>,
    id: u64,
    solid: u64,
    context: u64,
    place: Option<PlaceView>,
)
    requires
        finds_as(more, less),
        is_placed(less, id, solid, context, place),
    ensures
        is_placed(more, id, solid, context, place),
{
    let placement = choose|placement: u64| #[trigger]
        is_instance_of(less, id, solid, context, placement) && match place {
            None => stands_at(less, placement, "0"@, "0"@, "0"@, 0),
            Some(p) => stands_at(less, placement, p.x, p.y, p.z, p.quarter as nat),
        };
    assert(is_instance_of(more, id, solid, context, placement));
}

proof fn lemma_with_styles(
    added: Seq<EntityView>,
    last: u64,
    styles: Seq<Seq<u64>>,
    target: u64,
    n: nat,
)
    requires
        numbered_from(added, last),
        room(added, last, n as int),
        n <= styles.len(),
    ensures
        numbered_from(with_styles(added, last, styles, target, n), last),
        finds_as(with_styles(added, last, styles, target, n), added),
        with_styles(added, last, styles, target, n).len() == added.len() + n,
        forall|i: int|
            0 <= i < n ==> is_styled(
                with_styles(added, last, styles, target, n),
                (fresh(added, last) + i) as u64,
                #[trigger] styles[i],
                target,
            ),
    decreases n,
{
    if n > 0 {
        let before = with_styles(added, last, styles, target, (n - 1) as nat);
        let all = with_styles(added, last, styles, target, n);
        lemma_with_styles(added, last, styles, target, (n - 1) as nat);
        lemma_styled(before, last, styles[n - 1], target);
        lemma_new_found(all, last, before.len() as int);
        lemma_ref_params(styles[n - 1]);
        assert forall|i: int| 0 <= i < n implies is_styled(
            all,
            (fresh(added, last) + i) as u64,
            #[trigger] styles[i],
            target,
        ) by {
            if i < n - 1 {
                assert(is_styled(before, (fresh(added, last) + i) as u64, styles[i], target));
            }
        }
    }
}

/// Whether a styled item gives some styles to an item.
pub open spec fn is_styled(
    entities: Seq<EntityView>,
    id: u64,
    styles: Seq<u64>,
    target: u64,
) -> bool {
    &&& record_at(entities, id) matches Some(record)
    &&& record.name == "STYLED_ITEM"@
    &&& nth_ref_list(record, 1) == Some(styles)
    &&& nth_ref(record, 2) == Some(target)
}

/// Whether one of some entities gives some styles to an item.
pub open spec fn is_shown(
    entities: Seq<EntityView>,
    items: Seq<u64>,
    styles: Seq<u64>,
    target: u64,
) -> bool {
    exists|k: int| 0 <= k < items.len() && is_styled(entities, #[trigger] items[k], styles, target)
}

/// Whether all instances of a family stand at their places and look alike.
pub open spec fn stand_and_look(
    entities: Seq<EntityView>,
    instances: Seq<u64>,
    looks: Seq<u64>,
    solid: u64,
    context: u64,
    places: Seq<Option<PlaceView>>,
    styles: Seq<Seq<u64>>,
    n: int,
) -> bool {
    &&& instances.len() == n
    &&& forall|i: int|
        0 <= i < n ==> is_placed(entities, #[trigger] instances[i], solid, context, places[i])
    &&& forall|i: int, s: int|
        #![trigger instances[i], styles[s]]
        0 <= i < n && 0 <= s < styles.len() ==> is_shown(
            entities,
            looks,
            styles[s],
            instances[i],
        )
}

#[verifier::spinoff_prover]
#[verifier::rlimit(40)]
proof fn lemma_family(
    start: GrownView,
    last: u64,
    frame: u64,
    map: u64,
    solid: u64,
    context: u64,
    places: Seq<Option<PlaceView>>,
    styles: Seq<Seq<u64>>,
    n: nat,
)
    requires
        numbered_from(start.added, last),
        room(start.added, last, ((3 + styles.len()) * n) as int),
        has_frame(start.added, frame),
        maps_solid(start.added, map, solid, context),
        n <= places.len(),
        start.styles.len() == 0,
    ensures
        ({
            let grown = with_family(start, last, frame, map, places, styles, n);
            &&& numbered_from(grown.added, last)
            &&& grown.added.len() <= start.added.len() + (3 + styles.len()) * n
            &&& finds_as(grown.added, start.added)
            &&& grown.mapped.len() == start.mapped.len() + n
            &&& grown.mapped.take(start.mapped.len() as int) == start.mapped
            &&& stand_and_look(
                grown.added,
                grown.mapped.skip(start.mapped.len() as int),
                grown.styles,
                solid,
                context,
                places,
                styles,
                n as int,
            )
        }),
    decreases n,
{
    let m = start.mapped.len() as int;
    if n == 0 {
        assert(start.mapped.take(m) =~= start.mapped);
    } else {
        let k = (n - 1) as nat;
        assert((3 + styles.len()) * n == (3 + styles.len()) * k + 3 + styles.len())
            by (nonlinear_arith)
            requires
                n == k + 1,
        ;
        lemma_family(start, last, frame, map, solid, context, places, styles, k);
        let before = with_family(start, last, frame, map, places, styles, k);
        let grown = with_family(start, last, frame, map, places, styles, n);
        let placed = with_mapped(before.added, last, frame, map, places[n - 1]);
        let own = mapped_id(before.added, last, places[n - 1]);
        lemma_has_frame_later(start.added, before.added, frame);
        assert(maps_solid(before.added, map, solid, context));
        let placement = lemma_mapped(
            before.added,
            last,
            frame,
            map,
            solid,
            context,
            places[n - 1],
        );
        assert(is_placed(placed, own, solid, context, places[n - 1]));
        lemma_with_styles(placed, last, styles, own, styles.len());
        lemma_placed_later(placed, grown.added, own, solid, context, places[n - 1]);
        assert(grown.mapped.take(m) =~= before.mapped.take(m));
        let instances = grown.mapped.skip(m);
        let fewer = before.mapped.skip(m);
        assert(finds_as(grown.added, before.added));
        assert forall|i: int| 0 <= i < n implies is_placed(
            grown.added,
            #[trigger] instances[i],
            solid,
            context,
            places[i],
        ) by {
            if i < k {
                assert(instances[i] == fewer[i]);
                lemma_placed_later(
                    before.added,
                    grown.added,
                    fewer[i],
                    solid,
                    context,
                    places[i],
                );
            } else {
                assert(instances[i] == own);
            }
        }
        assert forall|i: int, s: int|
            #![trigger instances[i], styles[s]]
            0 <= i < n && 0 <= s < styles.len() implies is_shown(
            grown.added,
            grown.styles,
            styles[s],
            instances[i],
        ) by {
            if i < k {
                assert(instances[i] == fewer[i]);
                assert(is_shown(before.added, before.styles, styles[s], fewer[i]));
                let q = choose|q: int|
                    0 <= q < before.styles.len() && is_styled(
                        before.added,
                        #[trigger] before.styles[q],
                        styles[s],
                        fewer[i],
                    );
                assert(grown.styles[q] == before.styles[q]);
            } else {
                assert(instances[i] == own);
                let q = before.styles.len() + s;
                assert(grown.styles[q] == (fresh(placed, last) + s) as u64);
                assert(is_styled(grown.added, grown.styles[q], styles[s], own));
            }
        }
    }
}

/// A family of faces becomes as many instances as it has members, each at its place, with the
/// styles of the family. They are instances of one solid: the faces of the first member, closed
/// by a face on the surface of the host that looks the other way. Instances that there were
/// stay.
#[verifier::spinoff_prover]
#[verifier::rlimit(40)]
pub proof fn law_family_becomes_instances(
    state: PlanarView,
    mapped: Seq<u64>,
    host: HostView,
    group: Seq<FeatureView>,
    places: Seq<Option<PlaceView>>,
)
    requires
        numbered_from(state.added, host.last),
        has_frame(state.added, host.frame),
        group.len() == places.len(),
        after_family(state, mapped, host, group, places) is Some,
    ensures
        ({
            let (next, all) = after_family(state, mapped, host, group, places)->Some_0;
            let styles = look_styles(host.origin, host.place.container_id, group[0].look);
            &&& finds_as(next.added, state.added)
            &&& all.take(mapped.len() as int) == mapped
            &&& next.instances == state.instances + group.len()
            &&& exists|solid: u64, looks: Seq<u64>| #[trigger]
                stand_and_look(
                    next.added,
                    all.skip(mapped.len() as int),
                    looks,
                    solid,
                    host.place.context_id,
                    places,
                    styles,
                    group.len() as int,
                ) && closes(next.added, solid, group[0], host.surface, host.sense)
        }),
{
    let (next, all) = after_family(state, mapped, host, group, places)->Some_0;
    let styles = look_styles(host.origin, host.place.container_id, group[0].look);
    let last = host.last;
    let solid = (fresh(state.added, last) + 3) as u64;
    let closed = with_solid(state.added, last, group[0], host.surface, host.sense);
    assert(6 <= (6 + (3 + styles.len()) * group.len())) by (nonlinear_arith);
    lemma_closed(state.added, last, group[0], host.surface, host.sense);
    lemma_has_frame_later(state.added, closed, host.frame);
    let name = "step-redox planar positive feature source"@;
    lemma_source(closed, last, name, solid, host.frame, host.place.context_id);
    let sourced = with_source(closed, last, name, solid, host.frame, host.place.context_id);
    let map = (fresh(closed, last) + 1) as u64;
    lemma_has_frame_later(closed, sourced, host.frame);
    let start = GrownView { added: sourced, mapped, styles: Seq::empty() };
    lemma_family(
        start,
        last,
        host.frame,
        map,
        solid,
        host.place.context_id,
        places,
        styles,
        group.len(),
    );
    let grown = with_family(start, last, host.frame, map, places, styles, group.len());
    assert(closes(grown.added, solid, group[0], host.surface, host.sense));
    assert(stand_and_look(
        next.added,
        all.skip(mapped.len() as int),
        grown.styles,
        solid,
        host.place.context_id,
        places,
        styles,
        group.len() as int,
    ));
}

proof fn lemma_offset(offsets: Seq<OffsetView>, host: u64, source: u64, target: u64)
    ensures
        offset_of(offsets, host, source, target) matches Some(offset) ==> offsets.contains(offset)
            && offset.host == host && offset.source == source && offset.target == target,
    decreases offsets.len(),
{
    if offsets.len() > 0 {
        let front = offsets.drop_last();
        lemma_offset(front, host, source, target);
        assert(offsets[offsets.len() - 1] == offsets.last());
        if let Some(offset) = offset_of(front, host, source, target) {
            if front.contains(offset) {
                let k = choose|k: int| 0 <= k < front.len() && front[k] == offset;
                assert(offsets[k] == offset);
            }
        }
    }
}

/// A member of a family stands where it was measured to stand, seen from the first one, and is
/// turned by as many quarters as lead from its own turn to that of the first. The first one,
/// where it is measured not to move, stands where it is.
pub proof fn law_member_stands_where_measured(
    offsets: Seq<OffsetView>,
    host: u64,
    first: FeatureView,
    feature: FeatureView,
)
    ensures
        feature_place(offsets, host, first, feature) matches Some(place) ==> exists|k: int|
            {
                let offset = #[trigger] offsets[k];
                &&& 0 <= k < offsets.len()
                &&& offset.host == host
                &&& offset.source == first.faces[0]
                &&& offset.target == feature.faces[0]
                &&& match place {
                    None => offset.still && feature.quarter % 4 == first.quarter % 4,
                    Some(p) => {
                        &&& p.x == offset.x && p.y == offset.y && p.z == offset.z
                        &&& p.quarter < 4
                        &&& (feature.quarter + p.quarter) % 4 == first.quarter as int % 4
                        &&& !(p.quarter == 0 && offset.still)
                    },
                }
            },
        feature_place(offsets, host, first, feature) is None ==> offset_of(
            offsets,
            host,
            first.faces[0],
            feature.faces[0],
        ) is None,
{
    lemma_offset(offsets, host, first.faces[0], feature.faces[0]);
    if let Some(offset) = offset_of(offsets, host, first.faces[0], feature.faces[0]) {
        let k = choose|k: int| 0 <= k < offsets.len() && offsets[k] == offset;
        assert(offsets[k].host == host);
    }
}

} // verus!
