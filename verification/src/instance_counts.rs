//! What the passes that join solids or make copies instances count.

use vstd::prelude::*;

use crate::ast::EntityView;
use crate::brep::{list_with, list_without, listed_in, surface_of};
use crate::components::{all_components, is_component};
use crate::graph::{
    lemma_position, max_id, nth_logical, position, record_at, simple_record, without,
};
use crate::instances::{
    after_group, after_groups, after_reps, all_patched, first_position, in_order, infos,
    instances_made, items_and_context, members, patched, placed, styles_of, turns_view,
    with_instances, InfoView, InstanceEvidence, InstanceStats, ProgressView, TurnView,
};
use crate::partition_plan::{
    all_solids, interfaces, of_type, pair_solids, pairs, pairs_within, touching, weld_plans,
    Interface, WeldEvidence, WeldView,
};
use crate::partition_recovery::{joins_bodies, plan_pairs, plan_solids, PartitionRecoveryStats};
use crate::placements::{
    axis_entity, fresh, mapped_id, triple, with_frame, with_mapped, with_place, with_source,
    with_style, PlaceView,
};
use crate::planar_features::{
    after_contexts, after_families, after_family, after_host, after_hosts, all_bounds, all_faces,
    features_made, lengthened, look_styles, offsets_view, parts_of, placed_families, rebuilt,
    shortened, with_family, with_solid, with_styles, GrownView, HostView, OffsetView,
    PlanarEvidence, PlanarFeatureStats, PlanarView,
};
use crate::planar_plan::{
    contexts, families, features, hosts, measures_view, FeatureView, MeasureView, ShellContext,
    MIN_GROUP,
};
use crate::sets::{lemma_connected_self, lemma_connected_step};

verus! {

/// Whether an entity is an instance.
pub open spec fn is_mapped(entity: EntityView) -> bool {
    simple_record(entity) matches Some(record) && record.name == "MAPPED_ITEM"@
}

/// How many of some entities are instances.
pub open spec fn instance_count(entities: Seq<EntityView>) -> nat
    decreases entities.len(),
{
    if entities.len() == 0 {
        0
    } else {
        instance_count(entities.drop_last()) + (if is_mapped(entities.last()) {
            1nat
        } else {
            0nat
        })
    }
}

/// Whether the same entities of two lists are instances.
pub open spec fn same_instances(a: Seq<EntityView>, b: Seq<EntityView>) -> bool {
    &&& a.len() == b.len()
    &&& forall|i: int| 0 <= i < a.len() ==> is_mapped(#[trigger] a[i]) == is_mapped(b[i])
}

proof fn lemma_same_count(a: Seq<EntityView>, b: Seq<EntityView>)
    requires
        same_instances(a, b),
    ensures
        instance_count(a) == instance_count(b),
    decreases a.len(),
{
    if a.len() > 0 {
        assert(is_mapped(a[a.len() - 1]) == is_mapped(b[a.len() - 1]));
        assert forall|i: int| 0 <= i < a.drop_last().len() implies is_mapped(
            #[trigger] a.drop_last()[i],
        ) == is_mapped(b.drop_last()[i]) by {
            assert(a.drop_last()[i] == a[i]);
            assert(b.drop_last()[i] == b[i]);
        }
        lemma_same_count(a.drop_last(), b.drop_last());
    }
}

proof fn lemma_pushed_count(entities: Seq<EntityView>, entity: EntityView)
    ensures
        instance_count(entities.push(entity)) == instance_count(entities) + (if is_mapped(entity) {
            1nat
        } else {
            0nat
        }),
{
    assert(entities.push(entity).drop_last() =~= entities);
}

proof fn lemma_joined_count(a: Seq<EntityView>, b: Seq<EntityView>)
    ensures
        instance_count(a + b) == instance_count(a) + instance_count(b),
    decreases b.len(),
{
    if b.len() == 0 {
        assert(a + b =~= a);
    } else {
        assert((a + b).drop_last() =~= a + b.drop_last());
        lemma_joined_count(a, b.drop_last());
    }
}

/// Where nothing that goes is an instance, as many instances are left.
proof fn lemma_kept_count(entities: Seq<EntityView>, gone: Set<u64>)
    requires
        forall|i: int|
            0 <= i < entities.len() && is_mapped(#[trigger] entities[i]) ==> !gone.contains(
                entities[i].id(),
            ),
    ensures
        instance_count(without(entities, gone)) == instance_count(entities),
    decreases entities.len(),
{
    if entities.len() > 0 {
        let shorter = entities.drop_last();
        assert forall|i: int| 0 <= i < shorter.len() && is_mapped(
            #[trigger] shorter[i],
        ) implies !gone.contains(shorter[i].id()) by {
            assert(shorter[i] == entities[i]);
        }
        lemma_kept_count(shorter, gone);
        assert(entities[entities.len() - 1] == entities.last());
        if !gone.contains(entities.last().id()) {
            lemma_pushed_count(without(shorter, gone), entities.last());
        }
    }
}

proof fn lemma_count_fits(entities: Seq<EntityView>)
    ensures
        instance_count(entities) <= entities.len(),
    decreases entities.len(),
{
    if entities.len() > 0 {
        lemma_count_fits(entities.drop_last());
    }
}

/// The types of the other new entities.
proof fn lemma_other_types()
    ensures
        "DIRECTION"@ != "MAPPED_ITEM"@,
        "CARTESIAN_POINT"@ != "MAPPED_ITEM"@,
        "AXIS2_PLACEMENT_3D"@ != "MAPPED_ITEM"@,
        "ADVANCED_BREP_SHAPE_REPRESENTATION"@ != "MAPPED_ITEM"@,
        "REPRESENTATION_MAP"@ != "MAPPED_ITEM"@,
        "STYLED_ITEM"@ != "MAPPED_ITEM"@,
        "FACE_OUTER_BOUND"@ != "MAPPED_ITEM"@,
        "ADVANCED_FACE"@ != "MAPPED_ITEM"@,
        "CLOSED_SHELL"@ != "MAPPED_ITEM"@,
        "MANIFOLD_SOLID_BREP"@ != "MAPPED_ITEM"@,
{
    reveal_strlit("MAPPED_ITEM");
    reveal_strlit("DIRECTION");
    reveal_strlit("CARTESIAN_POINT");
    reveal_strlit("AXIS2_PLACEMENT_3D");
    reveal_strlit("ADVANCED_BREP_SHAPE_REPRESENTATION");
    reveal_strlit("REPRESENTATION_MAP");
    reveal_strlit("STYLED_ITEM");
    reveal_strlit("FACE_OUTER_BOUND");
    reveal_strlit("ADVANCED_FACE");
    reveal_strlit("CLOSED_SHELL");
    reveal_strlit("MANIFOLD_SOLID_BREP");
    assert("STYLED_ITEM"@[0] != "MAPPED_ITEM"@[0]);
    assert("MANIFOLD_SOLID_BREP"@.len() != "MAPPED_ITEM"@.len());
}

/// Entities that are no instances leave the number of instances as it is.
proof fn lemma_others_pushed(entities: Seq<EntityView>, more: Seq<EntityView>)
    requires
        forall|i: int| 0 <= i < more.len() ==> !is_mapped(#[trigger] more[i]),
    ensures
        instance_count(entities + more) == instance_count(entities),
    decreases more.len(),
{
    if more.len() == 0 {
        assert(entities + more =~= entities);
    } else {
        assert(!is_mapped(more[more.len() - 1]));
        assert forall|i: int| 0 <= i < more.drop_last().len() implies !is_mapped(
            #[trigger] more.drop_last()[i],
        ) by {
            assert(more.drop_last()[i] == more[i]);
        }
        lemma_others_pushed(entities, more.drop_last());
        assert((entities + more).drop_last() =~= entities + more.drop_last());
    }
}

proof fn lemma_frame_count(added: Seq<EntityView>, last: u64)
    ensures
        instance_count(with_frame(added, last)) == instance_count(added),
{
    lemma_other_types();
    let id = fresh(added, last);
    let more = seq![
        triple(id, "DIRECTION"@, "0"@, "0"@, "1"@),
        triple((id + 1) as u64, "DIRECTION"@, "1"@, "0"@, "0"@),
        triple((id + 2) as u64, "DIRECTION"@, "0"@, "1"@, "0"@),
        triple((id + 3) as u64, "DIRECTION"@, "-1"@, "0"@, "0"@),
        triple((id + 4) as u64, "DIRECTION"@, "0"@, "-1"@, "0"@),
        triple((id + 5) as u64, "CARTESIAN_POINT"@, "0"@, "0"@, "0"@),
        axis_entity((id + 6) as u64, (id + 5) as u64, id, (id + 1) as u64),
    ];
    assert(with_frame(added, last) =~= added + more);
    lemma_others_pushed(added, more);
}

proof fn lemma_source_count(
    added: Seq<EntityView>,
    last: u64,
    name: Seq<char>,
    solid: u64,
    frame: u64,
    context: u64,
)
    ensures
        instance_count(with_source(added, last, name, solid, frame, context)) == instance_count(
            added,
        ),
{
    lemma_other_types();
    let whole = with_source(added, last, name, solid, frame, context);
    let more = whole.skip(added.len() as int);
    assert(whole =~= added + more);
    assert forall|i: int| 0 <= i < more.len() implies !is_mapped(#[trigger] more[i]) by {
        assert(more[i] == whole[added.len() + i]);
    }
    lemma_others_pushed(added, more);
}

proof fn lemma_mapped_count(
    added: Seq<EntityView>,
    last: u64,
    frame: u64,
    map: u64,
    place: Option<PlaceView>,
)
    ensures
        instance_count(with_mapped(added, last, frame, map, place)) == instance_count(added) + 1,
{
    lemma_other_types();
    let placed = with_place(added, last, frame, place);
    let more = placed.skip(added.len() as int);
    assert(placed =~= added + more);
    assert forall|i: int| 0 <= i < more.len() implies !is_mapped(#[trigger] more[i]) by {
        assert(more[i] == placed[added.len() + i]);
    }
    lemma_others_pushed(added, more);
    let whole = with_mapped(added, last, frame, map, place);
    assert(whole == placed.push(whole.last()));
    lemma_pushed_count(placed, whole.last());
}

proof fn lemma_style_count(added: Seq<EntityView>, last: u64, styles: Seq<u64>, target: u64)
    ensures
        instance_count(with_style(added, last, styles, target)) == instance_count(added),
{
    lemma_other_types();
    let whole = with_style(added, last, styles, target);
    assert(whole == added.push(whole.last()));
    lemma_pushed_count(added, whole.last());
}

proof fn lemma_instances_count(
    added: Seq<EntityView>,
    last: u64,
    frame: u64,
    map: u64,
    group: Seq<(u64, Option<PlaceView>)>,
    style: Seq<u64>,
    n: nat,
)
    ensures
        instance_count(with_instances(added, last, frame, map, group, style, n)) == instance_count(
            added,
        ) + n,
    decreases n,
{
    if n > 0 {
        lemma_instances_count(added, last, frame, map, group, style, (n - 1) as nat);
        let before = with_instances(added, last, frame, map, group, style, (n - 1) as nat);
        let place = group[n - 1].1;
        lemma_mapped_count(before, last, frame, map, place);
        lemma_style_count(
            with_mapped(before, last, frame, map, place),
            last,
            style,
            mapped_id(before, last, place),
        );
    }
}

/// What holds of the pass over solids at every step.
spec fn progress_counts(state: ProgressView, origin: Seq<EntityView>) -> bool {
    &&& same_instances(state.base, origin)
    &&& instance_count(state.added) == state.solids
    &&& state.solids >= 2 * state.groups
}

proof fn lemma_first_position_fits(entities: Seq<EntityView>, id: u64)
    ensures
        first_position(entities, id) matches Some(at) ==> 0 <= at < entities.len(),
    decreases entities.len(),
{
    if entities.len() > 0 {
        lemma_first_position_fits(entities.drop_last(), id);
    }
}

proof fn lemma_group_counts(
    state: ProgressView,
    origin: Seq<EntityView>,
    start: Seq<EntityView>,
    last: u64,
    turns: Seq<TurnView>,
    at: int,
    context: u64,
    roots: Seq<u64>,
    style: Seq<u64>,
)
    requires
        progress_counts(state, origin),
        0 <= at < state.base.len(),
    ensures
        after_group(state, start, last, turns, at, context, roots, style) matches Some(next)
            ==> progress_counts(next, origin) && next.base.len() == state.base.len(),
{
    if let Some(next) = after_group(state, start, last, turns, at, context, roots, style) {
        let group = placed(turns, roots, roots.len());
        if group.len() >= 2 {
            let frame = fresh(state.added, last);
            let framed = with_frame(state.added, last);
            let map = (fresh(framed, last) + 1) as u64;
            let name = "step-redox instance source"@;
            let sourced = with_source(framed, last, name, roots[0], frame, context);
            lemma_frame_count(state.added, last);
            lemma_source_count(framed, last, name, roots[0], frame, context);
            lemma_instances_count(sourced, last, frame, map, group, style, group.len());
            assert forall|i: int| 0 <= i < next.base.len() implies is_mapped(
                #[trigger] next.base[i],
            ) == is_mapped(origin[i]) by {
                assert(is_mapped(state.base[i]) == is_mapped(origin[i]));
            }
        }
    }
}

proof fn lemma_groups_counts(
    state: ProgressView,
    origin: Seq<EntityView>,
    last: u64,
    turns: Seq<TurnView>,
    at: int,
    context: u64,
    known: Seq<InfoView>,
    n: nat,
)
    requires
        progress_counts(state, origin),
        0 <= at < state.base.len(),
    ensures
        after_groups(state, last, turns, at, context, known, n) matches Some(next)
            ==> progress_counts(next, origin) && next.base.len() == state.base.len(),
    decreases n,
{
    if n > 0 {
        lemma_groups_counts(state, origin, last, turns, at, context, known, (n - 1) as nat);
        if let Some(now) = after_groups(
            state,
            last,
            turns,
            at,
            context,
            known,
            (n - 1) as nat,
        ) {
            lemma_group_counts(
                now,
                origin,
                state.base,
                last,
                turns,
                at,
                context,
                in_order(members(known, known[n - 1], known.len())),
                known[n - 1].style,
            );
        }
    }
}

proof fn lemma_reps_counts(
    origin: Seq<EntityView>,
    shape: Map<u64, u64>,
    turns: Seq<TurnView>,
    n: nat,
)
    ensures
        after_reps(origin, shape, turns, n) matches Some(state) ==> progress_counts(state, origin),
    decreases n,
{
    if n > 0 {
        lemma_reps_counts(origin, shape, turns, (n - 1) as nat);
        if let Some(state) = after_reps(origin, shape, turns, (n - 1) as nat) {
            let rep = origin[n - 1].id();
            lemma_first_position_fits(state.base, rep);
            if let Some(at) = first_position(state.base, rep) {
                if let Some((items, context)) = items_and_context(state.base[at]) {
                    let roots = of_type(state.base, items, "MANIFOLD_SOLID_BREP"@);
                    let known = infos(origin, state.base, shape, roots);
                    lemma_groups_counts(
                        state,
                        origin,
                        max_id(origin),
                        turns,
                        at,
                        context,
                        known,
                        known.len(),
                    );
                }
            }
        }
    }
}

/// Whether making solids instances gives up an instance.
pub open spec fn solids_cost_instances(
    entities: Seq<EntityView>,
    evidence: InstanceEvidence,
) -> bool {
    match after_reps(
        entities,
        evidence.shape_class@,
        turns_view(evidence.turns@),
        entities.len(),
    ) {
        Some(state) if state.groups > 0 => {
            let old = styles_of(entities, state.geometry);
            let done = all_patched(state.base + state.added, old.to_set(), state.styles);
            let gone = crate::instances::given_up(
                done,
                state.geometry + old,
                state.roots.to_set().union(old.to_set()),
            );
            exists|i: int|
                0 <= i < done.len() && is_mapped(#[trigger] done[i]) && gone.contains(
                    done[i].id(),
                )
        },
        _ => false,
    }
}

/// Each group of solids that become instances has at least two of them.
pub proof fn law_groups_have_two_solids(
    entities: Seq<EntityView>,
    evidence: InstanceEvidence,
    result: Seq<EntityView>,
    stats: InstanceStats,
)
    requires
        instances_made(entities, evidence, result, stats),
    ensures
        stats.solids_replaced == usize::MAX || stats.solids_replaced >= 2 * stats.groups,
{
    lemma_reps_counts(
        entities,
        evidence.shape_class@,
        turns_view(evidence.turns@),
        entities.len(),
    );
}

/// Making solids instances adds one instance for each solid that is replaced, unless an instance
/// is given up with the solids.
pub proof fn law_solids_become_instances(
    entities: Seq<EntityView>,
    evidence: InstanceEvidence,
    result: Seq<EntityView>,
    stats: InstanceStats,
)
    requires
        instances_made(entities, evidence, result, stats),
        result.len() <= usize::MAX,
        !solids_cost_instances(entities, evidence),
    ensures
        instance_count(result) == instance_count(entities) + stats.solids_replaced,
{
    let turns = turns_view(evidence.turns@);
    lemma_reps_counts(entities, evidence.shape_class@, turns, entities.len());
    lemma_count_fits(result);
    if let Some(state) = after_reps(entities, evidence.shape_class@, turns, entities.len()) {
        if state.groups > 0 {
            let old = styles_of(entities, state.geometry);
            let all = state.base + state.added;
            let done = all_patched(all, old.to_set(), state.styles);
            let gone = crate::instances::given_up(
                done,
                state.geometry + old,
                state.roots.to_set().union(old.to_set()),
            );
            lemma_same_count(state.base, entities);
            lemma_joined_count(state.base, state.added);
            assert forall|i: int| 0 <= i < done.len() implies is_mapped(#[trigger] done[i])
                == is_mapped(all[i]) by {
                assert(done[i] == patched(all[i], old.to_set(), state.styles));
            }
            lemma_same_count(done, all);
            lemma_kept_count(done, gone);
        }
    }
}

proof fn lemma_solid_count(
    added: Seq<EntityView>,
    last: u64,
    feature: FeatureView,
    surface: u64,
    sense: bool,
)
    ensures
        instance_count(with_solid(added, last, feature, surface, sense)) == instance_count(added),
{
    lemma_other_types();
    let whole = with_solid(added, last, feature, surface, sense);
    let more = whole.skip(added.len() as int);
    assert(whole =~= added + more);
    assert forall|i: int| 0 <= i < more.len() implies !is_mapped(#[trigger] more[i]) by {
        assert(more[i] == whole[added.len() + i]);
    }
    lemma_others_pushed(added, more);
}

proof fn lemma_styles_count(
    added: Seq<EntityView>,
    last: u64,
    styles: Seq<Seq<u64>>,
    target: u64,
    n: nat,
)
    ensures
        instance_count(with_styles(added, last, styles, target, n)) == instance_count(added),
    decreases n,
{
    if n > 0 {
        lemma_styles_count(added, last, styles, target, (n - 1) as nat);
        lemma_style_count(
            with_styles(added, last, styles, target, (n - 1) as nat),
            last,
            styles[n - 1],
            target,
        );
    }
}

proof fn lemma_family_count(
    start: GrownView,
    last: u64,
    frame: u64,
    map: u64,
    places: Seq<Option<PlaceView>>,
    styles: Seq<Seq<u64>>,
    n: nat,
)
    ensures
        instance_count(with_family(start, last, frame, map, places, styles, n).added)
            == instance_count(start.added) + n,
    decreases n,
{
    if n > 0 {
        lemma_family_count(start, last, frame, map, places, styles, (n - 1) as nat);
        let before = with_family(start, last, frame, map, places, styles, (n - 1) as nat);
        lemma_mapped_count(before.added, last, frame, map, places[n - 1]);
        lemma_styles_count(
            with_mapped(before.added, last, frame, map, places[n - 1]),
            last,
            styles,
            mapped_id(before.added, last, places[n - 1]),
            styles.len(),
        );
    }
}

/// What holds of the pass over plane faces at every step, with the instances of families that
/// are not counted yet.
spec fn planar_counts(state: PlanarView, origin: Seq<EntityView>, open: nat) -> bool {
    &&& same_instances(state.base, origin)
    &&& instance_count(state.added) == state.instances
    &&& state.instances >= MIN_GROUP * (state.families + open)
}

proof fn lemma_one_family_counts(
    state: PlanarView,
    origin: Seq<EntityView>,
    open: nat,
    mapped: Seq<u64>,
    host: HostView,
    group: Seq<FeatureView>,
    places: Seq<Option<PlaceView>>,
)
    requires
        planar_counts(state, origin, open),
        group.len() >= MIN_GROUP,
    ensures
        after_family(state, mapped, host, group, places) matches Some((next, _)) ==> planar_counts(
            next,
            origin,
            open + 1,
        ),
{
    if let Some((next, _)) = after_family(state, mapped, host, group, places) {
        let styles = look_styles(host.origin, host.place.container_id, group[0].look);
        let solid = (fresh(state.added, host.last) + 3) as u64;
        let closed = with_solid(state.added, host.last, group[0], host.surface, host.sense);
        let map = (fresh(closed, host.last) + 1) as u64;
        let name = "step-redox planar positive feature source"@;
        let sourced = with_source(
            closed,
            host.last,
            name,
            solid,
            host.frame,
            host.place.context_id,
        );
        lemma_solid_count(state.added, host.last, group[0], host.surface, host.sense);
        lemma_source_count(
            closed,
            host.last,
            name,
            solid,
            host.frame,
            host.place.context_id,
        );
        lemma_family_count(
            GrownView { added: sourced, mapped, styles: Seq::empty() },
            host.last,
            host.frame,
            map,
            places,
            styles,
            group.len(),
        );
        assert forall|i: int| 0 <= i < next.base.len() implies is_mapped(
            #[trigger] next.base[i],
        ) == is_mapped(origin[i]) by {
            assert(is_mapped(state.base[i]) == is_mapped(origin[i]));
        }
        assert(next.base.len() == state.base.len());
    }
}

proof fn lemma_large_families(found: Seq<FeatureView>, n: nat)
    ensures
        forall|g: int|
            0 <= g < families(found, n).len() ==> (#[trigger] families(found, n)[g]).len()
                >= MIN_GROUP,
    decreases n,
{
    if n > 0 {
        lemma_large_families(found, (n - 1) as nat);
        let rest = families(found, (n - 1) as nat);
        let all = families(found, n);
        assert forall|g: int| 0 <= g < all.len() implies (#[trigger] all[g]).len()
            >= MIN_GROUP by {
            if g < rest.len() {
                assert(all[g] == rest[g]);
            }
        }
    }
}

proof fn lemma_large_placed(
    offsets: Seq<OffsetView>,
    host: u64,
    all: Seq<Seq<FeatureView>>,
    n: nat,
)
    requires
        n <= all.len(),
        forall|g: int| 0 <= g < all.len() ==> (#[trigger] all[g]).len() >= MIN_GROUP,
    ensures
        forall|g: int|
            0 <= g < placed_families(offsets, host, all, n).len() ==> (
            #[trigger] placed_families(offsets, host, all, n)[g]).0.len() >= MIN_GROUP,
    decreases n,
{
    if n > 0 {
        lemma_large_placed(offsets, host, all, (n - 1) as nat);
        assert(all[n - 1].len() >= MIN_GROUP);
        let rest = placed_families(offsets, host, all, (n - 1) as nat);
        let whole = placed_families(offsets, host, all, n);
        assert forall|g: int| 0 <= g < whole.len() implies (#[trigger] whole[g]).0.len()
            >= MIN_GROUP by {
            if g < rest.len() {
                assert(whole[g] == rest[g]);
            }
        }
    }
}

proof fn lemma_families_count(
    state: PlanarView,
    origin: Seq<EntityView>,
    host: HostView,
    groups: Seq<(Seq<FeatureView>, Seq<Option<PlaceView>>)>,
    n: nat,
)
    requires
        n <= groups.len(),
        planar_counts(state, origin, 0),
        forall|g: int| 0 <= g < groups.len() ==> (#[trigger] groups[g]).0.len() >= MIN_GROUP,
    ensures
        after_families(state, host, groups, n) matches Some((next, _)) ==> planar_counts(
            next,
            origin,
            n,
        ),
    decreases n,
{
    if n > 0 {
        lemma_families_count(state, origin, host, groups, (n - 1) as nat);
        if let Some((now, mapped)) = after_families(state, host, groups, (n - 1) as nat) {
            assert(groups[n - 1].0.len() >= MIN_GROUP);
            lemma_one_family_counts(
                now,
                origin,
                (n - 1) as nat,
                mapped,
                host,
                groups[n - 1].0,
                groups[n - 1].1,
            );
        }
    }
}

proof fn lemma_listed_same(a: Seq<EntityView>, b: Seq<EntityView>, at: int, entity: EntityView)
    requires
        same_instances(a, b),
        0 <= at < a.len(),
        is_mapped(entity) == is_mapped(a[at]),
    ensures
        same_instances(a.update(at, entity), b),
{
    assert forall|i: int| 0 <= i < a.len() implies is_mapped(#[trigger] a.update(at, entity)[i])
        == is_mapped(b[i]) by {
        assert(is_mapped(a[i]) == is_mapped(b[i]));
    }
}

proof fn lemma_shortened_same(
    base: Seq<EntityView>,
    origin: Seq<EntityView>,
    id: u64,
    remove: Set<u64>,
)
    requires
        same_instances(base, origin),
    ensures
        shortened(base, id, remove) matches Some(next) ==> same_instances(next, origin),
{
    lemma_position(base, id);
    if let Some(at) = position(base, id) {
        if let Some(entity) = list_without(base[at], 1, remove) {
            lemma_listed_same(base, origin, at, entity);
        }
    }
}

proof fn lemma_lengthened_same(
    base: Seq<EntityView>,
    origin: Seq<EntityView>,
    id: u64,
    more: Seq<u64>,
)
    requires
        same_instances(base, origin),
    ensures
        lengthened(base, id, more) matches Some(next) ==> same_instances(next, origin),
{
    lemma_position(base, id);
    if let Some(at) = position(base, id) {
        if let Some(entity) = list_with(base[at], 1, more) {
            lemma_listed_same(base, origin, at, entity);
        }
    }
}

proof fn lemma_rebuilt_counts(
    state: PlanarView,
    origin: Seq<EntityView>,
    place: ShellContext,
    host: u64,
    faces: Set<u64>,
    bounds: Set<u64>,
    mapped: Seq<u64>,
    groups: nat,
)
    requires
        planar_counts(state, origin, groups),
    ensures
        planar_counts(rebuilt(state, place, host, faces, bounds, mapped, groups), origin, 0),
{
    assert(MIN_GROUP * (state.families + groups) >= MIN_GROUP * state.families) by (nonlinear_arith);
    lemma_shortened_same(state.base, origin, place.shell_id, faces);
    if let Some(first) = shortened(state.base, place.shell_id, faces) {
        lemma_shortened_same(first, origin, host, bounds);
        if let Some(second) = shortened(first, host, bounds) {
            lemma_lengthened_same(second, origin, place.representation_id, mapped);
        }
    }
}

proof fn lemma_host_counts(
    origin: Seq<EntityView>,
    flat: Set<u64>,
    measures: Seq<MeasureView>,
    offsets: Seq<OffsetView>,
    last: u64,
    place: ShellContext,
    start: Seq<EntityView>,
    faces: Seq<u64>,
    state: PlanarView,
    host: u64,
    parts: Seq<Seq<u64>>,
)
    requires
        planar_counts(state, origin, 0),
    ensures
        after_host(origin, flat, measures, offsets, last, place, start, faces, state, host, parts)
            matches Some(next) ==> planar_counts(next, origin, 0),
{
    if let (Some(surface), Some(record), Some(bounds)) = (
        surface_of(start, host),
        record_at(start, host),
        listed_in(state.base, host, 1),
    ) {
        if let Some(sense) = nth_logical(record, 3) {
            let found = features(
                origin,
                start,
                measures,
                place.container_id,
                faces,
                host,
                bounds,
                state.claimed_faces,
                state.claimed_bounds,
                parts,
                parts.len(),
            );
            let all = families(found, found.len());
            let groups = placed_families(offsets, host, all, all.len());
            lemma_large_families(found, found.len());
            lemma_large_placed(offsets, host, all, all.len());
            let view = HostView {
                origin,
                last,
                place,
                host,
                surface,
                sense,
                frame: fresh(state.added, last),
            };
            let framed = PlanarView { added: with_frame(state.added, last), ..state };
            lemma_frame_count(state.added, last);
            lemma_families_count(framed, origin, view, groups, groups.len());
            if let Some((next, mapped)) = after_families(framed, view, groups, groups.len()) {
                lemma_rebuilt_counts(
                    next,
                    origin,
                    place,
                    host,
                    all_faces(groups, groups.len()).to_set(),
                    all_bounds(groups, groups.len()).to_set(),
                    mapped,
                    groups.len(),
                );
            }
        }
    }
}

proof fn lemma_hosts_counts(
    origin: Seq<EntityView>,
    flat: Set<u64>,
    measures: Seq<MeasureView>,
    offsets: Seq<OffsetView>,
    last: u64,
    place: ShellContext,
    faces: Seq<u64>,
    state: PlanarView,
    all: Seq<u64>,
    n: nat,
)
    requires
        planar_counts(state, origin, 0),
    ensures
        after_hosts(origin, flat, measures, offsets, last, place, faces, state, all, n) matches Some(
            next,
        ) ==> planar_counts(next, origin, 0),
    decreases n,
{
    if n > 0 {
        let before = (n - 1) as nat;
        lemma_hosts_counts(
            origin,
            flat,
            measures,
            offsets,
            last,
            place,
            faces,
            state,
            all,
            before,
        );
        if let Some(now) = after_hosts(
            origin,
            flat,
            measures,
            offsets,
            last,
            place,
            faces,
            state,
            all,
            before,
        ) {
            lemma_host_counts(
                origin,
                flat,
                measures,
                offsets,
                last,
                place,
                state.base,
                faces,
                now,
                all[n - 1],
                parts_of(state.base, faces, all[n - 1]),
            );
        }
    }
}

proof fn lemma_contexts_counts(
    origin: Seq<EntityView>,
    flat: Set<u64>,
    measures: Seq<MeasureView>,
    offsets: Seq<OffsetView>,
    places: Seq<ShellContext>,
    n: nat,
)
    ensures
        after_contexts(origin, flat, measures, offsets, places, n) matches Some(state)
            ==> planar_counts(state, origin, 0),
    decreases n,
{
    if n > 0 {
        let before = (n - 1) as nat;
        lemma_contexts_counts(origin, flat, measures, offsets, places, before);
        if let Some(state) = after_contexts(origin, flat, measures, offsets, places, before) {
            if let Some(faces) = listed_in(state.base, places[n - 1].shell_id, 1) {
                let all = hosts(state.base, faces);
                lemma_hosts_counts(
                    origin,
                    flat,
                    measures,
                    offsets,
                    max_id(origin),
                    places[n - 1],
                    faces,
                    state,
                    all,
                    all.len(),
                );
            }
        }
    }
}

/// Whether making groups of faces instances gives up an instance.
pub open spec fn features_cost_instances(
    entities: Seq<EntityView>,
    evidence: PlanarEvidence,
    candidates: Seq<u64>,
) -> bool {
    let places = contexts(entities, entities.len());
    match after_contexts(
        entities,
        evidence.flat@,
        measures_view(evidence.measures@),
        offsets_view(evidence.offsets@),
        places,
        places.len(),
    ) {
        Some(state) if state.arrays > 0 => {
            let all = state.base + state.added;
            let gone = crate::planar_features::given_up(all, candidates, state.seeds);
            exists|i: int|
                0 <= i < all.len() && is_mapped(#[trigger] all[i]) && gone.contains(all[i].id())
        },
        _ => false,
    }
}

/// Each family of groups of faces that is counted has at least eight instances.
pub proof fn law_families_have_eight_instances(
    entities: Seq<EntityView>,
    evidence: PlanarEvidence,
    candidates: Seq<u64>,
    result: Seq<EntityView>,
    stats: PlanarFeatureStats,
)
    requires
        features_made(entities, evidence, candidates, result, stats),
    ensures
        stats.instances == usize::MAX || stats.instances >= 8 * stats.families,
{
    let places = contexts(entities, entities.len());
    lemma_contexts_counts(
        entities,
        evidence.flat@,
        measures_view(evidence.measures@),
        offsets_view(evidence.offsets@),
        places,
        places.len(),
    );
}

/// Making groups of faces instances adds as many instances as are counted, unless an instance is
/// given up with the faces.
pub proof fn law_features_become_instances(
    entities: Seq<EntityView>,
    evidence: PlanarEvidence,
    candidates: Seq<u64>,
    result: Seq<EntityView>,
    stats: PlanarFeatureStats,
)
    requires
        features_made(entities, evidence, candidates, result, stats),
        result.len() <= usize::MAX,
        !features_cost_instances(entities, evidence, candidates),
    ensures
        instance_count(result) == instance_count(entities) + stats.instances,
{
    let places = contexts(entities, entities.len());
    let measures = measures_view(evidence.measures@);
    let offsets = offsets_view(evidence.offsets@);
    lemma_contexts_counts(entities, evidence.flat@, measures, offsets, places, places.len());
    lemma_count_fits(result);
    if let Some(state) = after_contexts(
        entities,
        evidence.flat@,
        measures,
        offsets,
        places,
        places.len(),
    ) {
        let all = state.base + state.added;
        lemma_same_count(state.base, entities);
        lemma_joined_count(state.base, state.added);
        if state.arrays > 0 {
            lemma_kept_count(
                all,
                crate::planar_features::given_up(all, candidates, state.seeds),
            );
        }
    }
}

proof fn lemma_pairs_differ(
    class: Map<u64, u64>,
    opposed: Set<u64>,
    faces: Seq<(u64, u64)>,
    n: nat,
)
    ensures
        forall|k: int|
            0 <= k < pairs(class, opposed, faces, n).len() ==> (#[trigger] pairs(
                class,
                opposed,
                faces,
                n,
            )[k]).a_solid != pairs(class, opposed, faces, n)[k].b_solid,
    decreases n,
{
    if n > 0 {
        lemma_pairs_differ(class, opposed, faces, (n - 1) as nat);
        let rest = pairs(class, opposed, faces, (n - 1) as nat);
        let whole = pairs(class, opposed, faces, n);
        assert forall|k: int| 0 <= k < whole.len() implies (#[trigger] whole[k]).a_solid
            != whole[k].b_solid by {
            if k < rest.len() {
                assert(whole[k] == rest[k]);
            }
        }
    }
}

proof fn lemma_solid_of_pair(list: Seq<Interface>, solid: u64)
    requires
        pair_solids(list).contains(solid),
    ensures
        exists|k: int|
            0 <= k < list.len() && ((#[trigger] list[k]).a_solid == solid || list[k].b_solid
                == solid),
    decreases list.len(),
{
    if list.len() > 0 {
        let front = list.drop_last();
        if list[list.len() - 1].a_solid != solid && list[list.len() - 1].b_solid != solid {
            let i = choose|i: int|
                0 <= i < pair_solids(list).len() && pair_solids(list)[i] == solid;
            assert(pair_solids(front)[i] == solid);
            lemma_solid_of_pair(front, solid);
            let k = choose|k: int|
                0 <= k < front.len() && ((#[trigger] front[k]).a_solid == solid || front[k].b_solid
                    == solid);
            assert(list[k] == front[k]);
        }
    }
}

proof fn lemma_pair_within(list: Seq<Interface>, part: Seq<u64>, k: int)
    requires
        0 <= k < list.len(),
        part.contains(list[k].a_solid),
        part.contains(list[k].b_solid),
    ensures
        pairs_within(list, part).len() > 0,
    decreases list.len(),
{
    if k < list.len() - 1 {
        assert(list.drop_last()[k] == list[k]);
        lemma_pair_within(list.drop_last(), part, k);
    }
}

/// A part of solids that touch each other has at least two solids and a pair between them.
proof fn lemma_part_has_two(list: Seq<Interface>, part: Seq<u64>)
    requires
        is_component(touching(list), pair_solids(list), part),
        forall|k: int| 0 <= k < list.len() ==> (#[trigger] list[k]).a_solid != list[k].b_solid,
    ensures
        part.len() >= 2,
        pairs_within(list, part).len() >= 1,
{
    let step = touching(list);
    let first = part[0];
    lemma_solid_of_pair(list, first);
    let k = choose|k: int|
        0 <= k < list.len() && ((#[trigger] list[k]).a_solid == first || list[k].b_solid == first);
    let other = if list[k].a_solid == first {
        list[k].b_solid
    } else {
        list[k].a_solid
    };
    assert(list[k].a_solid != list[k].b_solid);
    assert(step(first, other));
    lemma_connected_self(step, first);
    lemma_connected_step(step, first, first, other);
    assert(part.contains(other));
    assert(part.contains(first));
    let j = choose|j: int| 0 <= j < part.len() && part[j] == other;
    assert(j != 0);
    lemma_pair_within(list, part, k);
}

proof fn lemma_plans_have_two(
    entities: Seq<EntityView>,
    list: Seq<Interface>,
    parts: Seq<Seq<u64>>,
    n: nat,
)
    requires
        n <= parts.len(),
        forall|i: int|
            0 <= i < parts.len() ==> (#[trigger] parts[i]).len() >= 2 && pairs_within(
                list,
                parts[i],
            ).len() >= 1,
    ensures
        forall|k: int|
            0 <= k < weld_plans(entities, list, parts, n).len() ==> (#[trigger] weld_plans(
                entities,
                list,
                parts,
                n,
            )[k]).solids.len() >= 2 && weld_plans(entities, list, parts, n)[k].interfaces.len()
                >= 1,
    decreases n,
{
    if n > 0 {
        lemma_plans_have_two(entities, list, parts, (n - 1) as nat);
        assert(parts[n - 1].len() >= 2);
        let rest = weld_plans(entities, list, parts, (n - 1) as nat);
        let whole = weld_plans(entities, list, parts, n);
        assert forall|k: int| 0 <= k < whole.len() implies (#[trigger] whole[k]).solids.len() >= 2
            && whole[k].interfaces.len() >= 1 by {
            if k < rest.len() {
                assert(whole[k] == rest[k]);
            }
        }
    }
}

proof fn lemma_plan_sums(plans: Seq<WeldView>, n: nat)
    requires
        n <= plans.len(),
        forall|k: int|
            0 <= k < plans.len() ==> (#[trigger] plans[k]).solids.len() >= 2
                && plans[k].interfaces.len() >= 1,
    ensures
        plan_solids(plans, n).len() >= 2 * n,
        plan_pairs(plans, n).len() >= n,
    decreases n,
{
    if n > 0 {
        lemma_plan_sums(plans, (n - 1) as nat);
        assert(plans[n - 1].solids.len() >= 2);
    }
}

/// Each body that is joined from solids had at least two of them and a pair of faces between
/// them.
pub proof fn law_bodies_have_two_solids(
    entities: Seq<EntityView>,
    evidence: WeldEvidence,
    plans: Seq<WeldView>,
    candidates: Seq<u64>,
    result: Seq<EntityView>,
    stats: PartitionRecoveryStats,
)
    requires
        joins_bodies(entities, evidence, plans, candidates, result, stats),
        plan_solids(plans, plans.len()).len() <= usize::MAX,
        plan_pairs(plans, plans.len()).len() <= usize::MAX,
    ensures
        forall|k: int|
            0 <= k < plans.len() ==> (#[trigger] plans[k]).solids.len() >= 2
                && plans[k].interfaces.len() >= 1,
        stats.solids_merged >= 2 * stats.components,
        stats.interfaces_removed >= stats.components,
{
    let class = evidence.face_class@;
    let opposed = evidence.opposed@;
    let list = interfaces(entities, class, opposed);
    let faces = crate::partition_plan::candidates(entities, class, all_solids(entities));
    lemma_pairs_differ(class, opposed, faces, faces.len());
    let parts = choose|parts: Seq<Seq<u64>>| #[trigger]
        all_components(touching(list), pair_solids(list), parts) && plans == weld_plans(
            entities,
            list,
            parts,
            parts.len(),
        );
    assert forall|i: int| 0 <= i < parts.len() implies (#[trigger] parts[i]).len() >= 2
        && pairs_within(list, parts[i]).len() >= 1 by {
        assert(parts.contains(parts[i]));
        lemma_part_has_two(list, parts[i]);
    }
    lemma_plans_have_two(entities, list, parts, parts.len());
    lemma_plan_sums(plans, plans.len());
}

} // verus!
