//! Cleaning what is clean: a second pass changes nothing.

use vstd::prelude::*;

use crate::ast::{EntityView, ParamView};
use crate::consolidate::{
    consolidated, consolidated_upto, first_root, free_root, is_root, items_at, lemma_first_root,
    merged_into, root_items, root_key, taken_over, with_items,
};
use crate::graph::lemma_refs_in_all;
use crate::intern::{
    compressed, first_with_key, internable, internable_name, interned, key_text,
    mergeable, pending, resolver, rounds, survivors,
};
use crate::refs::{
    all_refs, chase, entity_refs, list_refs, lookup, map_entity, map_refs, param_refs, records_refs,
};
use crate::renumber::{numbering, renumbered, renumbered_entity};
use crate::settled::{
    all_sound_entities, ascends, distinct, has_id, law_interned_values_differ,
    lemma_ascends_short, lemma_identity_entity, lemma_mapped_entity, 
    values_differ,
};
use crate::unambiguous::{
    all_sound, body_text, is_sound, is_sound_entity, is_sound_record, law_text_survives_renaming,
    lemma_same_param, map_items, separates, within,
};
use crate::write::param_text;

verus! {

/// Whether no two free presentation roots agree.
pub open spec fn roots_differ(entities: Seq<EntityView>) -> bool {
    forall|i: int, j: int|
        0 <= i < j < entities.len() && #[trigger] free_root(entities, i) && #[trigger] free_root(
            entities,
            j,
        ) ==> root_key(entities[i]) != root_key(entities[j])
}

/// Whether the entities are numbered from one upwards.
pub open spec fn dense(entities: Seq<EntityView>) -> bool {
    &&& entities.len() <= u64::MAX
    &&& forall|i: int| 0 <= i < entities.len() ==> (#[trigger] entities[i]).id() == i + 1
}

/// What the passes that are always made make of entities.
pub open spec fn cleaned(entities: Seq<EntityView>) -> Seq<EntityView> {
    renumbered(consolidated(interned(entities)))
}

/// No presentation root is a value.
proof fn lemma_root_is_no_value(name: Seq<char>)
    requires
        items_at(name) is Some,
    ensures
        !internable_name(name),
{
    reveal_strlit("MECHANICAL_DESIGN_GEOMETRIC_PRESENTATION_REPRESENTATION");
    reveal_strlit("PRESENTATION_LAYER_ASSIGNMENT");
    assert("MECHANICAL_DESIGN_GEOMETRIC_PRESENTATION_REPRESENTATION"@.len() == 55);
    assert("PRESENTATION_LAYER_ASSIGNMENT"@.len() == 29);
    assert(name != "CARTESIAN_POINT"@) by {
        reveal_strlit("CARTESIAN_POINT");
        assert("CARTESIAN_POINT"@.len() == 15);
    }
    assert(name != "DIRECTION"@) by {
        reveal_strlit("DIRECTION");
        assert("DIRECTION"@.len() == 9);
    }
    assert(name != "VECTOR"@) by {
        reveal_strlit("VECTOR");
        assert("VECTOR"@.len() == 6);
    }
    assert(name != "AXIS1_PLACEMENT"@) by {
        reveal_strlit("AXIS1_PLACEMENT");
        assert("AXIS1_PLACEMENT"@.len() == 15);
    }
    assert(name != "AXIS2_PLACEMENT_2D"@) by {
        reveal_strlit("AXIS2_PLACEMENT_2D");
        assert("AXIS2_PLACEMENT_2D"@.len() == 18);
    }
    assert(name != "AXIS2_PLACEMENT_3D"@) by {
        reveal_strlit("AXIS2_PLACEMENT_3D");
        assert("AXIS2_PLACEMENT_3D"@.len() == 18);
    }
    assert(name != "LINE"@) by {
        reveal_strlit("LINE");
        assert("LINE"@.len() == 4);
    }
    assert(name != "CIRCLE"@) by {
        reveal_strlit("CIRCLE");
        assert("CIRCLE"@.len() == 6);
    }
    assert(name != "ELLIPSE"@) by {
        reveal_strlit("ELLIPSE");
        assert("ELLIPSE"@.len() == 7);
    }
    assert(name != "PLANE"@) by {
        reveal_strlit("PLANE");
        assert("PLANE"@.len() == 5);
    }
    assert(name != "CYLINDRICAL_SURFACE"@) by {
        reveal_strlit("CYLINDRICAL_SURFACE");
        assert("CYLINDRICAL_SURFACE"@.len() == 19);
    }
    assert(name != "CONICAL_SURFACE"@) by {
        reveal_strlit("CONICAL_SURFACE");
        assert("CONICAL_SURFACE"@.len() == 15);
    }
    assert(name != "SPHERICAL_SURFACE"@) by {
        reveal_strlit("SPHERICAL_SURFACE");
        assert("SPHERICAL_SURFACE"@.len() == 17);
    }
    assert(name != "TOROIDAL_SURFACE"@) by {
        reveal_strlit("TOROIDAL_SURFACE");
        assert("TOROIDAL_SURFACE"@.len() == 16);
    }
    assert(name != "SURFACE_OF_LINEAR_EXTRUSION"@) by {
        reveal_strlit("SURFACE_OF_LINEAR_EXTRUSION");
        assert("SURFACE_OF_LINEAR_EXTRUSION"@.len() == 27);
    }
    assert(name != "SURFACE_OF_REVOLUTION"@) by {
        reveal_strlit("SURFACE_OF_REVOLUTION");
        assert("SURFACE_OF_REVOLUTION"@.len() == 21);
    }
    assert(name != "B_SPLINE_CURVE"@) by {
        reveal_strlit("B_SPLINE_CURVE");
        assert("B_SPLINE_CURVE"@.len() == 14);
    }
    assert(name != "B_SPLINE_CURVE_WITH_KNOTS"@) by {
        reveal_strlit("B_SPLINE_CURVE_WITH_KNOTS");
        assert("B_SPLINE_CURVE_WITH_KNOTS"@.len() == 25);
    }
    assert(name != "RATIONAL_B_SPLINE_CURVE"@) by {
        reveal_strlit("RATIONAL_B_SPLINE_CURVE");
        assert("RATIONAL_B_SPLINE_CURVE"@.len() == 23);
    }
    assert(name != "B_SPLINE_SURFACE"@) by {
        reveal_strlit("B_SPLINE_SURFACE");
        assert("B_SPLINE_SURFACE"@.len() == 16);
    }
    assert(name != "B_SPLINE_SURFACE_WITH_KNOTS"@) by {
        reveal_strlit("B_SPLINE_SURFACE_WITH_KNOTS");
        assert("B_SPLINE_SURFACE_WITH_KNOTS"@.len() == 27);
    }
    assert(name != "RATIONAL_B_SPLINE_SURFACE"@) by {
        reveal_strlit("RATIONAL_B_SPLINE_SURFACE");
        assert("RATIONAL_B_SPLINE_SURFACE"@.len() == 25);
    }
    assert(name != "COLOUR_RGB"@) by {
        reveal_strlit("COLOUR_RGB");
        assert("COLOUR_RGB"@.len() == 10);
    }
    assert(name != "DRAUGHTING_PRE_DEFINED_COLOUR"@) by {
        reveal_strlit("DRAUGHTING_PRE_DEFINED_COLOUR");
        assert("DRAUGHTING_PRE_DEFINED_COLOUR"@.len() == 29);
        assert("DRAUGHTING_PRE_DEFINED_COLOUR"@[0] == 'D');
        assert("PRESENTATION_LAYER_ASSIGNMENT"@[0] == 'P');
    }
    assert(name != "DRAUGHTING_PRE_DEFINED_CURVE_FONT"@) by {
        reveal_strlit("DRAUGHTING_PRE_DEFINED_CURVE_FONT");
        assert("DRAUGHTING_PRE_DEFINED_CURVE_FONT"@.len() == 33);
    }
    assert(name != "CURVE_STYLE"@) by {
        reveal_strlit("CURVE_STYLE");
        assert("CURVE_STYLE"@.len() == 11);
    }
    assert(name != "POINT_STYLE"@) by {
        reveal_strlit("POINT_STYLE");
        assert("POINT_STYLE"@.len() == 11);
    }
    assert(name != "FILL_AREA_STYLE_COLOUR"@) by {
        reveal_strlit("FILL_AREA_STYLE_COLOUR");
        assert("FILL_AREA_STYLE_COLOUR"@.len() == 22);
    }
    assert(name != "FILL_AREA_STYLE"@) by {
        reveal_strlit("FILL_AREA_STYLE");
        assert("FILL_AREA_STYLE"@.len() == 15);
    }
    assert(name != "SURFACE_STYLE_FILL_AREA"@) by {
        reveal_strlit("SURFACE_STYLE_FILL_AREA");
        assert("SURFACE_STYLE_FILL_AREA"@.len() == 23);
    }
    assert(name != "SURFACE_SIDE_STYLE"@) by {
        reveal_strlit("SURFACE_SIDE_STYLE");
        assert("SURFACE_SIDE_STYLE"@.len() == 18);
    }
    assert(name != "SURFACE_STYLE_USAGE"@) by {
        reveal_strlit("SURFACE_STYLE_USAGE");
        assert("SURFACE_STYLE_USAGE"@.len() == 19);
    }
    assert(name != "PRESENTATION_STYLE_ASSIGNMENT"@) by {
        reveal_strlit("PRESENTATION_STYLE_ASSIGNMENT");
        assert("PRESENTATION_STYLE_ASSIGNMENT"@.len() == 29);
        assert("PRESENTATION_STYLE_ASSIGNMENT"@[13] == 'S');
        assert("PRESENTATION_LAYER_ASSIGNMENT"@[13] == 'L');
    }
    assert(name != "NAMED_UNIT"@) by {
        reveal_strlit("NAMED_UNIT");
        assert("NAMED_UNIT"@.len() == 10);
    }
    assert(name != "SI_UNIT"@) by {
        reveal_strlit("SI_UNIT");
        assert("SI_UNIT"@.len() == 7);
    }
    assert(name != "LENGTH_UNIT"@) by {
        reveal_strlit("LENGTH_UNIT");
        assert("LENGTH_UNIT"@.len() == 11);
    }
    assert(name != "PLANE_ANGLE_UNIT"@) by {
        reveal_strlit("PLANE_ANGLE_UNIT");
        assert("PLANE_ANGLE_UNIT"@.len() == 16);
    }
    assert(name != "SOLID_ANGLE_UNIT"@) by {
        reveal_strlit("SOLID_ANGLE_UNIT");
        assert("SOLID_ANGLE_UNIT"@.len() == 16);
    }
    assert(name != "CONVERSION_BASED_UNIT"@) by {
        reveal_strlit("CONVERSION_BASED_UNIT");
        assert("CONVERSION_BASED_UNIT"@.len() == 21);
    }
    assert(name != "MEASURE_WITH_UNIT"@) by {
        reveal_strlit("MEASURE_WITH_UNIT");
        assert("MEASURE_WITH_UNIT"@.len() == 17);
    }
    assert(name != "UNCERTAINTY_MEASURE_WITH_UNIT"@) by {
        reveal_strlit("UNCERTAINTY_MEASURE_WITH_UNIT");
        assert("UNCERTAINTY_MEASURE_WITH_UNIT"@.len() == 29);
        assert("UNCERTAINTY_MEASURE_WITH_UNIT"@[0] == 'U');
        assert("PRESENTATION_LAYER_ASSIGNMENT"@[0] == 'P');
    }
    assert(name != "REPRESENTATION_CONTEXT"@) by {
        reveal_strlit("REPRESENTATION_CONTEXT");
        assert("REPRESENTATION_CONTEXT"@.len() == 22);
    }
    assert(name != "GEOMETRIC_REPRESENTATION_CONTEXT"@) by {
        reveal_strlit("GEOMETRIC_REPRESENTATION_CONTEXT");
        assert("GEOMETRIC_REPRESENTATION_CONTEXT"@.len() == 32);
    }
    assert(name != "GLOBAL_UNCERTAINTY_ASSIGNED_CONTEXT"@) by {
        reveal_strlit("GLOBAL_UNCERTAINTY_ASSIGNED_CONTEXT");
        assert("GLOBAL_UNCERTAINTY_ASSIGNED_CONTEXT"@.len() == 35);
    }
    assert(name != "GLOBAL_UNIT_ASSIGNED_CONTEXT"@) by {
        reveal_strlit("GLOBAL_UNIT_ASSIGNED_CONTEXT");
        assert("GLOBAL_UNIT_ASSIGNED_CONTEXT"@.len() == 28);
    }
}

proof fn lemma_all_sound(items: Seq<ParamView>)
    ensures
        all_sound(items) == (forall|i: int| 0 <= i < items.len() ==> is_sound(#[trigger] items[i])),
    decreases items,
{
    if items.len() > 0 {
        lemma_all_sound(items.skip(1));
        let rest = items.skip(1);
        if all_sound(items) {
            assert forall|i: int| 0 <= i < items.len() implies is_sound(#[trigger] items[i]) by {
                if i > 0 {
                    assert(rest[i - 1] == items[i]);
                }
            }
        }
        if forall|i: int| 0 <= i < items.len() ==> is_sound(#[trigger] items[i]) {
            assert forall|i: int| 0 <= i < rest.len() implies is_sound(#[trigger] rest[i]) by {
                assert(rest[i] == items[i + 1]);
            }
        }
    }
}

proof fn lemma_list_refs_sum(a: Seq<ParamView>, b: Seq<ParamView>)
    ensures
        list_refs(a + b) == list_refs(a) + list_refs(b),
    decreases b.len(),
{
    if b.len() == 0 {
        assert(a + b =~= a);
        assert(list_refs(a) + list_refs(b) =~= list_refs(a));
    } else {
        lemma_list_refs_sum(a, b.drop_last());
        assert((a + b).drop_last() =~= a + b.drop_last());
        assert((a + b).last() == b.last());
        assert(list_refs(a + b) =~= list_refs(a) + list_refs(b));
    }
}

proof fn lemma_three_refs(params: Seq<ParamView>)
    requires
        params.len() == 3,
    ensures
        list_refs(params) == param_refs(params[0]) + param_refs(params[1]) + param_refs(params[2]),
{
    reveal_with_fuel(list_refs, 4);
    let two = params.drop_last();
    let one = two.drop_last();
    assert(one.drop_last() =~= Seq::empty());
    assert(one.last() == params[0]);
    assert(two.last() == params[1]);
    assert(list_refs(params) =~= param_refs(params[0]) + param_refs(params[1]) + param_refs(
        params[2],
    ));
}

proof fn lemma_contains_sum(a: Seq<u64>, b: Seq<u64>, x: u64)
    ensures
        (a + b).contains(x) == (a.contains(x) || b.contains(x)),
{
    if a.contains(x) {
        let k = choose|k: int| 0 <= k < a.len() && a[k] == x;
        assert((a + b)[k] == x);
    }
    if b.contains(x) {
        let k = choose|k: int| 0 <= k < b.len() && b[k] == x;
        assert((a + b)[a.len() + k] == x);
    }
    if (a + b).contains(x) {
        let k = choose|k: int| 0 <= k < (a + b).len() && (a + b)[k] == x;
        if k < a.len() {
            assert(a[k] == x);
        } else {
            assert(b[k - a.len()] == x);
        }
    }
}

/// The parameters of a root.
spec fn root_params(entity: EntityView) -> Seq<ParamView> {
    entity->record.parameter->List_0
}

/// The references of a root: those of its three parameters.
proof fn lemma_root_refs(entity: EntityView, x: u64)
    requires
        is_root(entity),
    ensures
        entity_refs(entity).contains(x) == (param_refs(root_params(entity)[0]).contains(x)
            || param_refs(root_params(entity)[1]).contains(x) || param_refs(
            root_params(entity)[2],
        ).contains(x)),
{
    let params = root_params(entity);
    lemma_three_refs(params);
    reveal_with_fuel(records_refs, 2);
    assert(entity.records().drop_last() =~= Seq::empty());
    assert(entity_refs(entity) =~= list_refs(params));
    lemma_contains_sum(param_refs(params[0]), param_refs(params[1]), x);
    lemma_contains_sum(param_refs(params[0]) + param_refs(params[1]), param_refs(params[2]), x);
}

proof fn lemma_more_items(entity: EntityView, items: Seq<ParamView>, x: u64)
    requires
        is_root(entity),
    ensures
        is_root(with_items(entity, items)),
        root_key(with_items(entity, items)) == root_key(entity),
        with_items(entity, items).id() == entity.id(),
        entity_refs(with_items(entity, items)).contains(x) == (entity_refs(entity).contains(x)
            || list_refs(items).contains(x)),
{
    let more = with_items(entity, items);
    lemma_root_refs(entity, x);
    lemma_root_refs(more, x);
    lemma_list_refs_sum(root_items(entity), items);
    lemma_contains_sum(list_refs(root_items(entity)), list_refs(items), x);
}

/// What a root takes over are the items of those that are merged into it.
proof fn lemma_taken(entities: Seq<EntityView>, i: int, n: nat, x: u64)
    requires
        n <= entities.len(),
    ensures
        list_refs(taken_over(entities, i, n)).contains(x) == exists|m: int|
            0 <= m < n && #[trigger] merged_into(entities, m) == Some(i) && list_refs(
                root_items(entities[m]),
            ).contains(x),
    decreases n,
{
    if n > 0 {
        let rest = taken_over(entities, i, (n - 1) as nat);
        lemma_taken(entities, i, (n - 1) as nat, x);
        if merged_into(entities, n - 1) == Some(i) {
            lemma_list_refs_sum(rest, root_items(entities[n - 1]));
            lemma_contains_sum(list_refs(rest), list_refs(root_items(entities[n - 1])), x);
        }
        let now = taken_over(entities, i, n);
        if list_refs(rest).contains(x) {
            let m = choose|m: int|
                0 <= m < n - 1 && #[trigger] merged_into(entities, m) == Some(i) && list_refs(
                    root_items(entities[m]),
                ).contains(x);
            assert(merged_into(entities, m) == Some(i));
            assert(list_refs(now).contains(x));
        }
        if exists|m: int|
            0 <= m < n && #[trigger] merged_into(entities, m) == Some(i) && list_refs(
                root_items(entities[m]),
            ).contains(x) {
            let m = choose|m: int|
                0 <= m < n && #[trigger] merged_into(entities, m) == Some(i) && list_refs(
                    root_items(entities[m]),
                ).contains(x);
            if m < n - 1 {
                assert(list_refs(rest).contains(x));
            }
        }
    }
}

/// The places of the entities that are not merged into another one.
spec fn lasting(entities: Seq<EntityView>, n: nat) -> Seq<int>
    decreases n,
{
    if n == 0 {
        Seq::empty()
    } else {
        let rest = lasting(entities, (n - 1) as nat);
        if merged_into(entities, n - 1) is Some {
            rest
        } else {
            rest.push(n - 1)
        }
    }
}

/// What an entity that lasts becomes.
spec fn grown(entities: Seq<EntityView>, i: int) -> EntityView {
    if free_root(entities, i) {
        with_items(entities[i], taken_over(entities, i, entities.len()))
    } else {
        entities[i]
    }
}

proof fn lemma_lasting(entities: Seq<EntityView>, n: nat)
    requires
        n <= entities.len(),
    ensures
        ({
            let places = lasting(entities, n);
            let out = consolidated_upto(entities, n);
            &&& places.len() == out.len()
            &&& ascends(places, n as int)
            &&& forall|a: int|
                0 <= a < out.len() ==> #[trigger] out[a] == grown(entities, places[a])
                    && merged_into(entities, places[a]) is None
            &&& forall|i: int|
                0 <= i < n && #[trigger] merged_into(entities, i) is None ==> places.contains(i)
        }),
    decreases n,
{
    if n > 0 {
        lemma_lasting(entities, (n - 1) as nat);
        let before = lasting(entities, (n - 1) as nat);
        let places = lasting(entities, n);
        let out = consolidated_upto(entities, n);
        assert forall|a: int| 0 <= a < out.len() implies #[trigger] out[a] == grown(
            entities,
            places[a],
        ) && merged_into(entities, places[a]) is None by {
            if a < before.len() {
                assert(consolidated_upto(entities, (n - 1) as nat)[a] == grown(
                    entities,
                    before[a],
                ));
            }
        }
        assert forall|i: int|
            0 <= i < n && #[trigger] merged_into(entities, i) is None implies places.contains(
            i,
        ) by {
            if i < n - 1 {
                assert(before.contains(i));
                let q = choose|q: int| 0 <= q < before.len() && before[q] == i;
                assert(places[q] == i);
            } else {
                assert(places[places.len() - 1] == i);
            }
        }
    }
}

/// The first root with a key comes before all others.
proof fn lemma_first_is_first(entities: Seq<EntityView>, key: Seq<char>, n: nat, j: int)
    requires
        0 <= j < n <= entities.len(),
        free_root(entities, j),
        root_key(entities[j]) == key,
    ensures
        first_root(entities, key, n) matches Some(i) && i <= j,
    decreases n,
{
    if j < n - 1 {
        lemma_first_is_first(entities, key, (n - 1) as nat, j);
    } else {
        lemma_first_root(entities, key, (n - 1) as nat);
    }
}

/// The root that others are merged into lasts.
proof fn lemma_target_lasts(entities: Seq<EntityView>, m: int, y: int)
    requires
        0 <= m < entities.len(),
        merged_into(entities, m) == Some(y),
    ensures
        0 <= y < m,
        free_root(entities, y),
        free_root(entities, m),
        root_key(entities[y]) == root_key(entities[m]),
        merged_into(entities, y) is None,
{
    let key = root_key(entities[m]);
    lemma_first_root(entities, key, m as nat);
    lemma_first_root(entities, key, y as nat);
    if let Some(z) = first_root(entities, key, y as nat) {
        lemma_first_is_first(entities, key, m as nat, z);
    }
}

/// Whether some entity refers to an id.
pub open spec fn referred(entities: Seq<EntityView>, id: u64) -> bool {
    exists|i: int| 0 <= i < entities.len() && entity_refs(#[trigger] entities[i]).contains(id)
}

proof fn lemma_referred(entities: Seq<EntityView>, id: u64)
    ensures
        all_refs(entities).contains(id) == referred(entities, id),
    decreases entities.len(),
{
    if referred(entities, id) {
        let i = choose|i: int|
            0 <= i < entities.len() && entity_refs(#[trigger] entities[i]).contains(id);
        lemma_refs_in_all(entities, i, id);
    }
    if all_refs(entities).contains(id) {
        let front = entities.drop_last();
        lemma_referred(front, id);
        lemma_contains_sum(all_refs(front), entity_refs(entities.last()), id);
        if all_refs(front).contains(id) {
            let i = choose|i: int|
                0 <= i < front.len() && entity_refs(#[trigger] front[i]).contains(id);
            assert(entities[i] == front[i]);
        } else {
            assert(entities[entities.len() - 1] == entities.last());
        }
    }
}

/// Roots that agree refer to the same entities, but for their items.
proof fn lemma_same_root(a: EntityView, b: EntityView, f: spec_fn(u64) -> u64, ids: Set<u64>)
    requires
        is_root(a),
        is_root(b),
        is_sound_entity(a),
        is_sound_entity(b),
        separates(f, ids),
        within(entity_refs(a), ids),
        within(entity_refs(b), ids),
        root_key(map_entity(a, f)) == root_key(map_entity(b, f)),
    ensures
        root_key(a) == root_key(b),
        forall|x: u64|
            entity_refs(a).contains(x) && !list_refs(root_items(a)).contains(x) ==> #[trigger]
            entity_refs(b).contains(x),
{
    reveal_strlit("MDGPR|");
    reveal_strlit("PLA|");
    assert("MDGPR|"@.len() == 6 && "MDGPR|"@[0] == 'M');
    assert("PLA|"@.len() == 4 && "PLA|"@[0] == 'P');
    let p = root_params(a);
    let q = root_params(b);
    let fp = map_items(p, f);
    let fq = map_items(q, f);
    assert(map_refs(a->record.parameter, f)->List_0 =~= fp);
    assert(map_refs(b->record.parameter, f)->List_0 =~= fq);
    assert(a.records()[0] == a->record);
    assert(b.records()[0] == b->record);
    assert(is_sound_record(a.records()[0]));
    assert(is_sound_record(b.records()[0]));
    lemma_all_sound(p);
    lemma_all_sound(q);
    assert forall|i: int, x: u64|
        0 <= i < 3 && #[trigger] param_refs(p[i]).contains(x) implies entity_refs(a).contains(
        x,
    ) by {
        lemma_root_refs(a, x);
        assert(i == 0 || i == 1 || i == 2);
    }
    assert forall|i: int, x: u64|
        0 <= i < 3 && #[trigger] param_refs(q[i]).contains(x) implies entity_refs(b).contains(
        x,
    ) by {
        lemma_root_refs(b, x);
        assert(i == 0 || i == 1 || i == 2);
    }
    assert forall|i: int| 0 <= i < 3 implies within(#[trigger] param_refs(p[i]), ids) && within(
        param_refs(q[i]),
        ids,
    ) by {
        lemma_within_subset(param_refs(p[i]), entity_refs(a), ids);
        lemma_within_subset(param_refs(q[i]), entity_refs(b), ids);
    }
    let ka = root_key(map_entity(a, f));
    let kb = root_key(map_entity(b, f));
    assert(within(param_refs(p[0]), ids) && within(param_refs(p[1]), ids) && within(
        param_refs(p[2]),
        ids,
    ));
    assert(is_sound(p[0]) && is_sound(p[1]) && is_sound(p[2]));
    assert(is_sound(q[0]) && is_sound(q[1]) && is_sound(q[2]));
    let last = if items_at(a->record.name) == Some(1int) {
        2int
    } else {
        1int
    };
    let other = if items_at(b->record.name) == Some(1int) {
        2int
    } else {
        1int
    };
    if last == 2 {
        assert(ka[0] == 'M');
        assert(other == 2) by {
            if other != 2 {
                assert(kb[0] == 'P');
            }
        }
        assert(ka.skip(6) =~= param_text(fp[0]) + (seq!['|'] + param_text(fp[2])));
        assert(kb.skip(6) =~= param_text(fq[0]) + (seq!['|'] + param_text(fq[2])));
    } else {
        assert(ka[0] == 'P');
        assert(other == 1) by {
            if other != 1 {
                assert(kb[0] == 'M');
            }
        }
        assert(ka.skip(4) =~= param_text(fp[0]) + (seq!['|'] + param_text(fp[1])));
        assert(kb.skip(4) =~= param_text(fq[0]) + (seq!['|'] + param_text(fq[1])));
    }
    let ta = param_text(fp[last]);
    let tb = param_text(fq[last]);
    lemma_same_param(p[0], seq!['|'] + ta, q[0], seq!['|'] + tb, f, ids);
    assert((seq!['|'] + ta).skip(1) =~= ta);
    assert((seq!['|'] + tb).skip(1) =~= tb);
    let empty = Seq::<char>::empty();
    assert(ta + empty =~= ta);
    assert(tb + empty =~= tb);
    lemma_same_param(p[last], empty, q[last], empty, f, ids);
    assert forall|x: u64|
        entity_refs(a).contains(x) && !list_refs(root_items(a)).contains(x) implies #[trigger]
    entity_refs(b).contains(x) by {
        lemma_root_refs(a, x);
        lemma_root_refs(b, x);
    }
}

proof fn lemma_within_subset(part: Seq<u64>, whole: Seq<u64>, ids: Set<u64>)
    requires
        forall|x: u64| part.contains(x) ==> #[trigger] whole.contains(x),
        within(whole, ids),
    ensures
        within(part, ids),
{
    assert forall|i: int| 0 <= i < part.len() implies ids.contains(#[trigger] part[i]) by {
        assert(part.contains(part[i]));
        assert(whole.contains(part[i]));
        let k = choose|k: int| 0 <= k < whole.len() && whole[k] == part[i];
        assert(ids.contains(whole[k]));
    }
}

/// The ids that some entities have or refer to.
pub open spec fn id_set(entities: Seq<EntityView>) -> Set<u64> {
    Set::new(|id: u64| has_id(entities, id) || referred(entities, id))
}

proof fn lemma_refs_within(entities: Seq<EntityView>, i: int)
    requires
        0 <= i < entities.len(),
    ensures
        within(entity_refs(entities[i]), id_set(entities)),
{
    let refs = entity_refs(entities[i]);
    assert forall|k: int| 0 <= k < refs.len() implies id_set(entities).contains(
        #[trigger] refs[k],
    ) by {
        assert(entity_refs(entities[i]).contains(refs[k]));
        assert(referred(entities, refs[k]));
    }
}

/// What an entity that lasts refers to.
proof fn lemma_grown(entities: Seq<EntityView>, i: int, x: u64)
    requires
        0 <= i < entities.len(),
    ensures
        grown(entities, i).id() == entities[i].id(),
        is_root(grown(entities, i)) == is_root(entities[i]),
        is_root(entities[i]) ==> root_key(grown(entities, i)) == root_key(entities[i]),
        entity_refs(entities[i]).contains(x) ==> entity_refs(grown(entities, i)).contains(x),
        entity_refs(grown(entities, i)).contains(x) ==> referred(entities, x),
        forall|m: int|
            0 <= m < entities.len() && #[trigger] merged_into(entities, m) == Some(i) && list_refs(
                root_items(entities[m]),
            ).contains(x) && free_root(entities, i) ==> entity_refs(grown(entities, i)).contains(x),
{
    if entity_refs(entities[i]).contains(x) {
        assert(referred(entities, x));
    }
    if free_root(entities, i) {
        let items = taken_over(entities, i, entities.len());
        lemma_more_items(entities[i], items, x);
        lemma_taken(entities, i, entities.len(), x);
        if list_refs(items).contains(x) {
            let m = choose|m: int|
                0 <= m < entities.len() && #[trigger] merged_into(entities, m) == Some(i)
                    && list_refs(root_items(entities[m])).contains(x);
            lemma_root_refs(entities[m], x);
            assert(entity_refs(entities[m]).contains(x));
        }
    }
}

proof fn lemma_grown_sound(entities: Seq<EntityView>, i: int)
    requires
        0 <= i < entities.len(),
        all_sound_entities(entities),
    ensures
        is_sound_entity(grown(entities, i)),
{
    assert(is_sound_entity(entities[i]));
    if free_root(entities, i) {
        let items = taken_over(entities, i, entities.len());
        lemma_taken_sound(entities, i, entities.len());
        let e = entities[i];
        let params = root_params(e);
        let at = items_at(e->record.name)->Some_0;
        let more = root_items(e) + items;
        assert(e.records()[0] == e->record);
        assert(is_sound_record(e.records()[0]));
        lemma_all_sound(params);
        assert(is_sound(params[at]));
        lemma_all_sound(root_items(e));
        lemma_all_sound(items);
        lemma_all_sound(more);
        assert forall|k: int| 0 <= k < more.len() implies is_sound(#[trigger] more[k]) by {
            if k < root_items(e).len() {
                assert(is_sound(root_items(e)[k]));
            } else {
                assert(is_sound(items[k - root_items(e).len()]));
            }
        }
        let next = params.update(at, ParamView::List(more));
        lemma_all_sound(next);
        assert forall|k: int| 0 <= k < next.len() implies is_sound(#[trigger] next[k]) by {
            if k != at {
                assert(is_sound(params[k]));
            }
        }
        let g = grown(entities, i);
        assert(g.records() =~= seq![g->record]);
        assert forall|k: int| 0 <= k < g.records().len() implies is_sound_record(
            #[trigger] g.records()[k],
        ) by {
            assert(g.records()[k] == g->record);
        }
    }
}

proof fn lemma_taken_sound(entities: Seq<EntityView>, i: int, n: nat)
    requires
        n <= entities.len(),
        all_sound_entities(entities),
    ensures
        all_sound(taken_over(entities, i, n)),
    decreases n,
{
    if n > 0 {
        lemma_taken_sound(entities, i, (n - 1) as nat);
        let rest = taken_over(entities, i, (n - 1) as nat);
        if merged_into(entities, n - 1) == Some(i) {
            let e = entities[n - 1];
            let items = root_items(e);
            assert(is_sound_entity(e));
            assert(e.records()[0] == e->record);
            assert(is_sound_record(e.records()[0]));
            lemma_all_sound(root_params(e));
            assert(is_sound(root_params(e)[items_at(e->record.name)->Some_0]));
            lemma_all_sound(items);
            lemma_all_sound(rest);
            lemma_all_sound(rest + items);
            assert forall|k: int| 0 <= k < (rest + items).len() implies is_sound(
                #[trigger] (rest + items)[k],
            ) by {
                if k < rest.len() {
                    assert(is_sound(rest[k]));
                } else {
                    assert(is_sound(items[k - rest.len()]));
                }
            }
        }
    }
}

/// What was referred to is referred to still.
proof fn lemma_still_referred(entities: Seq<EntityView>, x: u64)
    requires
        all_sound_entities(entities),
        referred(entities, x),
    ensures
        referred(consolidated(entities), x),
{
    let out = consolidated(entities);
    let places = lasting(entities, entities.len());
    lemma_lasting(entities, entities.len());
    let i = choose|i: int|
        0 <= i < entities.len() && entity_refs(#[trigger] entities[i]).contains(x);
    let y = match merged_into(entities, i) {
        None => i,
        Some(y) => y,
    };
    if merged_into(entities, i) is Some {
        lemma_target_lasts(entities, i, y);
        let id = |z: u64| z;
        let ids = id_set(entities);
        lemma_refs_within(entities, i);
        lemma_refs_within(entities, y);
        lemma_identity_entity(entities[i], id);
        lemma_identity_entity(entities[y], id);
        assert(is_sound_entity(entities[i]) && is_sound_entity(entities[y]));
        lemma_same_root(entities[i], entities[y], id, ids);
    }
    lemma_grown(entities, y, x);
    assert(merged_into(entities, y) is None);
    assert(places.contains(y));
    let q = choose|q: int| 0 <= q < places.len() && places[q] == y;
    assert(out[q] == grown(entities, y));
    assert(entity_refs(out[q]).contains(x));
}

/// Merging presentation roots leaves no two that agree, and keeps values apart.
pub proof fn law_consolidated_roots_differ(entities: Seq<EntityView>)
    requires
        distinct(entities),
        values_differ(entities),
        all_sound_entities(entities),
    ensures
        distinct(consolidated(entities)),
        values_differ(consolidated(entities)),
        all_sound_entities(consolidated(entities)),
        roots_differ(consolidated(entities)),
        consolidated(entities).len() <= entities.len(),
{
    let out = consolidated(entities);
    let places = lasting(entities, entities.len());
    lemma_lasting(entities, entities.len());
    lemma_ascends_short(places, entities.len() as int);
    assert forall|a: int| 0 <= a < out.len() implies #[trigger] out[a] == grown(
        entities,
        places[a],
    ) && out[a].id() == entities[places[a]].id() && is_sound_entity(out[a]) && (internable(out[a])
        ==> out[a] == entities[places[a]]) by {
        lemma_grown(entities, places[a], 0);
        lemma_grown_sound(entities, places[a]);
        if free_root(entities, places[a]) {
            lemma_root_is_no_value(entities[places[a]]->record.name);
        }
    }
    assert forall|a: int, b: int| 0 <= a < b < out.len() implies (#[trigger] out[a]).id() != (
    #[trigger] out[b]).id() by {
        assert(places[a] < places[b]);
    }
    assert forall|a: int, b: int|
        0 <= a < b < out.len() && internable(#[trigger] out[a]) && internable(
            #[trigger] out[b],
        ) implies body_text(out[a]) != body_text(out[b]) by {
        assert(places[a] < places[b]);
        assert(internable(entities[places[a]]) && internable(entities[places[b]]));
    }
    assert forall|a: int, b: int|
        0 <= a < b < out.len() && #[trigger] free_root(out, a) && #[trigger] free_root(
            out,
            b,
        ) implies root_key(out[a]) != root_key(out[b]) by {
        let i = places[a];
        let j = places[b];
        assert(i < j);
        lemma_grown(entities, i, 0);
        lemma_grown(entities, j, 0);
        lemma_referred(entities, entities[i].id());
        lemma_referred(entities, entities[j].id());
        lemma_referred(out, entities[i].id());
        lemma_referred(out, entities[j].id());
        if referred(entities, entities[i].id()) {
            lemma_still_referred(entities, entities[i].id());
        }
        if referred(entities, entities[j].id()) {
            lemma_still_referred(entities, entities[j].id());
        }
        assert(out[a].id() == entities[i].id());
        assert(out[b].id() == entities[j].id());
        assert(free_root(entities, i) && free_root(entities, j));
        if root_key(out[a]) == root_key(out[b]) {
            lemma_first_is_first(entities, root_key(entities[j]), j as nat, i);
            assert(merged_into(entities, j) is Some);
        }
    }
}

proof fn lemma_numbering(entities: Seq<EntityView>, n: nat, i: int)
    requires
        distinct(entities),
        0 <= i < n <= entities.len(),
    ensures
        numbering(entities, n).contains_key(entities[i].id()),
        numbering(entities, n)[entities[i].id()] == (i + 1) as u64,
    decreases n,
{
    if i < n - 1 {
        lemma_numbering(entities, (n - 1) as nat, i);
        assert(entities[i].id() != entities[n - 1].id());
    }
}

/// Only ids of entities are numbered.
proof fn lemma_numbered_exist(entities: Seq<EntityView>, n: nat, id: u64)
    requires
        n <= entities.len(),
        numbering(entities, n).contains_key(id),
    ensures
        exists|i: int| 0 <= i < n && (#[trigger] entities[i]).id() == id,
    decreases n,
{
    if n > 0 {
        if entities[n - 1].id() != id {
            lemma_numbered_exist(entities, (n - 1) as nat, id);
        }
    }
}

/// The new number of an id: the position of its entity, or the id itself.
proof fn lemma_new_number(entities: Seq<EntityView>, id: u64)
    requires
        distinct(entities),
        meets_none(entities),
        id_set(entities).contains(id),
        entities.len() <= u64::MAX,
    ensures
        ({
            let f = lookup(numbering(entities, entities.len()));
            if has_id(entities, id) {
                1 <= f(id) <= entities.len() && entities[f(id) - 1].id() == id
            } else {
                f(id) == id && !(1 <= id <= entities.len())
            }
        }),
{
    let numbers = numbering(entities, entities.len());
    if has_id(entities, id) {
        let i = choose|i: int| 0 <= i < entities.len() && (#[trigger] entities[i]).id() == id;
        lemma_numbering(entities, entities.len(), i);
    } else {
        assert(!meets(entities, id));
        if numbers.contains_key(id) {
            lemma_numbered_exist(entities, entities.len(), id);
        }
    }
}

/// Whether a number that is given to one of some entities is referred to though no entity has
/// it.
pub open spec fn meets(entities: Seq<EntityView>, id: u64) -> bool {
    1 <= id <= entities.len() && referred(entities, id) && !has_id(entities, id)
}

/// Whether numbering anew gives no reference without an entity one.
pub open spec fn meets_none(entities: Seq<EntityView>) -> bool {
    forall|id: u64| !#[trigger] meets(entities, id)
}

/// Numbering anew keeps apart what was apart.
pub proof fn law_renumbered_stays_apart(entities: Seq<EntityView>)
    requires
        distinct(entities),
        meets_none(entities),
        values_differ(entities),
        all_sound_entities(entities),
        roots_differ(entities),
        entities.len() <= u64::MAX,
    ensures
        dense(renumbered(entities)),
        values_differ(renumbered(entities)),
        roots_differ(renumbered(entities)),
{
    let out = renumbered(entities);
    let numbers = numbering(entities, entities.len());
    let f = lookup(numbers);
    let ids = id_set(entities);
    assert(separates(f, ids)) by {
        assert forall|a: u64, b: u64|
            ids.contains(a) && ids.contains(b) && #[trigger] f(a) == #[trigger] f(
                b,
            ) implies a == b by {
            lemma_new_number(entities, a);
            lemma_new_number(entities, b);
        }
    }
    assert forall|i: int| 0 <= i < out.len() implies (#[trigger] out[i]).id() == i + 1 && internable(
        out[i],
    ) == internable(entities[i]) && body_text(out[i]) == body_text(map_entity(entities[i], f))
        && entity_refs(out[i]) == entity_refs(entities[i]).map_values(f) && is_root(out[i])
        == is_root(entities[i]) && (is_root(entities[i]) ==> root_key(out[i]) == root_key(
        map_entity(entities[i], f),
    )) by {
        lemma_numbering(entities, entities.len(), i);
        lemma_mapped_entity(entities[i], f);
        let mapped = map_entity(entities[i], f);
        assert(out[i] == mapped.with_id(numbers[entities[i].id()]));
        assert(out[i].records() =~= mapped.records());
        if let EntityView::Simple { record, .. } = entities[i] {
            if let ParamView::List(params) = record.parameter {
                assert(map_refs(record.parameter, f)->List_0 =~= map_items(params, f));
            }
        }
    }
    assert forall|i: int, j: int|
        0 <= i < j < out.len() && internable(#[trigger] out[i]) && internable(
            #[trigger] out[j],
        ) implies body_text(out[i]) != body_text(out[j]) by {
        assert(is_sound_entity(entities[i]) && is_sound_entity(entities[j]));
        lemma_refs_within(entities, i);
        lemma_refs_within(entities, j);
        if body_text(out[i]) == body_text(out[j]) {
            law_text_survives_renaming(entities[i], entities[j], f, ids);
        }
    }
    assert forall|i: int| 0 <= i < out.len() && #[trigger] free_root(out, i) implies free_root(
        entities,
        i,
    ) by {
        lemma_referred(entities, entities[i].id());
        lemma_referred(out, out[i].id());
        if referred(entities, entities[i].id()) {
            let x = entities[i].id();
            let m = choose|m: int|
                0 <= m < entities.len() && entity_refs(#[trigger] entities[m]).contains(x);
            let w = choose|w: int|
                0 <= w < entity_refs(entities[m]).len() && entity_refs(entities[m])[w] == x;
            lemma_numbering(entities, entities.len(), i);
            assert(entity_refs(out[m])[w] == f(x));
            assert(entity_refs(out[m]).contains(out[i].id()));
        }
    }
    assert forall|i: int, j: int|
        0 <= i < j < out.len() && #[trigger] free_root(out, i) && #[trigger] free_root(
            out,
            j,
        ) implies root_key(out[i]) != root_key(out[j]) by {
        assert(free_root(entities, i) && free_root(entities, j));
        assert(is_sound_entity(entities[i]) && is_sound_entity(entities[j]));
        lemma_refs_within(entities, i);
        lemma_refs_within(entities, j);
        if root_key(out[i]) == root_key(out[j]) {
            lemma_same_root(entities[i], entities[j], f, ids);
        }
    }
}

proof fn lemma_nothing_alike(entities: Seq<EntityView>, n: nat)
    requires
        n <= entities.len(),
        values_differ(entities),
    ensures
        pending(entities, Map::empty(), n).len() == 0,
    decreases n,
{
    if n > 0 {
        lemma_nothing_alike(entities, (n - 1) as nat);
        let none = Map::<u64, u64>::empty();
        let j = n - 1;
        if mergeable(entities[j], none) {
            crate::settled::lemma_first(entities, none, key_text(entities[j], none), j as nat);
            if let Some(i) = first_with_key(
                entities,
                none,
                key_text(entities[j], none),
                j as nat,
            ) {
                lemma_plain_key(entities[i]);
                lemma_plain_key(entities[j]);
            }
        }
    }
}

/// Without aliases the key of an entity is its text.
proof fn lemma_plain_key(entity: EntityView)
    ensures
        key_text(entity, Map::empty()) == body_text(entity),
{
    let none = Map::<u64, u64>::empty();
    assert forall|x: u64| #[trigger] resolver(none)(x) == x by {
        reveal_with_fuel(chase, 2);
    }
    lemma_identity_entity(entity, resolver(none));
}

proof fn lemma_all_survive(entities: Seq<EntityView>)
    ensures
        survivors(entities, Map::empty()) == entities,
    decreases entities.len(),
{
    let none = Map::<u64, u64>::empty();
    if entities.len() > 0 {
        lemma_all_survive(entities.drop_last());
        reveal_with_fuel(chase, 2);
        lemma_identity_entity(entities.last(), lookup(none));
        assert(entities.drop_last().push(entities.last()) =~= entities);
    } else {
        assert(entities =~= Seq::empty());
    }
}

/// Entities in which nothing is alike stay as they are.
pub proof fn law_interned_twice(entities: Seq<EntityView>)
    requires
        values_differ(entities),
    ensures
        interned(entities) == entities,
{
    let none = Map::<u64, u64>::empty();
    lemma_nothing_alike(entities, entities.len());
    assert(rounds(entities, none, entities.len()) == none);
    assert(compressed(none) =~= none);
    lemma_all_survive(entities);
}

/// Entities of which no two free roots agree stay as they are.
pub proof fn law_consolidated_twice(entities: Seq<EntityView>)
    requires
        roots_differ(entities),
    ensures
        consolidated(entities) == entities,
{
    lemma_all_last(entities, entities.len());
    assert(entities.take(entities.len() as int) =~= entities);
}

proof fn lemma_not_merged(entities: Seq<EntityView>, i: int)
    requires
        roots_differ(entities),
        0 <= i < entities.len(),
    ensures
        merged_into(entities, i) is None,
{
    if free_root(entities, i) {
        let key = root_key(entities[i]);
        lemma_first_root(entities, key, i as nat);
        if let Some(j) = first_root(entities, key, i as nat) {
            assert(free_root(entities, j));
        }
    }
}

proof fn lemma_nothing_taken(entities: Seq<EntityView>, i: int, n: nat)
    requires
        roots_differ(entities),
        n <= entities.len(),
    ensures
        taken_over(entities, i, n) == Seq::<ParamView>::empty(),
    decreases n,
{
    if n > 0 {
        lemma_nothing_taken(entities, i, (n - 1) as nat);
        lemma_not_merged(entities, n - 1);
    }
}

proof fn lemma_all_last(entities: Seq<EntityView>, n: nat)
    requires
        roots_differ(entities),
        n <= entities.len(),
    ensures
        consolidated_upto(entities, n) == entities.take(n as int),
    decreases n,
{
    if n > 0 {
        lemma_all_last(entities, (n - 1) as nat);
        lemma_not_merged(entities, n - 1);
        if free_root(entities, n - 1) {
            lemma_nothing_taken(entities, n - 1, entities.len());
            let e = entities[n - 1];
            let at = items_at(e->record.name)->Some_0;
            let params = root_params(e);
            assert(root_items(e) + Seq::<ParamView>::empty() =~= root_items(e));
            assert(params.update(at, ParamView::List(root_items(e))) =~= params);
        }
        assert(entities.take(n as int) =~= entities.take(n - 1).push(entities[n - 1]));
    } else {
        assert(entities.take(0) =~= Seq::empty());
    }
}

/// Entities that are numbered from one upwards stay as they are.
pub proof fn law_renumbered_twice(entities: Seq<EntityView>)
    requires
        dense(entities),
    ensures
        renumbered(entities) == entities,
{
    let numbers = numbering(entities, entities.len());
    let f = lookup(numbers);
    assert(distinct(entities));
    assert forall|x: u64| #[trigger] f(x) == x by {
        if numbers.contains_key(x) {
            lemma_numbered_exist(entities, entities.len(), x);
            let i = choose|i: int| 0 <= i < entities.len() && (#[trigger] entities[i]).id() == x;
            lemma_numbering(entities, entities.len(), i);
        }
    }
    assert forall|i: int| 0 <= i < entities.len() implies renumbered_entity(entities[i], numbers)
        == entities[i] by {
        lemma_numbering(entities, entities.len(), i);
        lemma_identity_entity(entities[i], f);
    }
    assert(renumbered(entities) =~= entities);
}

/// What has been cleaned stays as it is when it is cleaned again: where ids are distinct, the
/// words are those of the grammar, and numbering anew gives no reference without an entity one.
pub proof fn law_cleaned_twice(entities: Seq<EntityView>)
    requires
        distinct(entities),
        all_sound_entities(entities),
        meets_none(consolidated(interned(entities))),
        entities.len() <= u64::MAX,
    ensures
        cleaned(cleaned(entities)) == cleaned(entities),
        dense(cleaned(entities)),
        values_differ(cleaned(entities)),
        roots_differ(cleaned(entities)),
{
    law_interned_values_differ(entities);
    let a = interned(entities);
    law_consolidated_roots_differ(a);
    let b = consolidated(a);
    law_renumbered_stays_apart(b);
    let c = renumbered(b);
    law_interned_twice(c);
    law_consolidated_twice(c);
    law_renumbered_twice(c);
}

} // verus!
