//! Sharing of equal values.
//!
//! Entities that only carry a value (geometry without topology, styles, units, contexts) are
//! merged where they are written alike. Nothing that has an identity of its own is touched.

use std::collections::HashMap;
use vstd::prelude::*;

use crate::ast::{
    entities_view, entity_id, records_view, EntityInstance, EntityView, RecordView,
};
use crate::counts::{counted, TypeCounts};
use crate::keys::KeyIndex;
use crate::refs::{
    chase, chase_id, chaser, lookup, map_entity, redirect_entity, rewrite_entity_refs,
};
use crate::text::same_text;
use crate::write::{record_text, records_text, write_record, write_records};

verus! {

broadcast use vstd::std_specs::hash::group_hash_axioms;

/// Whether records of this name only carry a value. Names of topological objects (vertices,
/// edges, loops, faces, shells, solids) are not among them.
pub open spec fn internable_name(name: Seq<char>) -> bool {
    ||| name == "CARTESIAN_POINT"@
    ||| name == "DIRECTION"@
    ||| name == "VECTOR"@
    ||| name == "AXIS1_PLACEMENT"@
    ||| name == "AXIS2_PLACEMENT_2D"@
    ||| name == "AXIS2_PLACEMENT_3D"@
    ||| name == "LINE"@
    ||| name == "CIRCLE"@
    ||| name == "ELLIPSE"@
    ||| name == "PLANE"@
    ||| name == "CYLINDRICAL_SURFACE"@
    ||| name == "CONICAL_SURFACE"@
    ||| name == "SPHERICAL_SURFACE"@
    ||| name == "TOROIDAL_SURFACE"@
    ||| name == "SURFACE_OF_LINEAR_EXTRUSION"@
    ||| name == "SURFACE_OF_REVOLUTION"@
    ||| name == "B_SPLINE_CURVE"@
    ||| name == "B_SPLINE_CURVE_WITH_KNOTS"@
    ||| name == "RATIONAL_B_SPLINE_CURVE"@
    ||| name == "B_SPLINE_SURFACE"@
    ||| name == "B_SPLINE_SURFACE_WITH_KNOTS"@
    ||| name == "RATIONAL_B_SPLINE_SURFACE"@
    ||| name == "COLOUR_RGB"@
    ||| name == "DRAUGHTING_PRE_DEFINED_COLOUR"@
    ||| name == "DRAUGHTING_PRE_DEFINED_CURVE_FONT"@
    ||| name == "CURVE_STYLE"@
    ||| name == "POINT_STYLE"@
    ||| name == "FILL_AREA_STYLE_COLOUR"@
    ||| name == "FILL_AREA_STYLE"@
    ||| name == "SURFACE_STYLE_FILL_AREA"@
    ||| name == "SURFACE_SIDE_STYLE"@
    ||| name == "SURFACE_STYLE_USAGE"@
    ||| name == "PRESENTATION_STYLE_ASSIGNMENT"@
    ||| name == "NAMED_UNIT"@
    ||| name == "SI_UNIT"@
    ||| name == "LENGTH_UNIT"@
    ||| name == "PLANE_ANGLE_UNIT"@
    ||| name == "SOLID_ANGLE_UNIT"@
    ||| name == "CONVERSION_BASED_UNIT"@
    ||| name == "MEASURE_WITH_UNIT"@
    ||| name == "UNCERTAINTY_MEASURE_WITH_UNIT"@
    ||| name == "REPRESENTATION_CONTEXT"@
    ||| name == "GEOMETRIC_REPRESENTATION_CONTEXT"@
    ||| name == "GLOBAL_UNCERTAINTY_ASSIGNED_CONTEXT"@
    ||| name == "GLOBAL_UNIT_ASSIGNED_CONTEXT"@
}

/// Whether a record of this name only carries a value.
pub fn internable_record(name: &str) -> (out: bool)
    ensures
        out == internable_name(name@),
{
    same_text(name, "CARTESIAN_POINT")
        || same_text(name, "DIRECTION")
        || same_text(name, "VECTOR")
        || same_text(name, "AXIS1_PLACEMENT")
        || same_text(name, "AXIS2_PLACEMENT_2D")
        || same_text(name, "AXIS2_PLACEMENT_3D")
        || same_text(name, "LINE")
        || same_text(name, "CIRCLE")
        || same_text(name, "ELLIPSE")
        || same_text(name, "PLANE")
        || same_text(name, "CYLINDRICAL_SURFACE")
        || same_text(name, "CONICAL_SURFACE")
        || same_text(name, "SPHERICAL_SURFACE")
        || same_text(name, "TOROIDAL_SURFACE")
        || same_text(name, "SURFACE_OF_LINEAR_EXTRUSION")
        || same_text(name, "SURFACE_OF_REVOLUTION")
        || same_text(name, "B_SPLINE_CURVE")
        || same_text(name, "B_SPLINE_CURVE_WITH_KNOTS")
        || same_text(name, "RATIONAL_B_SPLINE_CURVE")
        || same_text(name, "B_SPLINE_SURFACE")
        || same_text(name, "B_SPLINE_SURFACE_WITH_KNOTS")
        || same_text(name, "RATIONAL_B_SPLINE_SURFACE")
        || same_text(name, "COLOUR_RGB")
        || same_text(name, "DRAUGHTING_PRE_DEFINED_COLOUR")
        || same_text(name, "DRAUGHTING_PRE_DEFINED_CURVE_FONT")
        || same_text(name, "CURVE_STYLE")
        || same_text(name, "POINT_STYLE")
        || same_text(name, "FILL_AREA_STYLE_COLOUR")
        || same_text(name, "FILL_AREA_STYLE")
        || same_text(name, "SURFACE_STYLE_FILL_AREA")
        || same_text(name, "SURFACE_SIDE_STYLE")
        || same_text(name, "SURFACE_STYLE_USAGE")
        || same_text(name, "PRESENTATION_STYLE_ASSIGNMENT")
        || same_text(name, "NAMED_UNIT")
        || same_text(name, "SI_UNIT")
        || same_text(name, "LENGTH_UNIT")
        || same_text(name, "PLANE_ANGLE_UNIT")
        || same_text(name, "SOLID_ANGLE_UNIT")
        || same_text(name, "CONVERSION_BASED_UNIT")
        || same_text(name, "MEASURE_WITH_UNIT")
        || same_text(name, "UNCERTAINTY_MEASURE_WITH_UNIT")
        || same_text(name, "REPRESENTATION_CONTEXT")
        || same_text(name, "GEOMETRIC_REPRESENTATION_CONTEXT")
        || same_text(name, "GLOBAL_UNCERTAINTY_ASSIGNED_CONTEXT")
        || same_text(name, "GLOBAL_UNIT_ASSIGNED_CONTEXT")
}

/// Whether an entity only carries a value: every one of its records does.
pub open spec fn internable(entity: EntityView) -> bool {
    match entity {
        EntityView::Simple { record, .. } => internable_name(record.name),
        EntityView::Complex { subsuper, .. } => subsuper.len() > 0 && forall|i: int|
            0 <= i < subsuper.len() ==> internable_name(#[trigger] subsuper[i].name),
    }
}

/// How far an alias is followed.
pub open spec fn max_hops() -> nat {
    64
}

/// The id that stands for another one.
pub open spec fn resolve(alias: Map<u64, u64>, id: u64) -> u64 {
    chase(alias, id, max_hops())
}

pub open spec fn resolver(alias: Map<u64, u64>) -> spec_fn(u64) -> u64 {
    chaser(alias, max_hops())
}

/// The text by which equal entities are recognised: the entity as it would be written, but
/// for its id, with every reference resolved.
pub open spec fn key_text(entity: EntityView, alias: Map<u64, u64>) -> Seq<char> {
    match map_entity(entity, resolver(alias)) {
        EntityView::Simple { record, .. } => record_text(record),
        EntityView::Complex { subsuper, .. } => seq!['('] + records_text(subsuper) + seq![')'],
    }
}

/// An entity that may still be merged: it only carries a value and has no alias yet.
pub open spec fn mergeable(entity: EntityView, alias: Map<u64, u64>) -> bool {
    internable(entity) && !alias.contains_key(entity.id())
}

/// The first of the first `n` entities that may be merged and has the given key.
pub open spec fn first_with_key(
    entities: Seq<EntityView>,
    alias: Map<u64, u64>,
    key: Seq<char>,
    n: nat,
) -> Option<int>
    decreases n,
{
    if n == 0 {
        None
    } else {
        match first_with_key(entities, alias, key, (n - 1) as nat) {
            Some(i) => Some(i),
            None => if mergeable(entities[n - 1], alias) && key_text(entities[n - 1], alias) == key {
                Some(n - 1)
            } else {
                None
            },
        }
    }
}

/// The aliases that one round finds among the first `n` entities: each one that may be merged
/// is sent to the first one with its key.
pub open spec fn pending(entities: Seq<EntityView>, alias: Map<u64, u64>, n: nat) -> Seq<
    (u64, u64),
>
    decreases n,
{
    if n == 0 {
        Seq::empty()
    } else {
        let rest = pending(entities, alias, (n - 1) as nat);
        let entity = entities[n - 1];
        if !mergeable(entity, alias) {
            rest
        } else {
            match first_with_key(entities, alias, key_text(entity, alias), (n - 1) as nat) {
                Some(i) if resolve(alias, entities[i].id()) != entity.id() => rest.push(
                    (entity.id(), resolve(alias, entities[i].id())),
                ),
                _ => rest,
            }
        }
    }
}

pub open spec fn with_pairs(map: Map<u64, u64>, pairs: Seq<(u64, u64)>) -> Map<u64, u64>
    decreases pairs.len(),
{
    if pairs.len() == 0 {
        map
    } else {
        with_pairs(map, pairs.drop_last()).insert(pairs.last().0, pairs.last().1)
    }
}

/// Every alias sent straight to where it leads.
pub open spec fn compressed(alias: Map<u64, u64>) -> Map<u64, u64> {
    Map::new(
        |id: u64| alias.contains_key(id),
        |id: u64|
            if resolve(alias, id) != id {
                resolve(alias, id)
            } else {
                alias[id]
            },
    )
}

/// Whether an id stands for itself.
pub open spec fn stands_for_itself(alias: Map<u64, u64>, id: u64) -> bool {
    !alias.contains_key(id) || alias[id] == id
}

/// Whether every alias leads to an id that stands for itself.
pub open spec fn leads_to_ends(alias: Map<u64, u64>) -> bool {
    forall|x: u64| stands_for_itself(alias, #[trigger] resolve(alias, x))
}

/// Where every alias leads to an id that stands for itself, sending the aliases straight there
/// keeps which ids have one, keeps what every id leads to, and leaves one hop to each.
pub proof fn law_compressing_keeps(alias: Map<u64, u64>, id: u64)
    requires
        leads_to_ends(alias),
    ensures
        compressed(alias).dom() == alias.dom(),
        resolve(compressed(alias), id) == resolve(alias, id),
        alias.contains_key(id) ==> stands_for_itself(compressed(alias), compressed(alias)[id]),
{
    let short = compressed(alias);
    let root = resolve(alias, id);
    assert(short.dom() =~= alias.dom());
    assert(stands_for_itself(alias, root));
    reveal_with_fuel(chase, 3);
    if alias.contains_key(root) {
        assert(resolve(alias, root) == root);
        assert(short[root] == root);
    }
    if alias.contains_key(id) && root == id {
        assert(short[id] == id);
    }
}

/// The aliases after at most so many rounds. A round sees the aliases of the rounds before.
pub open spec fn rounds(entities: Seq<EntityView>, alias: Map<u64, u64>, left: nat) -> Map<
    u64,
    u64,
>
    decreases left,
{
    let found = pending(entities, alias, entities.len());
    if left == 0 || found.len() == 0 {
        alias
    } else {
        rounds(entities, compressed(with_pairs(alias, found)), (left - 1) as nat)
    }
}

/// Which id stands for which. Every round finds an alias for an entity that had none, so there
/// are no more rounds than entities.
pub open spec fn aliases(entities: Seq<EntityView>) -> Map<u64, u64> {
    compressed(rounds(entities, Map::empty(), entities.len()))
}

/// The entities that stand for themselves, with their references redirected.
pub open spec fn survivors(entities: Seq<EntityView>, alias: Map<u64, u64>) -> Seq<EntityView>
    decreases entities.len(),
{
    if entities.len() == 0 {
        Seq::empty()
    } else {
        let rest = survivors(entities.drop_last(), alias);
        let entity = entities.last();
        if resolve(alias, entity.id()) != entity.id() {
            rest
        } else {
            rest.push(map_entity(entity, lookup(alias)))
        }
    }
}

/// The entities with equal values shared.
pub open spec fn interned(entities: Seq<EntityView>) -> Seq<EntityView> {
    survivors(entities, aliases(entities))
}

/// The type name of an entity: the names of its records, with plus signs between them.
pub open spec fn label(entity: EntityView) -> Seq<char> {
    joined_names(entity.records())
}

pub open spec fn joined_names(records: Seq<RecordView>) -> Seq<char>
    decreases records.len(),
{
    if records.len() == 0 {
        Seq::empty()
    } else if records.len() == 1 {
        records[0].name
    } else {
        joined_names(records.drop_last()) + seq!['+'] + records.last().name
    }
}

/// How many entities of each type do not stand for themselves.
pub open spec fn merged_counts(entities: Seq<EntityView>, alias: Map<u64, u64>) -> Map<
    Seq<char>,
    usize,
>
    decreases entities.len(),
{
    if entities.len() == 0 {
        Map::empty()
    } else {
        let rest = merged_counts(entities.drop_last(), alias);
        let entity = entities.last();
        if resolve(alias, entity.id()) != entity.id() {
            counted(rest, label(entity), 1)
        } else {
            rest
        }
    }
}

/// What an interning pass has merged.
pub struct InternStats {
    pub total: usize,
    pub by_type: TypeCounts,
}

/// Whether an entity only carries a value.
pub fn is_internable(entity: &EntityInstance) -> (out: bool)
    ensures
        out == internable(entity@),
{
    match entity {
        EntityInstance::Simple { record, .. } => internable_record(record.name.as_str()),
        EntityInstance::Complex { subsuper, .. } => {
            if subsuper.len() == 0 {
                return false;
            }
            let mut i: usize = 0;
            while i < subsuper.len()
                invariant
                    i <= subsuper.len(),
                    entity@ == (EntityView::Complex {
                        id: entity@.id(),
                        subsuper: records_view(subsuper@),
                    }),
                    forall|j: int|
                        0 <= j < i ==> internable_name(#[trigger] records_view(subsuper@)[j].name),
                decreases subsuper.len() - i,
            {
                if !internable_record(subsuper[i].name.as_str()) {
                    assert(!internable_name(records_view(subsuper@)[i as int].name));
                    return false;
                }
                i = i + 1;
            }
            true
        },
    }
}

/// The id that stands for another one.
pub fn resolve_alias(alias: &HashMap<u64, u64>, id: u64) -> (out: u64)
    ensures
        out == resolve(alias@, id),
{
    chase_id(alias, id, 64)
}

/// The text by which equal entities are recognised.
pub fn entity_key(entity: &EntityInstance, alias: &HashMap<u64, u64>) -> (out: String)
    ensures
        out@ == key_text(entity@, alias@),
{
    let mut out = String::new();
    let resolved = redirect_entity(entity, alias, 64);
    match &resolved {
        EntityInstance::Simple { record, .. } => {
            write_record(record, &mut out);
            assert(out@ =~= key_text(entity@, alias@));
        },
        EntityInstance::Complex { subsuper, .. } => {
            out.push('(');
            write_records(subsuper, &mut out);
            out.push(')');
            assert(out@ =~= key_text(entity@, alias@));
        },
    }
    out
}

/// The type name of an entity.
pub fn entity_type_label(entity: &EntityInstance) -> (out: String)
    ensures
        out@ == label(entity@),
{
    match entity {
        EntityInstance::Simple { record, .. } => record.name.clone(),
        EntityInstance::Complex { subsuper, .. } => {
            let mut out = String::new();
            let ghost views = records_view(subsuper@);
            let mut i: usize = 0;
            assert(out@ =~= joined_names(views.take(0)));
            while i < subsuper.len()
                invariant
                    i <= subsuper.len(),
                    views == records_view(subsuper@),
                    out@ == joined_names(views.take(i as int)),
                decreases subsuper.len() - i,
            {
                if i > 0 {
                    out.push('+');
                }
                out.append(subsuper[i].name.as_str());
                i = i + 1;
                assert(views.take(i as int).drop_last() =~= views.take(i - 1));
                assert(out@ =~= joined_names(views.take(i as int)));
            }
            assert(views.take(views.len() as int) =~= views);
            out
        },
    }
}

/// The aliases that one round finds.
fn intern_round(entities: &Vec<EntityInstance>, alias: &HashMap<u64, u64>) -> (found: Vec<
    (u64, u64),
>)
    ensures
        found@ == pending(entities_view(entities@), alias@, entities@.len()),
{
    let ghost views = entities_view(entities@);
    let mut seen = KeyIndex::new();
    let mut found: Vec<(u64, u64)> = Vec::new();
    let mut i: usize = 0;
    while i < entities.len()
        invariant
            i <= entities.len(),
            views == entities_view(entities@),
            seen.wf(),
            forall|key: Seq<char>| #[trigger]
                seen@.contains_key(key) == (first_with_key(views, alias@, key, i as nat) is Some),
            forall|key: Seq<char>| #[trigger]
                seen@.contains_key(key) ==> seen@[key] == views[first_with_key(
                    views,
                    alias@,
                    key,
                    i as nat,
                )->Some_0].id(),
            found@ == pending(views, alias@, i as nat),
        decreases entities.len() - i,
    {
        let entity = &entities[i];
        let id: u64 = entity_id(entity);
        assert(views[i as int] == entity@);
        if is_internable(entity) && !alias.contains_key(&id) {
            let key = entity_key(entity, alias);
            match seen.get(&key) {
                Some(first) => {
                    let canonical: u64 = resolve_alias(alias, first);
                    if canonical != id {
                        found.push((id, canonical));
                    }
                },
                None => {
                    seen.insert(key, id);
                },
            }
        }
        i = i + 1;
    }
    found
}

/// Sends every alias straight to where it leads. `keys` holds the ids that have one.
pub fn compress_aliases(alias: &HashMap<u64, u64>, keys: &Vec<u64>) -> (out: HashMap<u64, u64>)
    requires
        forall|id: u64| #[trigger] alias@.contains_key(id) == keys@.contains(id),
    ensures
        out@ == compressed(alias@),
        out@.dom() == alias@.dom(),
        leads_to_ends(alias@) ==> forall|id: u64|
            {
                &&& #[trigger] resolve(out@, id) == resolve(alias@, id)
                &&& out@.contains_key(id) ==> stands_for_itself(out@, out@[id])
            },
{
    let mut out: HashMap<u64, u64> = HashMap::new();
    let mut i: usize = 0;
    while i < keys.len()
        invariant
            i <= keys.len(),
            forall|id: u64| #[trigger] alias@.contains_key(id) == keys@.contains(id),
            forall|id: u64| #[trigger]
                out@.contains_key(id) ==> alias@.contains_key(id) && out@[id] == compressed(
                    alias@,
                )[id],
            forall|j: int| 0 <= j < i ==> out@.contains_key(#[trigger] keys@[j]),
        decreases keys.len() - i,
    {
        let id: u64 = keys[i];
        assert(keys@.contains(id));
        let root: u64 = resolve_alias(alias, id);
        if root != id {
            out.insert(id, root);
        } else {
            match alias.get(&id) {
                Some(next) => {
                    out.insert(id, *next);
                },
                None => {},
            }
        }
        i = i + 1;
    }
    assert(out@ =~= compressed(alias@));
    proof {
        assert(out@.dom() =~= alias@.dom());
        if leads_to_ends(alias@) {
            assert forall|id: u64|
                {
                    &&& #[trigger] resolve(out@, id) == resolve(alias@, id)
                    &&& out@.contains_key(id) ==> stands_for_itself(out@, out@[id])
                } by {
                law_compressing_keeps(alias@, id);
            }
        }
    }
    out
}

/// Which id stands for which.
fn find_aliases(entities: &Vec<EntityInstance>) -> (out: HashMap<u64, u64>)
    ensures
        out@ == aliases(entities_view(entities@)),
{
    let ghost views = entities_view(entities@);
    let mut alias: HashMap<u64, u64> = HashMap::new();
    let mut keys: Vec<u64> = Vec::new();
    let mut left: usize = entities.len();
    let mut settled = false;
    while left > 0 && !settled
        invariant
            views == entities_view(entities@),
            forall|id: u64| #[trigger] alias@.contains_key(id) == keys@.contains(id),
            if settled {
                rounds(views, Map::empty(), views.len()) == alias@
            } else {
                rounds(views, Map::empty(), views.len()) == rounds(views, alias@, left as nat)
            },
        decreases
            left,
            if settled {
                0int
            } else {
                1int
            },
    {
        let found = intern_round(entities, &alias);
        if found.len() == 0 {
            settled = true;
        } else {
            let ghost start = alias@;
            let mut i: usize = 0;
            assert(found@.take(0) =~= Seq::empty());
            while i < found.len()
                invariant
                    i <= found.len(),
                    forall|id: u64| #[trigger] alias@.contains_key(id) == keys@.contains(id),
                    alias@ == with_pairs(start, found@.take(i as int)),
                decreases found.len() - i,
            {
                let pair = found[i];
                let ghost old_keys = keys@;
                if !alias.contains_key(&pair.0) {
                    keys.push(pair.0);
                    assert(keys@[old_keys.len() as int] == pair.0);
                    assert forall|id: u64| keys@.contains(id) == (id == pair.0 || old_keys.contains(id)) by {
                        if old_keys.contains(id) {
                            let j = choose|j: int| 0 <= j < old_keys.len() && old_keys[j] == id;
                            assert(keys@[j] == id);
                        }
                    }
                }
                alias.insert(pair.0, pair.1);
                i = i + 1;
                assert(found@.take(i as int).drop_last() =~= found@.take(i - 1));
            }
            assert(found@.take(found.len() as int) =~= found@);
            alias = compress_aliases(&alias, &keys);
            left = left - 1;
        }
    }
    compress_aliases(&alias, &keys)
}

/// Shares equal values among the entities of a section.
pub fn intern_section(entities: &mut Vec<EntityInstance>) -> (stats: InternStats)
    ensures
        entities_view(final(entities)@) == interned(entities_view(old(entities)@)),
        stats.total == old(entities)@.len() - final(entities)@.len(),
        stats.by_type.wf(),
        stats.by_type@ == merged_counts(
            entities_view(old(entities)@),
            aliases(entities_view(old(entities)@)),
        ),
{
    let ghost views = entities_view(entities@);
    let alias = find_aliases(entities);
    let mut total: usize = 0;
    let mut by_type = TypeCounts::new();
    let mut kept: Vec<EntityInstance> = Vec::new();
    let mut i: usize = 0;
    assert(views.take(0) =~= Seq::empty());
    assert(entities_view(kept@) =~= Seq::empty());
    while i < entities.len()
        invariant
            i <= entities.len(),
            views == entities_view(entities@),
            *entities == *old(entities),
            entities_view(kept@) == survivors(views.take(i as int), alias@),
            total + kept.len() == i,
            by_type.wf(),
            by_type@ == merged_counts(views.take(i as int), alias@),
        decreases entities.len() - i,
    {
        let entity = &entities[i];
        let id: u64 = entity_id(entity);
        assert(views[i as int] == entity@);
        let ghost old_kept = kept@;
        if resolve_alias(&alias, id) != id {
            total = total + 1;
            by_type.count(entity_type_label(entity), 1);
        } else {
            kept.push(rewrite_entity_refs(entity, &alias));
            assert(entities_view(kept@) =~= entities_view(old_kept).push(kept@.last()@));
        }
        i = i + 1;
        assert(views.take(i as int).drop_last() =~= views.take(i - 1));
    }
    assert(views.take(views.len() as int) =~= views);
    *entities = kept;
    InternStats { total, by_type }
}

/// No entity with an id only carries a value.
pub open spec fn has_identity(entities: Seq<EntityView>, id: u64) -> bool {
    forall|i: int|
        0 <= i < entities.len() && (#[trigger] entities[i]).id() == id ==> !internable(entities[i])
}

proof fn lemma_pending_keeps(entities: Seq<EntityView>, alias: Map<u64, u64>, id: u64, n: nat)
    requires
        n <= entities.len(),
        has_identity(entities, id),
    ensures
        forall|k: int|
            0 <= k < pending(entities, alias, n).len() ==> (#[trigger] pending(
                entities,
                alias,
                n,
            )[k]).0 != id,
    decreases n,
{
    if n > 0 {
        lemma_pending_keeps(entities, alias, id, (n - 1) as nat);
        assert(entities[n - 1].id() == id ==> !internable(entities[n - 1]));
        let rest = pending(entities, alias, (n - 1) as nat);
        let all = pending(entities, alias, n);
        assert forall|k: int| 0 <= k < all.len() implies (#[trigger] all[k]).0 != id by {
            if k < rest.len() {
                assert(all[k] == rest[k]);
            }
        }
    }
}

proof fn lemma_with_pairs_keeps(map: Map<u64, u64>, pairs: Seq<(u64, u64)>, id: u64)
    requires
        !map.contains_key(id),
        forall|k: int| 0 <= k < pairs.len() ==> (#[trigger] pairs[k]).0 != id,
    ensures
        !with_pairs(map, pairs).contains_key(id),
    decreases pairs.len(),
{
    if pairs.len() > 0 {
        assert forall|k: int| 0 <= k < pairs.drop_last().len() implies (#[trigger]
        pairs.drop_last()[k]).0 != id by {
            assert(pairs.drop_last()[k] == pairs[k]);
        }
        lemma_with_pairs_keeps(map, pairs.drop_last(), id);
        assert(pairs[pairs.len() - 1].0 != id);
    }
}

proof fn lemma_rounds_keep(
    entities: Seq<EntityView>,
    alias: Map<u64, u64>,
    id: u64,
    left: nat,
)
    requires
        has_identity(entities, id),
        !alias.contains_key(id),
    ensures
        !rounds(entities, alias, left).contains_key(id),
    decreases left,
{
    let found = pending(entities, alias, entities.len());
    if left > 0 && found.len() > 0 {
        lemma_pending_keeps(entities, alias, id, entities.len());
        lemma_with_pairs_keeps(alias, found, id);
        lemma_rounds_keep(
            entities,
            compressed(with_pairs(alias, found)),
            id,
            (left - 1) as nat,
        );
    }
}

proof fn lemma_survivor(entities: Seq<EntityView>, alias: Map<u64, u64>, i: int)
    requires
        0 <= i < entities.len(),
        resolve(alias, entities[i].id()) == entities[i].id(),
    ensures
        survivors(entities, alias).contains(map_entity(entities[i], lookup(alias))),
    decreases entities.len(),
{
    let copy = map_entity(entities[i], lookup(alias));
    if i == entities.len() - 1 {
        let all = survivors(entities, alias);
        assert(all[all.len() - 1] == copy);
    } else {
        assert(entities.drop_last()[i] == entities[i]);
        lemma_survivor(entities.drop_last(), alias, i);
        let rest = survivors(entities.drop_last(), alias);
        let k = choose|k: int| 0 <= k < rest.len() && rest[k] == copy;
        assert(survivors(entities, alias)[k] == copy);
    }
}

/// An entity that does more than carry a value is never merged: it stays, and whatever refers
/// to it goes on doing so.
pub proof fn law_identity_survives(entities: Seq<EntityView>, i: int)
    requires
        0 <= i < entities.len(),
        has_identity(entities, entities[i].id()),
    ensures
        resolve(aliases(entities), entities[i].id()) == entities[i].id(),
        interned(entities).contains(map_entity(entities[i], lookup(aliases(entities)))),
{
    let id = entities[i].id();
    lemma_rounds_keep(entities, Map::empty(), id, entities.len());
    assert(!aliases(entities).contains_key(id));
    assert(chase(aliases(entities), id, max_hops()) == id);
    lemma_survivor(entities, aliases(entities), i);
}

/// Whether one entity is sent to another with the same key.
pub open spec fn is_merge(
    entities: Seq<EntityView>,
    alias: Map<u64, u64>,
    pair: (u64, u64),
    i: int,
    j: int,
) -> bool {
    &&& 0 <= i < j < entities.len()
    &&& internable(entities[i]) && internable(entities[j])
    &&& key_text(entities[i], alias) == key_text(entities[j], alias)
    &&& pair.0 == entities[j].id()
    &&& pair.1 == resolve(alias, entities[i].id())
}

proof fn lemma_first_with_key(
    entities: Seq<EntityView>,
    alias: Map<u64, u64>,
    key: Seq<char>,
    n: nat,
)
    ensures
        first_with_key(entities, alias, key, n) matches Some(i) ==> 0 <= i < n && mergeable(
            entities[i],
            alias,
        ) && key_text(entities[i], alias) == key,
    decreases n,
{
    if n > 0 {
        lemma_first_with_key(entities, alias, key, (n - 1) as nat);
    }
}

/// Entities are merged only where they carry a value and are written alike, but for their ids
/// and for references to entities that were merged before.
pub proof fn law_merged_are_alike(
    entities: Seq<EntityView>,
    alias: Map<u64, u64>,
    n: nat,
    k: int,
)
    requires
        n <= entities.len(),
        0 <= k < pending(entities, alias, n).len(),
    ensures
        exists|i: int, j: int| #[trigger]
            is_merge(entities, alias, pending(entities, alias, n)[k], i, j),
    decreases n,
{
    let rest = pending(entities, alias, (n - 1) as nat);
    if k < rest.len() {
        law_merged_are_alike(entities, alias, (n - 1) as nat, k);
        assert(pending(entities, alias, n)[k] == rest[k]);
    } else {
        let entity = entities[n - 1];
        let key = key_text(entity, alias);
        lemma_first_with_key(entities, alias, key, (n - 1) as nat);
        let i = first_with_key(entities, alias, key, (n - 1) as nat)->Some_0;
        assert(is_merge(entities, alias, pending(entities, alias, n)[k], i, n - 1));
    }
}

} // verus!
