//! Surfaces and lines that lie in one place are shared.

use std::collections::HashMap;
use vstd::prelude::*;

use crate::ast::{entities_view, entity_id, EntityInstance, EntityView};
use crate::body_copies::{find_reach, reach_of};
use crate::collapse::{falls, find_fallen};
use crate::graph::{
    build_index, find_typed, indexes, lists_parents, parents_table, position, refers,
    remove_entities, simple_record, simple_record_of, typed_record, without,
};
use crate::refs::{lookup, map_entity, rewrite_entity_refs};
use crate::text::same_text;

verus! {

broadcast use vstd::std_specs::hash::group_hash_axioms;

/// What the pass has changed.
#[derive(Debug, Clone, Copy, PartialEq, Eq, Structural)]
pub struct GeometricInternStats {
    pub supports_merged: usize,
    pub entities_removed: usize,
    pub planes_merged: usize,
    pub lines_merged: usize,
    pub cylinders_merged: usize,
}

/// Whether only entities of a type refer to an entity, and one does.
pub open spec fn only_for(entities: Seq<EntityView>, id: u64, name: Seq<char>) -> bool {
    &&& exists|parent: u64| #[trigger] refers(entities, parent, id)
    &&& forall|parent: u64| #[trigger]
        refers(entities, parent, id) ==> typed_record(entities, parent, name) is Some
}

/// The kinds of entities that can be shared.
#[derive(Debug, Clone, Copy, PartialEq, Eq, Structural)]
pub enum SupportKind {
    Plane,
    Line,
    Cylinder,
}

/// The kind of an entity that only carries faces or edges.
pub open spec fn support_kind(entities: Seq<EntityView>, entity: EntityView) -> Option<
    SupportKind,
> {
    match simple_record(entity) {
        None => None,
        Some(record) => if record.name == "PLANE"@ {
            if only_for(entities, entity.id(), "ADVANCED_FACE"@) {
                Some(SupportKind::Plane)
            } else {
                None
            }
        } else if record.name == "CYLINDRICAL_SURFACE"@ {
            if only_for(entities, entity.id(), "ADVANCED_FACE"@) {
                Some(SupportKind::Cylinder)
            } else {
                None
            }
        } else if record.name == "LINE"@ {
            if only_for(entities, entity.id(), "EDGE_CURVE"@) {
                Some(SupportKind::Line)
            } else {
                None
            }
        } else {
            None
        },
    }
}

/// What has been found among some entities.
#[verifier::ext_equal]
pub struct SupportView {
    /// The first entity in each place.
    pub seen: Map<u64, u64>,
    /// The entity that stands for another.
    pub alias: Map<u64, u64>,
    /// The entities that others stand for.
    pub roots: Seq<u64>,
    pub planes: nat,
    pub lines: nat,
    pub cylinders: nat,
}

pub open spec fn one_if(condition: bool) -> nat {
    if condition {
        1
    } else {
        0
    }
}

/// What is found with one more entity. Entities in one place have one number.
pub open spec fn with_support(
    entities: Seq<EntityView>,
    place: Map<u64, u64>,
    found: SupportView,
    entity: EntityView,
) -> SupportView {
    let id = entity.id();
    match support_kind(entities, entity) {
        Some(kind) if place.contains_key(id) => if !found.seen.contains_key(place[id]) {
            SupportView { seen: found.seen.insert(place[id], id), ..found }
        } else if found.seen[place[id]] == id {
            found
        } else {
            SupportView {
                seen: found.seen,
                alias: found.alias.insert(id, found.seen[place[id]]),
                roots: found.roots.push(id),
                planes: found.planes + one_if(kind is Plane),
                lines: found.lines + one_if(kind is Line),
                cylinders: found.cylinders + one_if(kind is Cylinder),
            }
        },
        _ => found,
    }
}

/// What is found among the first `n` entities.
pub open spec fn supports(entities: Seq<EntityView>, place: Map<u64, u64>, n: nat) -> SupportView
    decreases n,
{
    if n == 0 {
        SupportView {
            seen: Map::empty(),
            alias: Map::empty(),
            roots: Seq::empty(),
            planes: 0,
            lines: 0,
            cylinders: 0,
        }
    } else {
        with_support(
            entities,
            place,
            supports(entities, place, (n - 1) as nat),
            entities[n - 1],
        )
    }
}

/// The ids that an entity has.
pub open spec fn present(entities: Seq<EntityView>, ids: Seq<u64>) -> Seq<u64>
    decreases ids.len(),
{
    if ids.len() == 0 {
        Seq::empty()
    } else {
        let rest = present(entities, ids.drop_last());
        if position(entities, ids.last()) is Some {
            rest.push(ids.last())
        } else {
            rest
        }
    }
}

/// Every reference in its place.
pub open spec fn redirected(entities: Seq<EntityView>, alias: Map<u64, u64>) -> Seq<EntityView> {
    Seq::new(entities.len(), |i: int| map_entity(entities[i], lookup(alias)))
}

/// What falls when some entities do, among what can be reached from them.
pub open spec fn fallen_with(
    before: Seq<EntityView>,
    after: Seq<EntityView>,
    roots: Seq<u64>,
) -> Set<u64> {
    Set::new(|id: u64| falls(after, present(before, reach_of(before, roots)), roots, id))
}

/// What the pass makes of entities.
pub open spec fn supports_interned(
    entities: Seq<EntityView>,
    place: Map<u64, u64>,
    result: Seq<EntityView>,
    stats: GeometricInternStats,
) -> bool {
    let found = supports(entities, place, entities.len());
    let after = redirected(entities, found.alias);
    let gone = fallen_with(entities, after, found.roots);
    &&& stats.planes_merged == found.planes
    &&& stats.lines_merged == found.lines
    &&& stats.cylinders_merged == found.cylinders
    &&& stats.supports_merged == found.planes + found.lines + found.cylinders
    &&& if found.roots.len() == 0 {
        result == entities && stats.entities_removed == 0
    } else {
        result == without(after, gone) && stats.entities_removed == gone.len()
    }
}

/// An entity stands for another only where both were measured to be in one place.
pub proof fn law_alias_is_in_place(
    entities: Seq<EntityView>,
    place: Map<u64, u64>,
    n: nat,
    id: u64,
)
    requires
        n <= entities.len(),
        supports(entities, place, n).alias.contains_key(id),
    ensures
        ({
            let other = supports(entities, place, n).alias[id];
            place.contains_key(id) && place.contains_key(other) && place[id] == place[other]
        }),
    decreases n,
{
    if n > 0 {
        lemma_seen_in_place(entities, place, (n - 1) as nat);
        let before = supports(entities, place, (n - 1) as nat);
        if before.alias.contains_key(id) {
            law_alias_is_in_place(entities, place, (n - 1) as nat, id);
        }
    }
}

proof fn lemma_seen_in_place(entities: Seq<EntityView>, place: Map<u64, u64>, n: nat)
    requires
        n <= entities.len(),
    ensures
        forall|at: u64| #[trigger]
            supports(entities, place, n).seen.contains_key(at) ==> place.contains_key(
                supports(entities, place, n).seen[at],
            ) && place[supports(entities, place, n).seen[at]] == at,
    decreases n,
{
    if n > 0 {
        lemma_seen_in_place(entities, place, (n - 1) as nat);
        let before = supports(entities, place, (n - 1) as nat);
        let after = supports(entities, place, n);
        assert forall|at: u64| #[trigger] after.seen.contains_key(at) implies place.contains_key(
            after.seen[at],
        ) && place[after.seen[at]] == at by {
            if before.seen.contains_key(at) {
                assert(after.seen[at] == before.seen[at]);
            }
        }
    }
}

fn find_only_for(
    id: u64,
    name: &str,
    entities: &Vec<EntityInstance>,
    index: &HashMap<u64, usize>,
    parents: &HashMap<u64, Vec<u64>>,
) -> (out: bool)
    requires
        indexes(index@, entities_view(entities@)),
        lists_parents(parents@, entities_view(entities@)),
    ensures
        out == only_for(entities_view(entities@), id, name@),
{
    let ghost views = entities_view(entities@);
    let list = match parents.get(&id) {
        Some(list) => list,
        None => {
            return false;
        },
    };
    if list.len() == 0 {
        assert forall|parent: u64| !#[trigger] refers(views, parent, id) by {
            if refers(views, parent, id) {
                assert(list@.contains(parent));
            }
        }
        return false;
    }
    assert(parents@[id]@[0] == list@[0]);
    assert(refers(views, list@[0], id));
    let mut i: usize = 0;
    while i < list.len()
        invariant
            i <= list.len(),
            views == entities_view(entities@),
            indexes(index@, views),
            lists_parents(parents@, views),
            parents@.contains_key(id),
            list@ == parents@[id]@,
            forall|k: int| 0 <= k < i ==> typed_record(views, #[trigger] list@[k], name@) is Some,
        decreases list.len() - i,
    {
        if find_typed(entities, index, list[i], name).is_none() {
            assert(parents@[id]@[i as int] == list@[i as int]);
            assert(refers(views, list@[i as int], id));
            return false;
        }
        i = i + 1;
    }
    assert forall|parent: u64| #[trigger] refers(views, parent, id) implies typed_record(
        views,
        parent,
        name@,
    ) is Some by {
        assert(list@.contains(parent));
        let k = choose|k: int| 0 <= k < list@.len() && list@[k] == parent;
        assert(typed_record(views, list@[k], name@) is Some);
    }
    true
}

fn find_support_kind(
    at: usize,
    entities: &Vec<EntityInstance>,
    index: &HashMap<u64, usize>,
    parents: &HashMap<u64, Vec<u64>>,
) -> (out: Option<SupportKind>)
    requires
        at < entities@.len(),
        indexes(index@, entities_view(entities@)),
        lists_parents(parents@, entities_view(entities@)),
    ensures
        out == support_kind(entities_view(entities@), entities_view(entities@)[at as int]),
{
    assert(entities_view(entities@)[at as int] == entities@[at as int]@);
    let id: u64 = entity_id(&entities[at]);
    let record = match simple_record_of(&entities[at]) {
        Some(record) => record,
        None => {
            return None;
        },
    };
    let name = record.name.as_str();
    if same_text(name, "PLANE") {
        if find_only_for(id, "ADVANCED_FACE", entities, index, parents) {
            Some(SupportKind::Plane)
        } else {
            None
        }
    } else if same_text(name, "CYLINDRICAL_SURFACE") {
        if find_only_for(id, "ADVANCED_FACE", entities, index, parents) {
            Some(SupportKind::Cylinder)
        } else {
            None
        }
    } else if same_text(name, "LINE") {
        if find_only_for(id, "EDGE_CURVE", entities, index, parents) {
            Some(SupportKind::Line)
        } else {
            None
        }
    } else {
        None
    }
}

/// What has been found among some entities.
struct Supports {
    seen: HashMap<u64, u64>,
    alias: HashMap<u64, u64>,
    roots: Vec<u64>,
    planes: usize,
    lines: usize,
    cylinders: usize,
}

impl Supports {
    spec fn shows(&self, view: SupportView) -> bool {
        &&& self.seen@ == view.seen
        &&& self.alias@ == view.alias
        &&& self.roots@ == view.roots
        &&& self.planes == view.planes
        &&& self.lines == view.lines
        &&& self.cylinders == view.cylinders
    }
}

fn find_supports(entities: &Vec<EntityInstance>, place: &HashMap<u64, u64>) -> (out: Supports)
    ensures
        out.shows(supports(entities_view(entities@), place@, entities@.len())),
        out.planes + out.lines + out.cylinders <= entities@.len(),
{
    let ghost views = entities_view(entities@);
    let index = build_index(entities);
    let parents = parents_table(entities, &index);
    let mut found = Supports {
        seen: HashMap::new(),
        alias: HashMap::new(),
        roots: Vec::new(),
        planes: 0,
        lines: 0,
        cylinders: 0,
    };
    let mut i: usize = 0;
    assert(found.seen@ =~= Map::<u64, u64>::empty());
    assert(found.alias@ =~= Map::<u64, u64>::empty());
    while i < entities.len()
        invariant
            i <= entities.len(),
            views == entities_view(entities@),
            indexes(index@, views),
            lists_parents(parents@, views),
            found.shows(supports(views, place@, i as nat)),
            found.planes + found.lines + found.cylinders <= i,
        decreases entities.len() - i,
    {
        assert(views[i as int] == entities@[i as int]@);
        let id: u64 = entity_id(&entities[i]);
        if let Some(kind) = find_support_kind(i, entities, &index, &parents) {
            if let Some(at) = place.get(&id) {
                let first: Option<u64> = match found.seen.get(at) {
                    Some(first) => Some(*first),
                    None => None,
                };
                match first {
                    None => {
                        found.seen.insert(*at, id);
                    },
                    Some(first) => {
                        if first != id {
                            found.alias.insert(id, first);
                            found.roots.push(id);
                            match kind {
                                SupportKind::Plane => {
                                    found.planes = found.planes + 1;
                                },
                                SupportKind::Line => {
                                    found.lines = found.lines + 1;
                                },
                                SupportKind::Cylinder => {
                                    found.cylinders = found.cylinders + 1;
                                },
                            }
                        }
                    },
                }
            }
        }
        i = i + 1;
    }
    found
}

/// The ids that an entity has.
pub(crate) fn find_present(ids: &Vec<u64>, index: &HashMap<u64, usize>, Ghost(views): Ghost<
    Seq<EntityView>,
>) -> (out: Vec<u64>)
    requires
        indexes(index@, views),
    ensures
        out@ == present(views, ids@),
{
    let mut out: Vec<u64> = Vec::new();
    let mut i: usize = 0;
    assert(ids@.take(0) =~= Seq::<u64>::empty());
    while i < ids.len()
        invariant
            i <= ids.len(),
            indexes(index@, views),
            out@ == present(views, ids@.take(i as int)),
        decreases ids.len() - i,
    {
        assert(ids@.take(i + 1).drop_last() =~= ids@.take(i as int));
        assert(ids@.take(i + 1).last() == ids@[i as int]);
        assert(index@.contains_key(ids@[i as int]) == (position(views, ids@[i as int]) is Some));
        if index.contains_key(&ids[i]) {
            out.push(ids[i]);
        }
        i = i + 1;
    }
    assert(ids@.take(ids@.len() as int) =~= ids@);
    out
}

/// Copies of entities with every reference in its place.
pub(crate) fn redirect_all(entities: &Vec<EntityInstance>, alias: &HashMap<u64, u64>) -> (out: Vec<
    EntityInstance,
>)
    ensures
        entities_view(out@) == redirected(entities_view(entities@), alias@),
{
    let ghost views = entities_view(entities@);
    let ghost done = redirected(views, alias@);
    let mut out: Vec<EntityInstance> = Vec::new();
    let mut i: usize = 0;
    assert(entities_view(out@) =~= done.take(0));
    while i < entities.len()
        invariant
            i <= entities.len(),
            views == entities_view(entities@),
            done == redirected(views, alias@),
            entities_view(out@) == done.take(i as int),
        decreases entities.len() - i,
    {
        assert(views[i as int] == entities@[i as int]@);
        let ghost before = entities_view(out@);
        let copy = rewrite_entity_refs(&entities[i], alias);
        let ghost view = copy@;
        out.push(copy);
        i = i + 1;
        assert(entities_view(out@) =~= before.push(view));
        assert(done.take(i as int) =~= done.take(i - 1).push(done[i - 1]));
    }
    assert(done.take(done.len() as int) =~= done);
    out
}

/// Lets planes, cylinders and lines in one place share one entity, where only faces or only
/// edges use them. What only the others needed goes.
pub fn intern_geometric_supports(
    entities: &mut Vec<EntityInstance>,
    place: &HashMap<u64, u64>,
) -> (stats: GeometricInternStats)
    ensures
        supports_interned(
            entities_view(old(entities)@),
            place@,
            entities_view(final(entities)@),
            stats,
        ),
{
    let ghost views = entities_view(entities@);
    let found = find_supports(entities, place);
    assert(entities.len() <= usize::MAX);
    let merged: usize = found.planes + found.lines + found.cylinders;
    if found.roots.len() == 0 {
        return GeometricInternStats {
            supports_merged: merged,
            entities_removed: 0,
            planes_merged: found.planes,
            lines_merged: found.lines,
            cylinders_merged: found.cylinders,
        };
    }
    let index = build_index(entities);
    let reach = find_reach(&found.roots, entities, &index);
    let candidates = find_present(&reach, &index, Ghost(views));
    let mut after = redirect_all(entities, &found.alias);
    let gone = find_fallen(&after, &candidates, &found.roots);
    assert(gone@ =~= fallen_with(
        views,
        redirected(views, found.alias@),
        found.roots@,
    ));
    remove_entities(&mut after, &gone);
    *entities = after;
    GeometricInternStats {
        supports_merged: merged,
        entities_removed: gone.len(),
        planes_merged: found.planes,
        lines_merged: found.lines,
        cylinders_merged: found.cylinders,
    }
}

} // verus!
