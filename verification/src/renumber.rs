//! Dense entity ids.

use std::collections::HashMap;
use vstd::prelude::*;

use crate::ast::{entities_view, entity_id, EntityInstance, EntityView};
use crate::refs::{lookup, map_entity, rewrite_entity_refs};

verus! {

broadcast use vstd::std_specs::hash::group_hash_axioms;

/// The new ids of the first `n` entities: their positions, counted from one. Where an id
/// occurs more than once the last position counts.
pub open spec fn numbering(entities: Seq<EntityView>, n: nat) -> Map<u64, u64>
    decreases n,
{
    if n == 0 {
        Map::empty()
    } else {
        numbering(entities, (n - 1) as nat).insert(entities[n - 1].id(), n as u64)
    }
}

/// An entity under its new id, with its references renumbered. A reference to an id that no
/// entity has stays.
pub open spec fn renumbered_entity(entity: EntityView, ids: Map<u64, u64>) -> EntityView {
    map_entity(entity, lookup(ids)).with_id(ids[entity.id()])
}

/// The entities with dense ids.
pub open spec fn renumbered(entities: Seq<EntityView>) -> Seq<EntityView> {
    let ids = numbering(entities, entities.len());
    Seq::new(entities.len(), |i: int| renumbered_entity(entities[i], ids))
}

pub(crate) fn set_entity_id(entity: EntityInstance, new_id: u64) -> (out: EntityInstance)
    ensures
        out@ == entity@.with_id(new_id),
{
    match entity {
        EntityInstance::Simple { record, .. } => EntityInstance::Simple { id: new_id, record },
        EntityInstance::Complex { subsuper, .. } => EntityInstance::Complex {
            id: new_id,
            subsuper,
        },
    }
}

pub proof fn lemma_numbering_covers(entities: Seq<EntityView>, n: nat, i: int)
    requires
        0 <= i < n <= entities.len(),
    ensures
        numbering(entities, n).contains_key(entities[i].id()),
    decreases n,
{
    if i < n - 1 {
        lemma_numbering_covers(entities, (n - 1) as nat, i);
    }
}

/// Renumbers the entities from one upwards, in their order.
pub fn dense_renumber(entities: &mut Vec<EntityInstance>)
    ensures
        entities_view(final(entities)@) == renumbered(entities_view(old(entities)@)),
{
    let ghost views = entities_view(entities@);
    let mut ids: HashMap<u64, u64> = HashMap::new();
    let mut i: usize = 0;
    while i < entities.len()
        invariant
            i <= entities.len(),
            views == entities_view(entities@),
            *entities == *old(entities),
            ids@ == numbering(views, i as nat),
        decreases entities.len() - i,
    {
        let id: u64 = entity_id(&entities[i]);
        assert(views[i as int] == entities@[i as int]@);
        i = i + 1;
        ids.insert(id, i as u64);
    }
    let mut out: Vec<EntityInstance> = Vec::new();
    let mut k: usize = 0;
    while k < entities.len()
        invariant
            k <= entities.len(),
            out.len() == k,
            views == entities_view(entities@),
            *entities == *old(entities),
            ids@ == numbering(views, views.len()),
            forall|j: int|
                0 <= j < k ==> (#[trigger] out@[j])@ == renumbered_entity(views[j], ids@),
        decreases entities.len() - k,
    {
        let entity = &entities[k];
        assert(views[k as int] == entity@);
        proof {
            lemma_numbering_covers(views, views.len(), k as int);
        }
        let old_id: u64 = entity_id(entity);
        let rewritten = rewrite_entity_refs(entity, &ids);
        match ids.get(&old_id) {
            Some(new_id) => out.push(set_entity_id(rewritten, *new_id)),
            None => out.push(rewritten),
        }
        k = k + 1;
    }
    *entities = out;
    assert(entities_view(entities@) =~= renumbered(views));
}

} // verus!
