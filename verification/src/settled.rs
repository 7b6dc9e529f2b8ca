//! What sharing values leaves: no two values that are alike, and no way that leads on.

use vstd::prelude::*;

use crate::ast::{EntityView, NameView, ParamView, RecordView};
use crate::intern::{
    aliases, compressed, first_with_key, internable, interned, key_text, mergeable,
    pending, resolve, resolver, rounds, survivors, with_pairs,
};
use crate::refs::{
    chase, entity_refs, list_refs, lookup, map_entity, map_record, map_refs, param_refs,
    records_refs,
};
use crate::unambiguous::{body_text, is_sound_entity, is_sound_record, map_items};

verus! {

/// Whether no two entities have the same id.
pub open spec fn distinct(entities: Seq<EntityView>) -> bool {
    forall|i: int, j: int|
        0 <= i < j < entities.len() ==> (#[trigger] entities[i]).id() != (
        #[trigger] entities[j]).id()
}

/// Whether an id is that of an entity.
pub open spec fn has_id(entities: Seq<EntityView>, id: u64) -> bool {
    exists|i: int| 0 <= i < entities.len() && (#[trigger] entities[i]).id() == id
}

/// Whether aliases lead to ids that are no aliases.
pub open spec fn flat(alias: Map<u64, u64>) -> bool {
    forall|id: u64| #[trigger] alias.contains_key(id) ==> !alias.contains_key(alias[id])
}

/// Whether aliases stand for values, and lead to entities.
pub open spec fn stands_for_values(entities: Seq<EntityView>, alias: Map<u64, u64>) -> bool {
    forall|id: u64| #[trigger]
        alias.contains_key(id) ==> has_id(entities, alias[id]) && exists|j: int|
            0 <= j < entities.len() && (#[trigger] entities[j]).id() == id && internable(
                entities[j],
            )
}

proof fn lemma_resolve_flat(alias: Map<u64, u64>, id: u64)
    requires
        flat(alias),
    ensures
        resolve(alias, id) == lookup(alias)(id),
        !alias.contains_key(resolve(alias, id)),
{
    reveal_with_fuel(chase, 3);
}

pub proof fn lemma_first(entities: Seq<EntityView>, alias: Map<u64, u64>, key: Seq<char>, n: nat)
    requires
        n <= entities.len(),
    ensures
        match first_with_key(entities, alias, key, n) {
            Some(i) => {
                &&& 0 <= i < n
                &&& mergeable(entities[i], alias)
                &&& key_text(entities[i], alias) == key
                &&& forall|j: int|
                    0 <= j < i ==> !(mergeable(#[trigger] entities[j], alias) && key_text(
                        entities[j],
                        alias,
                    ) == key)
            },
            None => forall|j: int|
                0 <= j < n ==> !(mergeable(#[trigger] entities[j], alias) && key_text(
                    entities[j],
                    alias,
                ) == key),
        },
    decreases n,
{
    if n > 0 {
        lemma_first(entities, alias, key, (n - 1) as nat);
    }
}

/// Whether a pair was found: an entity and the first one with its key.
spec fn is_found(
    entities: Seq<EntityView>,
    alias: Map<u64, u64>,
    pair: (u64, u64),
    j: int,
    i: int,
) -> bool {
    &&& 0 <= i < j < entities.len()
    &&& pair.0 == entities[j].id()
    &&& mergeable(entities[j], alias)
    &&& first_with_key(entities, alias, key_text(entities[j], alias), j as nat) == Some(i)
    &&& pair.1 == resolve(alias, entities[i].id())
    &&& pair.1 != pair.0
}

proof fn lemma_pending(entities: Seq<EntityView>, alias: Map<u64, u64>, n: nat, k: int) -> (out: (
    int,
    int,
))
    requires
        n <= entities.len(),
        0 <= k < pending(entities, alias, n).len(),
    ensures
        is_found(entities, alias, pending(entities, alias, n)[k], out.0, out.1),
    decreases n,
{
    let rest = pending(entities, alias, (n - 1) as nat);
    if k < rest.len() {
        assert(pending(entities, alias, n)[k] == rest[k]);
        lemma_pending(entities, alias, (n - 1) as nat, k)
    } else {
        let j = n - 1;
        let key = key_text(entities[j], alias);
        lemma_first(entities, alias, key, j as nat);
        (j, first_with_key(entities, alias, key, j as nat)->Some_0)
    }
}

/// Where nothing is pending, no earlier value has the key of a value.
proof fn lemma_nothing_pending(
    entities: Seq<EntityView>,
    alias: Map<u64, u64>,
    n: nat,
    i: int,
    j: int,
)
    requires
        n <= entities.len(),
        distinct(entities),
        flat(alias),
        pending(entities, alias, n).len() == 0,
        0 <= i < j < n,
        mergeable(entities[i], alias),
        mergeable(entities[j], alias),
    ensures
        key_text(entities[i], alias) != key_text(entities[j], alias),
    decreases n,
{
    if j < n - 1 {
        lemma_nothing_pending(entities, alias, (n - 1) as nat, i, j);
    } else {
        let key = key_text(entities[j], alias);
        lemma_first(entities, alias, key, j as nat);
        if key_text(entities[i], alias) == key {
            let f = first_with_key(entities, alias, key, j as nat);
            assert(f is Some);
            let x = f->Some_0;
            lemma_resolve_flat(alias, entities[x].id());
            assert(entities[x].id() != entities[j].id());
        }
    }
}

proof fn lemma_with_pairs(map: Map<u64, u64>, pairs: Seq<(u64, u64)>, id: u64)
    ensures
        with_pairs(map, pairs).contains_key(id) == (map.contains_key(id) || exists|k: int|
            0 <= k < pairs.len() && (#[trigger] pairs[k]).0 == id),
        with_pairs(map, pairs).contains_key(id) ==> (map.contains_key(id)
            && with_pairs(map, pairs)[id] == map[id]) || exists|k: int|
            0 <= k < pairs.len() && (#[trigger] pairs[k]).0 == id && pairs[k].1 == with_pairs(
                map,
                pairs,
            )[id],
        !(exists|k: int| 0 <= k < pairs.len() && (#[trigger] pairs[k]).0 == id)
            && map.contains_key(id) ==> with_pairs(map, pairs)[id] == map[id],
    decreases pairs.len(),
{
    if pairs.len() > 0 {
        let front = pairs.drop_last();
        lemma_with_pairs(map, front, id);
        assert forall|k: int| 0 <= k < front.len() implies #[trigger] front[k] == pairs[k] by {}
        if exists|k: int| 0 <= k < front.len() && (#[trigger] front[k]).0 == id {
            let k = choose|k: int| 0 <= k < front.len() && (#[trigger] front[k]).0 == id;
            assert(pairs[k].0 == id);
        }
        if pairs.last().0 == id {
            assert(pairs[pairs.len() - 1].0 == id);
        } else {
            if exists|k: int| 0 <= k < pairs.len() && (#[trigger] pairs[k]).0 == id {
                let k = choose|k: int| 0 <= k < pairs.len() && (#[trigger] pairs[k]).0 == id;
                assert(front[k].0 == id);
            }
            if exists|k: int|
                0 <= k < front.len() && (#[trigger] front[k]).0 == id && front[k].1
                    == with_pairs(map, front)[id] {
                let k = choose|k: int|
                    0 <= k < front.len() && (#[trigger] front[k]).0 == id && front[k].1
                        == with_pairs(map, front)[id];
                assert(pairs[k].0 == id && pairs[k].1 == with_pairs(map, pairs)[id]);
            }
        }
    }
}

/// What a round adds leads to ids that are no aliases.
proof fn lemma_round_target(entities: Seq<EntityView>, alias: Map<u64, u64>, id: u64)
    requires
        distinct(entities),
        flat(alias),
        stands_for_values(entities, alias),
        with_pairs(alias, pending(entities, alias, entities.len())).contains_key(id),
    ensures
        ({
            let m = with_pairs(alias, pending(entities, alias, entities.len()));
            &&& has_id(entities, m[id])
            &&& exists|j: int|
                0 <= j < entities.len() && (#[trigger] entities[j]).id() == id && internable(
                    entities[j],
                )
            &&& !alias.contains_key(m[id])
            &&& !alias.contains_key(id) ==> !m.contains_key(m[id])
        }),
{
    let pairs = pending(entities, alias, entities.len());
    let m = with_pairs(alias, pairs);
    lemma_with_pairs(alias, pairs, id);
    if exists|k: int| 0 <= k < pairs.len() && (#[trigger] pairs[k]).0 == id && pairs[k].1 == m[id] {
        let k = choose|k: int|
            0 <= k < pairs.len() && (#[trigger] pairs[k]).0 == id && pairs[k].1 == m[id];
        let (j, i) = lemma_pending(entities, alias, entities.len(), k);
        let key = key_text(entities[j], alias);
        lemma_first(entities, alias, key, j as nat);
        lemma_resolve_flat(alias, entities[i].id());
        let t = entities[i].id();
        assert(m[id] == t);
        assert(entities[j].id() == id);
        lemma_with_pairs(alias, pairs, t);
        if m.contains_key(t) {
            let q = choose|q: int| 0 <= q < pairs.len() && (#[trigger] pairs[q]).0 == t;
            let (j2, i2) = lemma_pending(entities, alias, entities.len(), q);
            assert(entities[j2].id() == entities[i].id());
            assert(j2 == i);
            lemma_first(entities, alias, key, i as nat);
            assert(first_with_key(entities, alias, key, i as nat) == Some(i2));
            assert(mergeable(entities[i2], alias) && key_text(entities[i2], alias) == key);
            assert(false);
        }
    } else {
        assert(alias.contains_key(id));
    }
}

proof fn lemma_round_flat(entities: Seq<EntityView>, alias: Map<u64, u64>)
    requires
        distinct(entities),
        flat(alias),
        stands_for_values(entities, alias),
    ensures
        ({
            let next = compressed(with_pairs(alias, pending(entities, alias, entities.len())));
            flat(next) && stands_for_values(entities, next)
        }),
{
    let m = with_pairs(alias, pending(entities, alias, entities.len()));
    let next = compressed(m);
    assert forall|id: u64| #[trigger] next.contains_key(id) implies !next.contains_key(next[id])
        && has_id(entities, next[id]) && exists|j: int|
        0 <= j < entities.len() && (#[trigger] entities[j]).id() == id && internable(
            entities[j],
        ) by {
        assert(m.contains_key(id));
        lemma_round_target(entities, alias, id);
        let u = m[id];
        reveal_with_fuel(chase, 4);
        if m.contains_key(u) {
            lemma_round_target(entities, alias, u);
            assert(resolve(m, id) == m[u]);
        } else {
            assert(resolve(m, id) == u);
        }
        assert(!m.contains_key(resolve(m, id)));
        assert(resolve(m, id) != id);
    }
}

proof fn lemma_rounds_flat(entities: Seq<EntityView>, alias: Map<u64, u64>, left: nat)
    requires
        distinct(entities),
        flat(alias),
        stands_for_values(entities, alias),
    ensures
        flat(rounds(entities, alias, left)),
        stands_for_values(entities, rounds(entities, alias, left)),
    decreases left,
{
    let found = pending(entities, alias, entities.len());
    if left != 0 && found.len() != 0 {
        lemma_round_flat(entities, alias);
        lemma_rounds_flat(entities, compressed(with_pairs(alias, found)), (left - 1) as nat);
    }
}

/// Aliases lead straight to entities that stand for themselves, and only values have one.
pub proof fn law_aliases_are_flat(entities: Seq<EntityView>)
    requires
        distinct(entities),
    ensures
        flat(aliases(entities)),
        stands_for_values(entities, aliases(entities)),
        aliases(entities) == rounds(entities, Map::empty(), entities.len()),
{
    lemma_rounds_flat(entities, Map::empty(), entities.len());
    let last = rounds(entities, Map::empty(), entities.len());
    assert forall|id: u64| #[trigger] aliases(entities).contains_key(id) implies aliases(
        entities,
    )[id] == last[id] && last.contains_key(id) by {
        lemma_resolve_flat(last, id);
    }
    assert(aliases(entities) =~= last);
}

/// The references of a parameter with its references replaced.
pub proof fn lemma_mapped_param_refs(p: ParamView, f: spec_fn(u64) -> u64)
    ensures
        param_refs(map_refs(p, f)) == param_refs(p).map_values(f),
    decreases p,
{
    match p {
        ParamView::Ref(NameView::Entity(id)) => {
            assert(param_refs(map_refs(p, f)) =~= param_refs(p).map_values(f));
        },
        ParamView::List(items) => {
            assert(map_refs(p, f)->List_0 =~= map_items(items, f));
            lemma_mapped_list_refs(items, f);
        },
        ParamView::Typed { parameter, .. } => {
            lemma_mapped_param_refs(*parameter, f);
        },
        _ => {
            assert(param_refs(map_refs(p, f)) =~= param_refs(p).map_values(f));
        },
    }
}

proof fn lemma_mapped_list_refs(items: Seq<ParamView>, f: spec_fn(u64) -> u64)
    ensures
        list_refs(map_items(items, f)) == list_refs(items).map_values(f),
    decreases items,
{
    if items.len() > 0 {
        let mapped = map_items(items, f);
        lemma_mapped_list_refs(items.drop_last(), f);
        lemma_mapped_param_refs(items.last(), f);
        assert(mapped.drop_last() =~= map_items(items.drop_last(), f));
        assert(mapped.last() == map_refs(items.last(), f));
        assert(list_refs(mapped) =~= list_refs(items).map_values(f));
    } else {
        assert(list_refs(map_items(items, f)) =~= list_refs(items).map_values(f));
    }
}

proof fn lemma_mapped_records_refs(records: Seq<RecordView>, f: spec_fn(u64) -> u64)
    ensures
        records_refs(Seq::new(records.len(), |i: int| map_record(records[i], f)))
            == records_refs(records).map_values(f),
    decreases records.len(),
{
    let mapped = Seq::new(records.len(), |i: int| map_record(records[i], f));
    if records.len() > 0 {
        let front = records.drop_last();
        lemma_mapped_records_refs(front, f);
        lemma_mapped_param_refs(records.last().parameter, f);
        assert(mapped.drop_last() =~= Seq::new(front.len(), |i: int| map_record(front[i], f)));
        assert(mapped.last() == map_record(records.last(), f));
    }
    assert(records_refs(mapped) =~= records_refs(records).map_values(f));
}

/// The records of an entity with its references replaced.
pub proof fn lemma_mapped_entity(entity: EntityView, f: spec_fn(u64) -> u64)
    ensures
        entity_refs(map_entity(entity, f)) == entity_refs(entity).map_values(f),
        map_entity(entity, f).id() == entity.id(),
        map_entity(entity, f).records() == Seq::new(
            entity.records().len(),
            |i: int| map_record(entity.records()[i], f),
        ),
        internable(map_entity(entity, f)) == internable(entity),
        is_sound_entity(entity) ==> is_sound_entity(map_entity(entity, f)),
{
    let mapped = map_entity(entity, f);
    let records = Seq::new(entity.records().len(), |i: int| map_record(entity.records()[i], f));
    assert(mapped.records() =~= records);
    lemma_mapped_records_refs(entity.records(), f);
    match entity {
        EntityView::Simple { .. } => {},
        EntityView::Complex { subsuper, .. } => {
            let other = mapped->subsuper;
            assert forall|i: int| 0 <= i < subsuper.len() implies (#[trigger] other[i]).name
                == subsuper[i].name by {}
            if internable(mapped) {
                assert forall|i: int| 0 <= i < subsuper.len() implies
                    crate::intern::internable_name(#[trigger] subsuper[i].name) by {
                    assert(crate::intern::internable_name(other[i].name));
                }
            }
        },
    }
    if is_sound_entity(entity) {
        assert forall|i: int| 0 <= i < mapped.records().len() implies is_sound_record(
            #[trigger] mapped.records()[i],
        ) by {
            assert(is_sound_record(entity.records()[i]));
            crate::unambiguous::lemma_mapped_sound(entity.records()[i].parameter, f);
        }
    }
}

/// Replacing references by functions that agree gives the same.
proof fn lemma_same_function(entity: EntityView, f: spec_fn(u64) -> u64, g: spec_fn(u64) -> u64)
    requires
        forall|x: u64| #[trigger] f(x) == g(x),
    ensures
        map_entity(entity, f) == map_entity(entity, g),
{
    assert(f =~= g);
}

/// Replacing no reference changes nothing.
pub proof fn lemma_identity_param(p: ParamView, f: spec_fn(u64) -> u64)
    requires
        forall|k: int| 0 <= k < param_refs(p).len() ==> f(#[trigger] param_refs(p)[k])
            == param_refs(p)[k],
    ensures
        map_refs(p, f) == p,
    decreases p,
{
    match p {
        ParamView::Ref(NameView::Entity(id)) => {
            assert(param_refs(p)[0] == id);
        },
        ParamView::List(items) => {
            assert(map_refs(p, f)->List_0 =~= map_items(items, f));
            assert forall|k: int| 0 <= k < list_refs(items).len() implies f(
                #[trigger] list_refs(items)[k],
            ) == list_refs(items)[k] by {
                assert(f(param_refs(p)[k]) == param_refs(p)[k]);
            }
            lemma_identity_list(items, f);
        },
        ParamView::Typed { parameter, .. } => {
            assert forall|k: int| 0 <= k < param_refs(*parameter).len() implies f(
                #[trigger] param_refs(*parameter)[k],
            ) == param_refs(*parameter)[k] by {
                assert(f(param_refs(p)[k]) == param_refs(p)[k]);
            }
            lemma_identity_param(*parameter, f);
        },
        _ => {},
    }
}

proof fn lemma_identity_list(items: Seq<ParamView>, f: spec_fn(u64) -> u64)
    requires
        forall|k: int| 0 <= k < list_refs(items).len() ==> f(#[trigger] list_refs(items)[k])
            == list_refs(items)[k],
    ensures
        map_items(items, f) == items,
    decreases items,
{
    if items.len() > 0 {
        let front = items.drop_last();
        let a = list_refs(front);
        let b = param_refs(items.last());
        assert forall|k: int| 0 <= k < a.len() implies f(#[trigger] a[k]) == a[k] by {
            assert(list_refs(items)[k] == a[k]);
        }
        assert forall|k: int| 0 <= k < b.len() implies f(#[trigger] b[k]) == b[k] by {
            assert(list_refs(items)[a.len() + k] == b[k]);
        }
        lemma_identity_list(front, f);
        lemma_identity_param(items.last(), f);
        assert(map_items(items, f) =~= items) by {
            assert forall|i: int| 0 <= i < items.len() implies map_refs(items[i], f)
                == items[i] by {
                if i < front.len() {
                    assert(map_items(front, f)[i] == front[i]);
                }
            }
        }
    } else {
        assert(map_items(items, f) =~= items);
    }
}

/// Replacing no reference changes nothing.
pub proof fn lemma_identity_entity(entity: EntityView, f: spec_fn(u64) -> u64)
    requires
        forall|k: int| 0 <= k < entity_refs(entity).len() ==> f(#[trigger] entity_refs(entity)[k])
            == entity_refs(entity)[k],
    ensures
        map_entity(entity, f) == entity,
{
    let records = entity.records();
    assert forall|i: int| 0 <= i < records.len() implies map_record(records[i], f)
        == records[i] by {
        let refs = param_refs(records[i].parameter);
        assert forall|k: int| 0 <= k < refs.len() implies f(#[trigger] refs[k]) == refs[k] by {
            lemma_record_refs_in(records, i, k);
            let q = choose|q: int|
                0 <= q < records_refs(records).len() && records_refs(records)[q] == refs[k];
            assert(f(entity_refs(entity)[q]) == entity_refs(entity)[q]);
        }
        lemma_identity_param(records[i].parameter, f);
    }
    match entity {
        EntityView::Simple { record, .. } => {
            assert(records[0] == record);
        },
        EntityView::Complex { subsuper, .. } => {
            assert(map_entity(entity, f)->subsuper =~= subsuper) by {
                assert forall|i: int| 0 <= i < subsuper.len() implies map_record(subsuper[i], f)
                    == subsuper[i] by {
                    assert(records[i] == subsuper[i]);
                }
            }
        },
    }
}

proof fn lemma_record_refs_in(records: Seq<RecordView>, i: int, k: int)
    requires
        0 <= i < records.len(),
        0 <= k < param_refs(records[i].parameter).len(),
    ensures
        records_refs(records).contains(param_refs(records[i].parameter)[k]),
    decreases records.len(),
{
    let front = records.drop_last();
    let a = records_refs(front);
    let b = param_refs(records.last().parameter);
    if i == records.len() - 1 {
        assert((a + b)[a.len() + k] == b[k]);
    } else {
        lemma_record_refs_in(front, i, k);
        let x = param_refs(records[i].parameter)[k];
        let q = choose|q: int| 0 <= q < a.len() && a[q] == x;
        assert((a + b)[q] == x);
    }
}

/// The places of the entities that stand for themselves.
pub open spec fn kept_places(entities: Seq<EntityView>, alias: Map<u64, u64>) -> Seq<int>
    decreases entities.len(),
{
    if entities.len() == 0 {
        Seq::empty()
    } else {
        let rest = kept_places(entities.drop_last(), alias);
        if resolve(alias, entities.last().id()) != entities.last().id() {
            rest
        } else {
            rest.push(entities.len() - 1)
        }
    }
}

pub open spec fn ascends(places: Seq<int>, n: int) -> bool {
    &&& forall|a: int| 0 <= a < places.len() ==> 0 <= #[trigger] places[a] < n
    &&& forall|a: int, b: int|
        0 <= a < b < places.len() ==> #[trigger] places[a] < #[trigger] places[b]
}

proof fn lemma_kept(entities: Seq<EntityView>, alias: Map<u64, u64>)
    ensures
        ({
            let places = kept_places(entities, alias);
            let out = survivors(entities, alias);
            &&& places.len() == out.len()
            &&& ascends(places, entities.len() as int)
            &&& forall|a: int|
                0 <= a < out.len() ==> #[trigger] out[a] == map_entity(
                    entities[places[a]],
                    lookup(alias),
                ) && resolve(alias, entities[places[a]].id()) == entities[places[a]].id()
            &&& forall|i: int|
                0 <= i < entities.len() && resolve(alias, (#[trigger] entities[i]).id())
                    == entities[i].id() ==> places.contains(i)
        }),
    decreases entities.len(),
{
    if entities.len() > 0 {
        let front = entities.drop_last();
        lemma_kept(front, alias);
        let before = kept_places(front, alias);
        let places = kept_places(entities, alias);
        let out = survivors(entities, alias);
        assert forall|a: int| 0 <= a < out.len() implies #[trigger] out[a] == map_entity(
            entities[places[a]],
            lookup(alias),
        ) && resolve(alias, entities[places[a]].id()) == entities[places[a]].id() by {
            if a < before.len() {
                assert(survivors(front, alias)[a] == map_entity(front[before[a]], lookup(alias)));
                assert(0 <= before[a] < front.len());
            }
        }
        assert forall|i: int|
            0 <= i < entities.len() && resolve(alias, (#[trigger] entities[i]).id())
                == entities[i].id() implies places.contains(i) by {
            if i < front.len() {
                assert(front[i] == entities[i]);
                assert(before.contains(i));
                let q = choose|q: int| 0 <= q < before.len() && before[q] == i;
                assert(places[q] == i);
            } else {
                assert(places[places.len() - 1] == i);
            }
        }
    }
}

/// Whether no two values among some entities are written alike.
pub open spec fn values_differ(entities: Seq<EntityView>) -> bool {
    forall|i: int, j: int|
        0 <= i < j < entities.len() && internable(#[trigger] entities[i]) && internable(
            #[trigger] entities[j],
        ) ==> body_text(entities[i]) != body_text(entities[j])
}

pub open spec fn all_sound_entities(entities: Seq<EntityView>) -> bool {
    forall|i: int| 0 <= i < entities.len() ==> is_sound_entity(#[trigger] entities[i])
}

/// How many of the first `n` entities have no alias.
spec fn open_count(entities: Seq<EntityView>, alias: Map<u64, u64>, n: nat) -> nat
    decreases n,
{
    if n == 0 {
        0
    } else {
        open_count(entities, alias, (n - 1) as nat) + (if alias.contains_key(entities[n - 1].id()) {
            0nat
        } else {
            1nat
        })
    }
}

proof fn lemma_open_count(
    entities: Seq<EntityView>,
    before: Map<u64, u64>,
    after: Map<u64, u64>,
    n: nat,
    j: int,
)
    requires
        n <= entities.len(),
        forall|id: u64| before.contains_key(id) ==> #[trigger] after.contains_key(id),
    ensures
        open_count(entities, after, n) <= open_count(entities, before, n) <= n,
        0 <= j < n && !before.contains_key(entities[j].id()) && after.contains_key(
            entities[j].id(),
        ) ==> open_count(entities, after, n) < open_count(entities, before, n),
    decreases n,
{
    if n > 0 {
        lemma_open_count(entities, before, after, (n - 1) as nat, j);
    }
}

/// With as many rounds as there are entities without an alias, nothing is pending at the end.
proof fn lemma_rounds_end(entities: Seq<EntityView>, alias: Map<u64, u64>, left: nat)
    requires
        open_count(entities, alias, entities.len()) <= left,
    ensures
        pending(entities, rounds(entities, alias, left), entities.len()).len() == 0,
    decreases left,
{
    let found = pending(entities, alias, entities.len());
    if found.len() > 0 {
        let (j, i) = lemma_pending(entities, alias, entities.len(), 0);
        let next = compressed(with_pairs(alias, found));
        assert forall|id: u64| alias.contains_key(id) implies #[trigger] next.contains_key(id) by {
            lemma_with_pairs(alias, found, id);
        }
        lemma_with_pairs(alias, found, entities[j].id());
        assert(found[0].0 == entities[j].id());
        lemma_open_count(entities, alias, next, entities.len(), j);
        if left > 0 {
            lemma_rounds_end(entities, next, (left - 1) as nat);
        }
    }
}

/// Sharing goes on until nothing more is alike.
pub proof fn law_nothing_is_left_alike(entities: Seq<EntityView>)
    ensures
        pending(
            entities,
            rounds(entities, Map::empty(), entities.len()),
            entities.len(),
        ).len() == 0,
{
    let none = Map::<u64, u64>::empty();
    lemma_open_count(entities, none, none, entities.len(), 0);
    lemma_rounds_end(entities, none, entities.len());
}

/// Sharing values leaves no two values that are written alike, and keeps all else.
pub proof fn law_interned_values_differ(entities: Seq<EntityView>)
    requires
        distinct(entities),
    ensures
        distinct(interned(entities)),
        values_differ(interned(entities)),
        all_sound_entities(entities) ==> all_sound_entities(interned(entities)),
        interned(entities).len() <= entities.len(),
{
    let alias = aliases(entities);
    let out = interned(entities);
    let places = kept_places(entities, alias);
    law_aliases_are_flat(entities);
    law_nothing_is_left_alike(entities);
    lemma_kept(entities, alias);
    let f = lookup(alias);
    assert forall|a: int| 0 <= a < out.len() implies (#[trigger] out[a]).id()
        == entities[places[a]].id() && internable(out[a]) == internable(entities[places[a]])
        && !alias.contains_key(entities[places[a]].id()) && entity_refs(out[a]) == entity_refs(
        entities[places[a]],
    ).map_values(f) && (all_sound_entities(entities) ==> is_sound_entity(out[a])) by {
        let e = entities[places[a]];
        lemma_mapped_entity(e, f);
        lemma_resolve_flat(alias, e.id());
    }
    assert forall|a: int, b: int| 0 <= a < b < out.len() implies (#[trigger] out[a]).id() != (
    #[trigger] out[b]).id() by {
        assert(places[a] < places[b]);
    }
    assert forall|a: int, b: int|
        0 <= a < b < out.len() && internable(#[trigger] out[a]) && internable(
            #[trigger] out[b],
        ) implies body_text(out[a]) != body_text(out[b]) by {
        let i = places[a];
        let j = places[b];
        assert(i < j);
        lemma_nothing_pending(entities, alias, entities.len(), i, j);
        assert forall|x: u64| #[trigger] f(x) == resolver(alias)(x) by {
            lemma_resolve_flat(alias, x);
        }
        lemma_same_function(entities[i], f, resolver(alias));
        lemma_same_function(entities[j], f, resolver(alias));
    }
    lemma_ascends_short(places, entities.len() as int);
}

/// Ascending places below a bound are not more than the bound.
pub proof fn lemma_ascends_short(places: Seq<int>, n: int)
    requires
        ascends(places, n),
        n >= 0,
    ensures
        places.len() <= n,
    decreases n,
{
    if places.len() > 0 {
        let last = places[places.len() - 1];
        let front = places.drop_last();
        assert forall|a: int| 0 <= a < front.len() implies 0 <= #[trigger] front[a] < last by {
            assert(places[a] < places[places.len() - 1]);
        }
        assert forall|a: int, b: int| 0 <= a < b < front.len() implies #[trigger] front[a]
            < #[trigger] front[b] by {
            assert(places[a] < places[b]);
        }
        lemma_ascends_short(front, last);
    }
}

} // verus!
