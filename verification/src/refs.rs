//! The references that entities hold to one another.

use std::collections::{HashMap, HashSet};
use vstd::prelude::*;

use crate::ast::{
    entities_view, lemma_list_view, params_view, records_view, EntityInstance, EntityView, Name, NameView,
    ParamView, Parameter, Record, RecordView,
};

verus! {

broadcast use vstd::std_specs::hash::group_hash_axioms;

/// The entity ids that a parameter refers to, in the order in which they are written.
pub open spec fn param_refs(p: ParamView) -> Seq<u64>
    decreases p,
{
    match p {
        ParamView::Ref(NameView::Entity(id)) => seq![id],
        ParamView::List(items) => list_refs(items),
        ParamView::Typed { parameter, .. } => param_refs(*parameter),
        _ => Seq::empty(),
    }
}

pub open spec fn list_refs(items: Seq<ParamView>) -> Seq<u64>
    decreases items,
{
    if items.len() == 0 {
        Seq::empty()
    } else {
        list_refs(items.drop_last()) + param_refs(items.last())
    }
}

pub open spec fn records_refs(records: Seq<RecordView>) -> Seq<u64>
    decreases records.len(),
{
    if records.len() == 0 {
        Seq::empty()
    } else {
        records_refs(records.drop_last()) + param_refs(records.last().parameter)
    }
}

/// The entity ids that an entity refers to.
pub open spec fn entity_refs(entity: EntityView) -> Seq<u64> {
    records_refs(entity.records())
}

/// The entity ids that any of the entities refers to.
pub open spec fn all_refs(entities: Seq<EntityView>) -> Seq<u64>
    decreases entities.len(),
{
    if entities.len() == 0 {
        Seq::empty()
    } else {
        all_refs(entities.drop_last()) + entity_refs(entities.last())
    }
}

/// A parameter with every entity reference replaced by its image.
pub open spec fn map_refs(p: ParamView, f: spec_fn(u64) -> u64) -> ParamView
    decreases p,
{
    match p {
        ParamView::Ref(NameView::Entity(id)) => ParamView::Ref(NameView::Entity(f(id))),
        ParamView::List(items) => ParamView::List(
            Seq::new(
                items.len(),
                |i: int|
                    if 0 <= i < items.len() {
                        map_refs(items[i], f)
                    } else {
                        ParamView::Omitted
                    },
            ),
        ),
        ParamView::Typed { keyword, parameter } => ParamView::Typed {
            keyword,
            parameter: Box::new(map_refs(*parameter, f)),
        },
        other => other,
    }
}

pub open spec fn map_record(record: RecordView, f: spec_fn(u64) -> u64) -> RecordView {
    RecordView { name: record.name, parameter: map_refs(record.parameter, f) }
}

/// An entity with every reference that it holds replaced by its image. Its own id stays.
pub open spec fn map_entity(entity: EntityView, f: spec_fn(u64) -> u64) -> EntityView {
    match entity {
        EntityView::Simple { id, record } => EntityView::Simple { id, record: map_record(record, f) },
        EntityView::Complex { id, subsuper } => EntityView::Complex {
            id,
            subsuper: Seq::new(subsuper.len(), |i: int| map_record(subsuper[i], f)),
        },
    }
}

/// The function that a map describes: an id without an entry stays.
pub open spec fn lookup(map: Map<u64, u64>) -> spec_fn(u64) -> u64 {
    |id: u64|
        if map.contains_key(id) {
            map[id]
        } else {
            id
        }
}

/// Appends the entity ids that a parameter refers to.
pub fn visit_param_refs(param: &Parameter, out: &mut Vec<u64>)
    ensures
        final(out)@ == old(out)@ + param_refs(param@),
    decreases param,
{
    match param {
        Parameter::Ref(Name::Entity(id)) => {
            out.push(*id);
            assert(out@ =~= old(out)@ + param_refs(param@));
        },
        Parameter::List(items) => {
            let ghost views = params_view(items@);
            proof {
                lemma_list_view(*items);
            }
            let mut i: usize = 0;
            assert(out@ =~= old(out)@ + list_refs(views.take(0)));
            while i < items.len()
                invariant
                    i <= items.len(),
                    decreases_to!(param => items@),
                    views == params_view(items@),
                    out@ == old(out)@ + list_refs(views.take(i as int)),
                decreases items.len() - i,
            {
                visit_param_refs(&items[i], out);
                i = i + 1;
                assert(views.take(i as int).drop_last() =~= views.take(i - 1));
                assert(out@ =~= old(out)@ + list_refs(views.take(i as int)));
            }
            assert(views.take(views.len() as int) =~= views);
        },
        Parameter::Typed { parameter, .. } => visit_param_refs(&**parameter, out),
        _ => {
            assert(out@ =~= old(out)@ + param_refs(param@));
        },
    }
}

fn visit_records_refs(records: &Vec<Record>, out: &mut Vec<u64>)
    ensures
        final(out)@ == old(out)@ + records_refs(records_view(records@)),
{
    let ghost views = records_view(records@);
    let mut i: usize = 0;
    assert(out@ =~= old(out)@ + records_refs(views.take(0)));
    while i < records.len()
        invariant
            i <= records.len(),
            views == records_view(records@),
            out@ == old(out)@ + records_refs(views.take(i as int)),
        decreases records.len() - i,
    {
        visit_param_refs(&records[i].parameter, out);
        i = i + 1;
        assert(views.take(i as int).drop_last() =~= views.take(i - 1));
        assert(out@ =~= old(out)@ + records_refs(views.take(i as int)));
    }
    assert(views.take(views.len() as int) =~= views);
}

/// Appends the entity ids that an entity refers to.
pub fn visit_entity_refs(entity: &EntityInstance, out: &mut Vec<u64>)
    ensures
        final(out)@ == old(out)@ + entity_refs(entity@),
{
    match entity {
        EntityInstance::Simple { record, .. } => {
            visit_param_refs(&record.parameter, out);
            assert(entity@.records().drop_last() =~= Seq::empty());
            assert(entity_refs(entity@) =~= param_refs(record@.parameter)) by {
                reveal_with_fuel(records_refs, 2);
            }
        },
        EntityInstance::Complex { subsuper, .. } => visit_records_refs(subsuper, out),
    }
}

/// The id that following a map leads to, in at most so many hops.
pub open spec fn chase(map: Map<u64, u64>, id: u64, hops: nat) -> u64
    decreases hops,
{
    if hops == 0 || !map.contains_key(id) || map[id] == id {
        id
    } else {
        chase(map, map[id], (hops - 1) as nat)
    }
}

/// Following a map as a function.
pub open spec fn chaser(map: Map<u64, u64>, hops: nat) -> spec_fn(u64) -> u64 {
    |id: u64| chase(map, id, hops)
}

/// Following a map for one hop is looking up in it.
pub proof fn lemma_chase_once(map: Map<u64, u64>)
    ensures
        chaser(map, 1) == lookup(map),
{
    assert forall|id: u64| #[trigger] chaser(map, 1)(id) == lookup(map)(id) by {
        reveal_with_fuel(chase, 2);
    }
    assert(chaser(map, 1) =~= lookup(map));
}

/// Follows a map.
pub fn chase_id(map: &HashMap<u64, u64>, start: u64, hops: u32) -> (out: u64)
    ensures
        out == chase(map@, start, hops as nat),
{
    let mut id: u64 = start;
    let mut left: u32 = hops;
    while left > 0
        invariant
            left <= hops,
            chase(map@, start, hops as nat) == chase(map@, id, left as nat),
        decreases left,
    {
        match map.get(&id) {
            None => {
                return id;
            },
            Some(next) => {
                if *next == id {
                    return id;
                }
                id = *next;
            },
        }
        left = left - 1;
    }
    id
}

/// A copy of a parameter in which every entity reference has followed the map.
pub fn redirect_param(param: &Parameter, map: &HashMap<u64, u64>, hops: u32) -> (out: Parameter)
    ensures
        out@ == map_refs(param@, chaser(map@, hops as nat)),
    decreases param,
{
    match param {
        Parameter::Ref(Name::Entity(id)) => Parameter::Ref(Name::Entity(chase_id(map, *id, hops))),
        Parameter::List(items) => {
            let mut out: Vec<Parameter> = Vec::new();
            let mut i: usize = 0;
            while i < items.len()
                invariant
                    i <= items.len(),
                    out.len() == i,
                    decreases_to!(param => items@),
                    forall|j: int|
                        0 <= j < i ==> (#[trigger] out@[j])@ == map_refs(
                            items@[j]@,
                            chaser(map@, hops as nat),
                        ),
                decreases items.len() - i,
            {
                let item = redirect_param(&items[i], map, hops);
                out.push(item);
                i = i + 1;
            }
            proof {
                lemma_list_view(out);
                lemma_list_view(*items);
            }
            let list = Parameter::List(out);
            assert(list@->List_0 =~= map_refs(param@, chaser(map@, hops as nat))->List_0);
            list
        },
        Parameter::Typed { keyword, parameter } => Parameter::Typed {
            keyword: keyword.clone(),
            parameter: Box::new(redirect_param(&**parameter, map, hops)),
        },
        other => other.clone(),
    }
}

/// A copy of a record in which every entity reference has followed the map.
pub fn redirect_record(record: &Record, map: &HashMap<u64, u64>, hops: u32) -> (out: Record)
    ensures
        out@ == map_record(record@, chaser(map@, hops as nat)),
{
    Record {
        name: record.name.clone(),
        parameter: redirect_param(&record.parameter, map, hops),
    }
}

/// A copy of an entity in which every reference has followed the map.
pub fn redirect_entity(entity: &EntityInstance, map: &HashMap<u64, u64>, hops: u32) -> (out:
    EntityInstance)
    ensures
        out@ == map_entity(entity@, chaser(map@, hops as nat)),
{
    match entity {
        EntityInstance::Simple { id, record } => EntityInstance::Simple {
            id: *id,
            record: redirect_record(record, map, hops),
        },
        EntityInstance::Complex { id, subsuper } => {
            let mut out: Vec<Record> = Vec::new();
            let mut i: usize = 0;
            while i < subsuper.len()
                invariant
                    i <= subsuper.len(),
                    out.len() == i,
                    forall|j: int|
                        0 <= j < i ==> (#[trigger] out@[j])@ == map_record(
                            subsuper@[j]@,
                            chaser(map@, hops as nat),
                        ),
                decreases subsuper.len() - i,
            {
                out.push(redirect_record(&subsuper[i], map, hops));
                i = i + 1;
            }
            let copy = EntityInstance::Complex { id: *id, subsuper: out };
            assert(copy@->subsuper =~= map_entity(
                entity@,
                chaser(map@, hops as nat),
            )->subsuper);
            copy
        },
    }
}

/// A copy of a parameter with every entity reference looked up in the map.
pub fn rewrite_param_refs(param: &Parameter, map: &HashMap<u64, u64>) -> (out: Parameter)
    ensures
        out@ == map_refs(param@, lookup(map@)),
{
    proof {
        lemma_chase_once(map@);
    }
    redirect_param(param, map, 1)
}

/// A copy of an entity with every reference looked up in the map.
pub fn rewrite_entity_refs(entity: &EntityInstance, map: &HashMap<u64, u64>) -> (out:
    EntityInstance)
    ensures
        out@ == map_entity(entity@, lookup(map@)),
{
    proof {
        lemma_chase_once(map@);
    }
    redirect_entity(entity, map, 1)
}

/// The ids that any of the entities refers to.
pub fn referenced_ids(entities: &Vec<EntityInstance>) -> (out: HashSet<u64>)
    ensures
        forall|id: u64| #[trigger]
            out@.contains(id) == all_refs(entities_view(entities@)).contains(id),
{
    let ghost views = entities_view(entities@);
    let mut refs: Vec<u64> = Vec::new();
    let mut i: usize = 0;
    assert(refs@ =~= all_refs(views.take(0)));
    while i < entities.len()
        invariant
            i <= entities.len(),
            views == entities_view(entities@),
            refs@ == all_refs(views.take(i as int)),
        decreases entities.len() - i,
    {
        visit_entity_refs(&entities[i], &mut refs);
        i = i + 1;
        assert(views.take(i as int).drop_last() =~= views.take(i - 1));
    }
    assert(views.take(views.len() as int) =~= views);
    let mut out: HashSet<u64> = HashSet::new();
    let mut k: usize = 0;
    while k < refs.len()
        invariant
            k <= refs.len(),
            forall|id: u64| #[trigger] out@.contains(id) ==> refs@.contains(id),
            forall|j: int| 0 <= j < k ==> out@.contains(#[trigger] refs@[j]),
        decreases refs.len() - k,
    {
        out.insert(refs[k]);
        k = k + 1;
    }
    out
}

} // verus!
