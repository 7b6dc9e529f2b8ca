//! Copies of parts of a body, set off by a distance.

use std::collections::HashMap;
use vstd::prelude::*;

use crate::ast::{
    entities_view, lemma_list_view, params_view, EntityInstance, EntityView, ParamView, Parameter,
    RecordView,
};
use crate::body_graph::{id_at, push_entity, BodyError, Draft};
use crate::brep::with_param;
use crate::graph::{
    descendants, indexes, lemma_position, nth, nth_param, position, reachable, simple_entity,
    simple_record,
};
use crate::number::is_number;
use crate::refs::{lookup, map_entity, rewrite_entity_refs};
use crate::renumber::set_entity_id;
use crate::sets::{ascending, lemma_ascending_determined, sorted_set};
use crate::text::same_text;

verus! {

broadcast use vstd::std_specs::hash::group_hash_axioms;

/// Where a point goes, as shortest decimal texts.
#[derive(Debug)]
pub struct Spot {
    pub x: String,
    pub y: String,
    pub z: String,
}

/// The coordinates of a spot.
pub open spec fn spot_param(spot: Spot) -> ParamView {
    ParamView::List(
        seq![ParamView::Real(spot.x@), ParamView::Real(spot.y@), ParamView::Real(spot.z@)],
    )
}

/// Whether ids are all that can be reached, in ascending order.
pub open spec fn is_reach(entities: Seq<EntityView>, seeds: Seq<u64>, ids: Seq<u64>) -> bool {
    ascending(ids) && forall|id: u64| #[trigger]
        ids.contains(id) == reachable(entities, seeds, id)
}

/// All that can be reached from seeds.
pub open spec fn reach_of(entities: Seq<EntityView>, seeds: Seq<u64>) -> Seq<u64> {
    choose|ids: Seq<u64>| is_reach(entities, seeds, ids)
}

/// The ids of copies: those that follow the entities.
pub open spec fn copy_ids(start: Seq<EntityView>, first: int, ids: Seq<u64>) -> Map<u64, u64>
    decreases ids.len(),
{
    if ids.len() == 0 {
        Map::empty()
    } else {
        copy_ids(start, first, ids.drop_last()).insert(
            ids.last(),
            id_at(start, first + ids.len() - 1),
        )
    }
}

/// Whether a record has three coordinates.
pub open spec fn has_three(record: RecordView) -> bool {
    &&& nth(record, 1) matches Some(ParamView::List(numbers))
    &&& numbers.len() == 3
    &&& is_number(numbers[0]) && is_number(numbers[1]) && is_number(numbers[2])
}

/// The copy of an entity under another id. It refers to copies, and a point moves to its spot.
pub open spec fn copy_of(
    entity: EntityView,
    id: u64,
    map: Map<u64, u64>,
    spots: Map<u64, Spot>,
) -> Result<EntityView, BodyError> {
    let copy = map_entity(entity, lookup(map)).with_id(id);
    match simple_record(copy) {
        Some(record) if record.name == "CARTESIAN_POINT"@ => if !has_three(record) {
            Err(BodyError::BadPoint)
        } else if !spots.contains_key(entity.id()) {
            Err(BodyError::NotMeasured)
        } else {
            Ok(
                simple_entity(
                    id,
                    record.name,
                    record.parameter->List_0.update(1, spot_param(spots[entity.id()])),
                ),
            )
        },
        _ => Ok(copy),
    }
}

/// The copies of entities.
pub open spec fn copies(
    entities: Seq<EntityView>,
    ids: Seq<u64>,
    map: Map<u64, u64>,
    spots: Map<u64, Spot>,
) -> Result<Seq<EntityView>, BodyError>
    decreases ids.len(),
{
    if ids.len() == 0 {
        Ok(Seq::empty())
    } else {
        match copies(entities, ids.drop_last(), map, spots) {
            Err(error) => Err(error),
            Ok(rest) => match copy_of(
                entities[position(entities, ids.last())->Some_0],
                map[ids.last()],
                map,
                spots,
            ) {
                Err(error) => Err(error),
                Ok(copy) => Ok(rest.push(copy)),
            },
        }
    }
}

pub open spec fn all_present(entities: Seq<EntityView>, ids: Seq<u64>) -> bool {
    forall|i: int| 0 <= i < ids.len() ==> position(entities, #[trigger] ids[i]) is Some
}

/// The entities with copies of all that can be reached from seeds, and the ids of the copies.
pub open spec fn with_copies(
    start: Seq<EntityView>,
    entities: Seq<EntityView>,
    seeds: Seq<u64>,
    spots: Map<u64, Spot>,
) -> Result<(Seq<EntityView>, Map<u64, u64>), BodyError> {
    let ids = reach_of(entities, seeds);
    let map = copy_ids(start, entities.len() as int, ids);
    if !all_present(entities, ids) {
        Err(BodyError::MissingEntity)
    } else {
        match copies(entities, ids, map, spots) {
            Err(error) => Err(error),
            Ok(more) => Ok((entities + more, map)),
        }
    }
}

proof fn lemma_copies_stop(
    entities: Seq<EntityView>,
    ids: Seq<u64>,
    map: Map<u64, u64>,
    spots: Map<u64, Spot>,
    n: int,
)
    requires
        0 <= n <= ids.len(),
        copies(entities, ids.take(n), map, spots) is Err,
    ensures
        copies(entities, ids, map, spots) == copies(entities, ids.take(n), map, spots),
    decreases ids.len(),
{
    if n == ids.len() {
        assert(ids.take(n) =~= ids);
    } else {
        assert(ids.drop_last().take(n) =~= ids.take(n));
        lemma_copies_stop(entities, ids.drop_last(), map, spots, n);
    }
}

proof fn lemma_copy_ids_cover(start: Seq<EntityView>, first: int, ids: Seq<u64>, i: int)
    requires
        0 <= i < ids.len(),
    ensures
        copy_ids(start, first, ids).contains_key(ids[i]),
    decreases ids.len(),
{
    if i < ids.len() - 1 {
        assert(ids.drop_last()[i] == ids[i]);
        lemma_copy_ids_cover(start, first, ids.drop_last(), i);
    }
}

/// All that can be reached from seeds, in ascending order.
pub(crate) fn find_reach(
    seeds: &Vec<u64>,
    entities: &Vec<EntityInstance>,
    index: &HashMap<u64, usize>,
) -> (out: Vec<u64>)
    requires
        indexes(index@, entities_view(entities@)),
    ensures
        out@ == reach_of(entities_view(entities@), seeds@),
{
    let ghost views = entities_view(entities@);
    let all = descendants(entities, index, seeds);
    let out = sorted_set(&all);
    proof {
        assert forall|id: u64| #[trigger]
            out@.contains(id) == reachable(views, seeds@, id) by {
            assert(out@.contains(id) == all@.contains(id));
        }
        assert(is_reach(views, seeds@, out@));
        let chosen = reach_of(views, seeds@);
        assert(is_reach(views, seeds@, chosen));
        assert forall|id: u64| #[trigger] out@.contains(id) == chosen.contains(id) by {
            assert(out@.contains(id) == reachable(views, seeds@, id));
        }
        lemma_ascending_determined(out@, chosen);
    }
    out
}

/// The copy of an entity under another id.
fn copy_entity(
    entity: &EntityInstance,
    old_id: u64,
    id: u64,
    map: &HashMap<u64, u64>,
    spots: &HashMap<u64, Spot>,
) -> (out: Result<EntityInstance, BodyError>)
    requires
        old_id == entity@.id(),
    ensures
        match (out, copy_of(entity@, id, map@, spots@)) {
            (Ok(copy), Ok(view)) => copy@ == view,
            (Err(a), Err(b)) => a == b,
            _ => false,
        },
{
    let copy = set_entity_id(rewrite_entity_refs(entity, map), id);
    let ghost view = copy@;
    match &copy {
        EntityInstance::Simple { id: new_id, record } => {
            if same_text(record.name.as_str(), "CARTESIAN_POINT") {
                assert(simple_record(view) == Some(record@));
                let numbers = match nth_param(record, 1) {
                    Some(Parameter::List(numbers)) => numbers,
                    _ => {
                        return Err(BodyError::BadPoint);
                    },
                };
                proof {
                    lemma_list_view(*numbers);
                }
                let ghost values = params_view(numbers@);
                if numbers.len() != 3 {
                    return Err(BodyError::BadPoint);
                }
                assert(values[0] == numbers@[0]@ && values[1] == numbers@[1]@ && values[2]
                    == numbers@[2]@);
                if !is_numeric(&numbers[0]) || !is_numeric(&numbers[1]) || !is_numeric(
                    &numbers[2],
                ) {
                    return Err(BodyError::BadPoint);
                }
                let spot = match spots.get(&old_id) {
                    Some(spot) => spot,
                    None => {
                        return Err(BodyError::NotMeasured);
                    },
                };
                let mut list: Vec<Parameter> = Vec::new();
                list.push(Parameter::Real(spot.x.clone()));
                list.push(Parameter::Real(spot.y.clone()));
                list.push(Parameter::Real(spot.z.clone()));
                proof {
                    lemma_list_view(list);
                    assert(params_view(list@) =~= seq![
                        ParamView::Real(spot.x@),
                        ParamView::Real(spot.y@),
                        ParamView::Real(spot.z@),
                    ]);
                }
                match &record.parameter {
                    Parameter::List(params) => {
                        proof {
                            lemma_list_view(*params);
                        }
                        if params.len() < 2 {
                            return Err(BodyError::BadPoint);
                        }
                        return Ok(with_param(*new_id, record, params, 1, Parameter::List(list)));
                    },
                    _ => {
                        return Err(BodyError::BadPoint);
                    },
                }
            }
        },
        EntityInstance::Complex { .. } => {},
    }
    Ok(copy)
}

fn is_numeric(param: &Parameter) -> (out: bool)
    ensures
        out == is_number(param@),
{
    match param {
        Parameter::Integer(_) => true,
        Parameter::Real(_) => true,
        _ => false,
    }
}

/// The ids of copies.
fn number_copies(draft: &Draft, ids: &Vec<u64>, Ghost(start): Ghost<Seq<EntityView>>) -> (out:
    Option<HashMap<u64, u64>>)
    requires
        draft.wf(start),
    ensures
        out is None ==> !all_present(draft@, ids@),
        out matches Some(map) ==> all_present(draft@, ids@) && map@ == copy_ids(
            start,
            draft@.len() as int,
            ids@,
        ),
{
    let mut map: HashMap<u64, u64> = HashMap::new();
    let first: usize = draft.entities.len();
    let mut i: usize = 0;
    assert(ids@.take(0) =~= Seq::<u64>::empty());
    assert(map@ =~= Map::<u64, u64>::empty());
    while i < ids.len()
        invariant
            i <= ids.len(),
            draft.wf(start),
            first == draft@.len(),
            forall|k: int| 0 <= k < i ==> position(draft@, #[trigger] ids@[k]) is Some,
            map@ == copy_ids(start, first as int, ids@.take(i as int)),
        decreases ids.len() - i,
    {
        assert(ids@.take(i + 1).drop_last() =~= ids@.take(i as int));
        assert(ids@.take(i + 1).last() == ids@[i as int]);
        if !draft.index.contains_key(&ids[i]) {
            assert(position(draft@, ids@[i as int]) is None);
            return None;
        }
        let id: u64 = offset_id(draft, first, i, Ghost(start));
        map.insert(ids[i], id);
        i = i + 1;
    }
    assert(ids@.take(ids@.len() as int) =~= ids@);
    Some(map)
}

/// The id of the entity some places behind another.
fn offset_id(draft: &Draft, first: usize, more: usize, Ghost(start): Ghost<Seq<EntityView>>) -> (id:
    u64)
    requires
        draft.wf(start),
        first >= draft.base,
    ensures
        id == id_at(start, first + more),
{
    let id: u128 = draft.last as u128 + (first - draft.base) as u128 + more as u128 + 1;
    if id <= u64::MAX as u128 {
        id as u64
    } else {
        0
    }
}

/// Copies all that can be reached from seeds, and gives the ids of the copies.
pub(crate) fn clone_descendants(
    draft: &mut Draft,
    seeds: &Vec<u64>,
    spots: &HashMap<u64, Spot>,
    Ghost(start): Ghost<Seq<EntityView>>,
) -> (out: Result<HashMap<u64, u64>, BodyError>)
    requires
        old(draft).wf(start),
    ensures
        final(draft).wf(start),
        match (out, with_copies(start, old(draft)@, seeds@, spots@)) {
            (Ok(map), Ok((entities, copied))) => map@ == copied && final(draft)@ == entities,
            (Err(a), Err(b)) => a == b,
            _ => false,
        },
{
    let ghost views = draft@;
    let ids = find_reach(seeds, &draft.entities, &draft.index);
    let map = match number_copies(draft, &ids, Ghost(start)) {
        Some(map) => map,
        None => {
            return Err(BodyError::MissingEntity);
        },
    };
    let mut more: Vec<EntityInstance> = Vec::new();
    let mut i: usize = 0;
    assert(ids@.take(0) =~= Seq::<u64>::empty());
    assert(entities_view(more@) =~= Seq::<EntityView>::empty());
    while i < ids.len()
        invariant
            i <= ids.len(),
            draft.wf(start),
            draft@ == views,
            ids@ == reach_of(views, seeds@),
            all_present(views, ids@),
            map@ == copy_ids(start, views.len() as int, ids@),
            copies(views, ids@.take(i as int), map@, spots@) == Ok::<_, BodyError>(
                entities_view(more@),
            ),
        decreases ids.len() - i,
    {
        assert(ids@.take(i + 1).drop_last() =~= ids@.take(i as int));
        assert(ids@.take(i + 1).last() == ids@[i as int]);
        let id: u64 = ids[i];
        assert(position(views, ids@[i as int]) is Some);
        proof {
            lemma_position(views, id);
            lemma_copy_ids_cover(start, views.len() as int, ids@, i as int);
            assert(draft.index@.contains_key(id));
        }
        let at: usize = *draft.index.get(&id).unwrap();
        let new_id: u64 = *map.get(&id).unwrap();
        assert(views[at as int] == draft.entities@[at as int]@);
        match copy_entity(&draft.entities[at], id, new_id, &map, spots) {
            Ok(copy) => {
                let ghost so_far = entities_view(more@);
                let ghost view = copy@;
                more.push(copy);
                assert(entities_view(more@) =~= so_far.push(view));
            },
            Err(error) => {
                proof {
                    lemma_copies_stop(views, ids@, map@, spots@, i + 1);
                }
                return Err(error);
            },
        }
        i = i + 1;
    }
    assert(ids@.take(ids@.len() as int) =~= ids@);
    push_all(draft, more, Ghost(start));
    Ok(map)
}

/// Appends entities.
fn push_all(
    draft: &mut Draft,
    more: Vec<EntityInstance>,
    Ghost(start): Ghost<Seq<EntityView>>,
)
    requires
        old(draft).wf(start),
    ensures
        final(draft).wf(start),
        final(draft)@ == old(draft)@ + entities_view(more@),
{
    let ghost before = draft@;
    let ghost all = entities_view(more@);
    let mut rest = more;
    let mut turned: Vec<EntityInstance> = Vec::new();
    assert(all.take(0) =~= Seq::<EntityView>::empty());
    while rest.len() > 0
        invariant
            entities_view(rest@) == all.take(rest@.len() as int),
            rest@.len() + turned@.len() == all.len(),
            forall|k: int|
                0 <= k < turned@.len() ==> (#[trigger] turned@[k])@ == all[all.len() - 1 - k],
        decreases rest.len(),
    {
        let ghost was = entities_view(rest@);
        let entity = rest.pop().unwrap();
        assert(entity@ == was.last());
        turned.push(entity);
        assert(entities_view(rest@) =~= all.take(rest@.len() as int));
    }
    assert(before + all.take(0) =~= before);
    while turned.len() > 0
        invariant
            draft.wf(start),
            turned@.len() <= all.len(),
            draft@ == before + all.take(all.len() - turned@.len()),
            forall|k: int|
                0 <= k < turned@.len() ==> (#[trigger] turned@[k])@ == all[all.len() - 1 - k],
        decreases turned.len(),
    {
        let ghost n = all.len() - turned@.len();
        assert(turned@[turned@.len() - 1]@ == all[n]);
        let entity = turned.pop().unwrap();
        push_entity(draft, entity, Ghost(start));
        assert(before + all.take(n + 1) =~= (before + all.take(n)).push(all[n]));
    }
    assert(all.take(all.len() as int) =~= all);
}

} // verus!
