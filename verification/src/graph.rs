//! The graph that entities and their references form.

use std::collections::{HashMap, HashSet};
use vstd::prelude::*;

use crate::ast::{
    entities_view, entity_id, lemma_list_view, params_view, EntityInstance, EntityView, Name,
    NameView, ParamView, Parameter, Record, RecordView,
};
use crate::refs::{entity_refs, visit_entity_refs};
use crate::text::same_text;

verus! {

broadcast use vstd::std_specs::hash::group_hash_axioms;

/// Where the entity with an id stands. Of several the last one counts.
pub open spec fn position(entities: Seq<EntityView>, id: u64) -> Option<int>
    decreases entities.len(),
{
    if entities.len() == 0 {
        None
    } else if entities.last().id() == id {
        Some(entities.len() - 1)
    } else {
        position(entities.drop_last(), id)
    }
}

/// A map that knows where every entity stands.
pub open spec fn indexes(index: Map<u64, usize>, entities: Seq<EntityView>) -> bool {
    forall|id: u64| #[trigger]
        index.contains_key(id) == (position(entities, id) is Some) && (index.contains_key(id)
            ==> index[id] == position(entities, id)->Some_0)
}

pub proof fn lemma_position(entities: Seq<EntityView>, id: u64)
    ensures
        match position(entities, id) {
            Some(i) => 0 <= i < entities.len() && entities[i].id() == id && forall|j: int|
                i < j < entities.len() ==> (#[trigger] entities[j]).id() != id,
            None => forall|j: int|
                0 <= j < entities.len() ==> (#[trigger] entities[j]).id() != id,
        },
    decreases entities.len(),
{
    if entities.len() > 0 && entities.last().id() != id {
        let shorter = entities.drop_last();
        lemma_position(shorter, id);
        assert forall|j: int| 0 <= j < shorter.len() implies entities[j] == #[trigger] shorter[j] by {}
        match position(shorter, id) {
            Some(i) => {
                assert forall|j: int| i < j < entities.len() implies (#[trigger] entities[j]).id()
                    != id by {
                    if j < shorter.len() {
                        assert(shorter[j].id() != id);
                    }
                }
            },
            None => {
                assert forall|j: int| 0 <= j < entities.len() implies (#[trigger] entities[j]).id()
                    != id by {
                    if j < shorter.len() {
                        assert(shorter[j].id() != id);
                    }
                }
            },
        }
    }
}

/// Where every entity stands.
pub fn build_index(entities: &Vec<EntityInstance>) -> (out: HashMap<u64, usize>)
    ensures
        indexes(out@, entities_view(entities@)),
{
    let ghost views = entities_view(entities@);
    let mut out: HashMap<u64, usize> = HashMap::new();
    let mut i: usize = 0;
    assert(views.take(0) =~= Seq::empty());
    while i < entities.len()
        invariant
            i <= entities.len(),
            views == entities_view(entities@),
            indexes(out@, views.take(i as int)),
        decreases entities.len() - i,
    {
        let id: u64 = entity_id(&entities[i]);
        let ghost before = out@;
        out.insert(id, i);
        i = i + 1;
        proof {
            let now = views.take(i as int);
            assert(now.drop_last() =~= views.take(i - 1));
            assert(now.last() == entities@[i - 1]@);
            assert forall|k: u64| #[trigger]
                out@.contains_key(k) == (position(now, k) is Some) && (out@.contains_key(k)
                    ==> out@[k] == position(now, k)->Some_0) by {
                assert(before.contains_key(k) == (position(views.take(i - 1), k) is Some));
            }
        }
    }
    assert(views.take(views.len() as int) =~= views);
    out
}

/// The record of a simple entity.
pub open spec fn simple_record(entity: EntityView) -> Option<RecordView> {
    match entity {
        EntityView::Simple { record, .. } => Some(record),
        EntityView::Complex { .. } => None,
    }
}

/// The record of the simple entity with an id.
pub open spec fn record_at(entities: Seq<EntityView>, id: u64) -> Option<RecordView> {
    match position(entities, id) {
        Some(i) => simple_record(entities[i]),
        None => None,
    }
}

/// The record of the simple entity with an id and a type.
pub open spec fn typed_record(entities: Seq<EntityView>, id: u64, name: Seq<char>) -> Option<
    RecordView,
> {
    match record_at(entities, id) {
        Some(record) if record.name == name => Some(record),
        _ => None,
    }
}

/// A parameter of a record.
pub open spec fn nth(record: RecordView, n: int) -> Option<ParamView> {
    match record.parameter {
        ParamView::List(items) if 0 <= n < items.len() => Some(items[n]),
        _ => None,
    }
}

/// The entity that a parameter refers to.
pub open spec fn ref_value(p: ParamView) -> Option<u64> {
    match p {
        ParamView::Ref(NameView::Entity(id)) => Some(id),
        _ => None,
    }
}

/// The entity that a parameter of a record refers to.
pub open spec fn nth_ref(record: RecordView, n: int) -> Option<u64> {
    match nth(record, n) {
        Some(p) => ref_value(p),
        None => None,
    }
}

/// Whether every one of the parameters refers to an entity.
pub open spec fn all_are_refs(items: Seq<ParamView>) -> bool {
    forall|i: int| 0 <= i < items.len() ==> ref_value(#[trigger] items[i]) is Some
}

/// The entities that a list of references names.
pub open spec fn ref_list(p: ParamView) -> Option<Seq<u64>> {
    match p {
        ParamView::List(items) if all_are_refs(items) => Some(
            Seq::new(items.len(), |i: int| ref_value(items[i])->Some_0),
        ),
        _ => None,
    }
}

/// The entities that a parameter of a record lists.
pub open spec fn nth_ref_list(record: RecordView, n: int) -> Option<Seq<u64>> {
    match nth(record, n) {
        Some(p) => ref_list(p),
        None => None,
    }
}

/// A truth value.
pub open spec fn logical(p: ParamView) -> Option<bool> {
    match p {
        ParamView::Enumeration(s) => if s == "T"@ {
            Some(true)
        } else if s == "F"@ {
            Some(false)
        } else {
            None
        },
        _ => None,
    }
}

pub open spec fn nth_logical(record: RecordView, n: int) -> Option<bool> {
    match nth(record, n) {
        Some(p) => logical(p),
        None => None,
    }
}

/// The record of a simple entity.
pub fn simple_record_of(entity: &EntityInstance) -> (out: Option<&Record>)
    ensures
        out is Some == simple_record(entity@) is Some,
        out matches Some(record) ==> simple_record(entity@) == Some(record@),
{
    match entity {
        EntityInstance::Simple { record, .. } => Some(record),
        EntityInstance::Complex { .. } => None,
    }
}

/// The record of the simple entity with an id.
pub fn find_record<'a>(
    entities: &'a Vec<EntityInstance>,
    index: &HashMap<u64, usize>,
    id: u64,
) -> (out: Option<&'a Record>)
    requires
        indexes(index@, entities_view(entities@)),
    ensures
        out is Some == record_at(entities_view(entities@), id) is Some,
        out matches Some(record) ==> record_at(entities_view(entities@), id) == Some(record@),
{
    proof {
        lemma_position(entities_view(entities@), id);
    }
    match index.get(&id) {
        None => None,
        Some(i) => {
            assert(entities_view(entities@)[*i as int] == entities@[*i as int]@);
            simple_record_of(&entities[*i])
        },
    }
}

/// The record of the simple entity with an id and a type.
pub fn find_typed<'a>(
    entities: &'a Vec<EntityInstance>,
    index: &HashMap<u64, usize>,
    id: u64,
    name: &str,
) -> (out: Option<&'a Record>)
    requires
        indexes(index@, entities_view(entities@)),
    ensures
        out is Some == typed_record(entities_view(entities@), id, name@) is Some,
        out matches Some(record) ==> typed_record(entities_view(entities@), id, name@) == Some(
            record@,
        ),
{
    match find_record(entities, index, id) {
        Some(record) => if same_text(record.name.as_str(), name) {
            Some(record)
        } else {
            None
        },
        None => None,
    }
}

/// A parameter of a record.
pub fn nth_param(record: &Record, n: usize) -> (out: Option<&Parameter>)
    ensures
        out is Some == nth(record@, n as int) is Some,
        out matches Some(p) ==> nth(record@, n as int) == Some(p@),
{
    match &record.parameter {
        Parameter::List(items) => {
            proof {
                lemma_list_view(*items);
            }
            if n < items.len() {
                Some(&items[n])
            } else {
                None
            }
        },
        _ => None,
    }
}

/// The entity that a parameter refers to.
pub fn entity_ref_value(param: &Parameter) -> (out: Option<u64>)
    ensures
        out == ref_value(param@),
{
    match param {
        Parameter::Ref(Name::Entity(id)) => Some(*id),
        _ => None,
    }
}

/// The entity that a parameter of a record refers to.
pub fn nth_entity_ref(record: &Record, n: usize) -> (out: Option<u64>)
    ensures
        out == nth_ref(record@, n as int),
{
    match nth_param(record, n) {
        Some(p) => entity_ref_value(p),
        None => None,
    }
}

/// The entities that a list of references names.
pub fn entity_ref_list(param: &Parameter) -> (out: Option<Vec<u64>>)
    ensures
        out is Some == ref_list(param@) is Some,
        out matches Some(ids) ==> ref_list(param@) == Some(ids@),
{
    match param {
        Parameter::List(items) => {
            proof {
                lemma_list_view(*items);
            }
            let ghost views = params_view(items@);
            let mut out: Vec<u64> = Vec::new();
            let mut i: usize = 0;
            while i < items.len()
                invariant
                    i <= items.len(),
                    out.len() == i,
                    views == params_view(items@),
                    param@ == ParamView::List(views),
                    forall|j: int|
                        0 <= j < i ==> ref_value(#[trigger] views[j]) == Some(out@[j]),
                decreases items.len() - i,
            {
                assert(views[i as int] == items@[i as int]@);
                match entity_ref_value(&items[i]) {
                    Some(id) => out.push(id),
                    None => {
                        return None;
                    },
                }
                i = i + 1;
            }
            assert(all_are_refs(views));
            assert(out@ =~= ref_list(param@)->Some_0);
            Some(out)
        },
        _ => None,
    }
}

/// The entities that a parameter of a record lists.
pub fn nth_entity_ref_list(record: &Record, n: usize) -> (out: Option<Vec<u64>>)
    ensures
        out is Some == nth_ref_list(record@, n as int) is Some,
        out matches Some(ids) ==> nth_ref_list(record@, n as int) == Some(ids@),
{
    match nth_param(record, n) {
        Some(p) => entity_ref_list(p),
        None => None,
    }
}

/// A truth value.
pub fn logical_bool(param: &Parameter) -> (out: Option<bool>)
    ensures
        out == logical(param@),
{
    match param {
        Parameter::Enumeration(s) => if same_text(s.as_str(), "T") {
            Some(true)
        } else if same_text(s.as_str(), "F") {
            proof {
                reveal_strlit("T");
                reveal_strlit("F");
            }
            Some(false)
        } else {
            None
        },
        _ => None,
    }
}

pub fn nth_bool(record: &Record, n: usize) -> (out: Option<bool>)
    ensures
        out == nth_logical(record@, n as int),
{
    match nth_param(record, n) {
        Some(p) => logical_bool(p),
        None => None,
    }
}

/// A reference to an entity.
pub fn entity_ref(id: u64) -> (out: Parameter)
    ensures
        out@ == ParamView::Ref(NameView::Entity(id)),
{
    Parameter::Ref(Name::Entity(id))
}

/// What the entity with an id refers to. Of several entities the last one counts.
pub open spec fn refs_of(entities: Seq<EntityView>, id: u64) -> Seq<u64> {
    match position(entities, id) {
        Some(i) => entity_refs(entities[i]),
        None => Seq::empty(),
    }
}

/// Whether one entity refers to another.
pub open spec fn refers(entities: Seq<EntityView>, parent: u64, child: u64) -> bool {
    refs_of(entities, parent).contains(child)
}

/// A table of the entities that refer to each entity.
pub open spec fn lists_parents(table: Map<u64, Vec<u64>>, entities: Seq<EntityView>) -> bool {
    &&& forall|child: u64, i: int|
        #![trigger table[child]@[i]]
        table.contains_key(child) && 0 <= i < table[child]@.len() ==> refers(
            entities,
            table[child]@[i],
            child,
        )
    &&& forall|parent: u64, child: u64| #[trigger]
        refers(entities, parent, child) ==> table.contains_key(child) && table[child]@.contains(
            parent,
        )
}

/// Adds an entry to a table of lists.
pub fn add_entry(table: &mut HashMap<u64, Vec<u64>>, key: u64, value: u64)
    ensures
        final(table)@.dom() == old(table)@.dom().insert(key),
        forall|k: u64|
            k != key && old(table)@.contains_key(k) ==> #[trigger] final(table)@[k]
                == old(table)@[k],
        final(table)@[key]@ == (if old(table)@.contains_key(key) {
            old(table)@[key]@
        } else {
            Seq::empty()
        }).push(value),
{
    let mut list = match table.remove(&key) {
        Some(list) => list,
        None => Vec::new(),
    };
    list.push(value);
    table.insert(key, list);
    assert(table@.dom() =~= old(table)@.dom().insert(key));
}

/// The entities that refer to each entity.
pub fn parents_table(entities: &Vec<EntityInstance>, index: &HashMap<u64, usize>) -> (out: HashMap<
    u64,
    Vec<u64>,
>)
    requires
        indexes(index@, entities_view(entities@)),
    ensures
        lists_parents(out@, entities_view(entities@)),
{
    let ghost views = entities_view(entities@);
    let mut out: HashMap<u64, Vec<u64>> = HashMap::new();
    let mut i: usize = 0;
    assert forall|parent: u64, child: u64| #[trigger]
        refers(views, parent, child) implies position(views, parent)->Some_0 >= 0 by {
        lemma_position(views, parent);
    }
    while i < entities.len()
        invariant
            i <= entities.len(),
            views == entities_view(entities@),
            indexes(index@, views),
            forall|child: u64, j: int|
                #![trigger out@[child]@[j]]
                out@.contains_key(child) && 0 <= j < out@[child]@.len() ==> refers(
                    views,
                    out@[child]@[j],
                    child,
                ),
            forall|parent: u64, child: u64| #[trigger]
                refers(views, parent, child) && position(views, parent)->Some_0 < i
                    ==> out@.contains_key(child) && out@[child]@.contains(parent),
        decreases entities.len() - i,
    {
        let id: u64 = entity_id(&entities[i]);
        assert(views[i as int] == entities@[i as int]@);
        proof {
            lemma_position(views, id);
        }
        let here = match index.get(&id) {
            Some(at) => *at == i,
            None => false,
        };
        if here {
            let mut refs: Vec<u64> = Vec::new();
            visit_entity_refs(&entities[i], &mut refs);
            assert(refs@ =~= refs_of(views, id));
            let mut k: usize = 0;
            while k < refs.len()
                invariant
                    k <= refs.len(),
                    i < entities.len(),
                    views == entities_view(entities@),
                    position(views, id) == Some(i as int),
                    refs@ == refs_of(views, id),
                    forall|child: u64, j: int|
                        #![trigger out@[child]@[j]]
                        out@.contains_key(child) && 0 <= j < out@[child]@.len() ==> refers(
                            views,
                            out@[child]@[j],
                            child,
                        ),
                    forall|parent: u64, child: u64| #[trigger]
                        refers(views, parent, child) && position(views, parent)->Some_0 < i
                            ==> out@.contains_key(child) && out@[child]@.contains(parent),
                    forall|j: int|
                        0 <= j < k ==> out@.contains_key(#[trigger] refs@[j])
                            && out@[refs@[j]]@.contains(id),
                decreases refs.len() - k,
            {
                let child: u64 = refs[k];
                let ghost before = out@;
                assert(refers(views, id, child));
                add_entry(&mut out, child, id);
                proof {
                    let old_list = if before.contains_key(child) {
                        before[child]@
                    } else {
                        Seq::empty()
                    };
                    assert(out@[child]@[old_list.len() as int] == id);
                    assert forall|c: u64, p: u64|
                        before.contains_key(c) && (#[trigger] before[c]@.contains(p)) implies
                        out@.contains_key(c) && out@[c]@.contains(p) by {
                        let j = choose|j: int| 0 <= j < before[c]@.len() && before[c]@[j] == p;
                        assert(out@.dom().contains(c));
                        if c == child {
                            assert(out@[c]@[j] == p);
                        } else {
                            assert(out@[c] == before[c]);
                        }
                    }
                    assert forall|c: u64, j: int|
                        #![trigger out@[c]@[j]]
                        out@.contains_key(c) && 0 <= j < out@[c]@.len() implies refers(
                        views,
                        out@[c]@[j],
                        c,
                    ) by {
                        assert(out@.dom().contains(c));
                        if c == child {
                            if j < old_list.len() {
                                assert(before[c]@[j] == out@[c]@[j]);
                            }
                        } else {
                            assert(before.contains_key(c));
                            assert(out@[c] == before[c]);
                            assert(before[c]@[j] == out@[c]@[j]);
                        }
                    }
                    assert(out@.dom().contains(child));
                }
                k = k + 1;
            }
            assert forall|parent: u64, child: u64| #[trigger]
                refers(views, parent, child) && position(views, parent)->Some_0 < i + 1 implies
                out@.contains_key(child) && out@[child]@.contains(parent) by {
                lemma_position(views, parent);
                if position(views, parent)->Some_0 == i {
                    assert(parent == id);
                    let j = choose|j: int| 0 <= j < refs@.len() && refs@[j] == child;
                    assert(refs@[j] == child);
                }
            }
        } else {
            assert forall|parent: u64, child: u64| #[trigger]
                refers(views, parent, child) && position(views, parent)->Some_0 < i + 1 implies
                out@.contains_key(child) && out@[child]@.contains(parent) by {
                lemma_position(views, parent);
                if position(views, parent)->Some_0 == i {
                    assert(parent == id);
                }
            }
        }
        i = i + 1;
    }
    assert forall|parent: u64, child: u64| #[trigger] refers(views, parent, child) implies
        out@.contains_key(child) && out@[child]@.contains(parent) by {
        lemma_position(views, parent);
    }
    out
}

/// A walk along references.
pub open spec fn is_walk(entities: Seq<EntityView>, walk: Seq<u64>) -> bool {
    &&& walk.len() > 0
    &&& forall|i: int|
        0 <= i < walk.len() - 1 ==> refers(entities, #[trigger] walk[i], walk[i + 1])
}

/// Whether an id can be reached from one of the roots along references.
pub open spec fn reachable(entities: Seq<EntityView>, roots: Seq<u64>, id: u64) -> bool {
    exists|walk: Seq<u64>| #[trigger]
        is_walk(entities, walk) && roots.contains(walk[0]) && walk.last() == id
}

pub proof fn lemma_walk_further(
    entities: Seq<EntityView>,
    roots: Seq<u64>,
    parent: u64,
    child: u64,
)
    requires
        reachable(entities, roots, parent),
        refers(entities, parent, child),
    ensures
        reachable(entities, roots, child),
{
    let walk = choose|walk: Seq<u64>| #[trigger]
        is_walk(entities, walk) && roots.contains(walk[0]) && walk.last() == parent;
    let longer = walk.push(child);
    assert forall|i: int| 0 <= i < longer.len() - 1 implies refers(
        entities,
        #[trigger] longer[i],
        longer[i + 1],
    ) by {
        if i < walk.len() - 1 {
            assert(walk[i] == longer[i]);
        }
    }
    assert(is_walk(entities, longer));
    assert(longer[0] == walk[0]);
}

/// What is closed under references and holds the start of a walk holds its end.
pub proof fn lemma_walk_stays(entities: Seq<EntityView>, walk: Seq<u64>, closed: Set<u64>, n: int)
    requires
        is_walk(entities, walk),
        closed.contains(walk[0]),
        forall|parent: u64, child: u64|
            closed.contains(parent) && #[trigger] refers(entities, parent, child)
                ==> closed.contains(child),
        0 <= n < walk.len(),
    ensures
        closed.contains(walk[n]),
    decreases n,
{
    if n > 0 {
        lemma_walk_stays(entities, walk, closed, n - 1);
        assert(refers(entities, walk[n - 1], walk[n - 1 + 1]));
    }
}

/// All ids that entities refer to, together with some more.
pub open spec fn universe(entities: Seq<EntityView>, roots: Seq<u64>) -> Set<u64> {
    crate::refs::all_refs(entities).to_set().union(roots.to_set())
}

pub proof fn lemma_refs_in_all(entities: Seq<EntityView>, i: int, child: u64)
    requires
        0 <= i < entities.len(),
        entity_refs(entities[i]).contains(child),
    ensures
        crate::refs::all_refs(entities).contains(child),
    decreases entities.len(),
{
    let shorter = entities.drop_last();
    let left = crate::refs::all_refs(shorter);
    let right = entity_refs(entities.last());
    let whole = crate::refs::all_refs(entities);
    assert(whole == left + right);
    if i < shorter.len() {
        assert(shorter[i] == entities[i]);
        lemma_refs_in_all(shorter, i, child);
        let j = choose|j: int| 0 <= j < left.len() && left[j] == child;
        assert(whole[j] == child);
    } else {
        let j = choose|j: int| 0 <= j < right.len() && right[j] == child;
        assert(whole[left.len() + j] == child);
    }
}

/// The ids that can be reached from the roots, each once.
pub fn descendants(
    entities: &Vec<EntityInstance>,
    index: &HashMap<u64, usize>,
    roots: &Vec<u64>,
) -> (out: Vec<u64>)
    requires
        indexes(index@, entities_view(entities@)),
    ensures
        forall|id: u64| #[trigger]
            out@.contains(id) == reachable(entities_view(entities@), roots@, id),
        out@.no_duplicates(),
{
    let ghost views = entities_view(entities@);
    let ghost all = universe(views, roots@);
    let mut seen: HashSet<u64> = HashSet::new();
    let mut order: Vec<u64> = Vec::new();
    let mut stack: Vec<u64> = Vec::new();
    let mut r: usize = 0;
    while r < roots.len()
        invariant
            r <= roots.len(),
            stack@ == roots@.take(r as int),
        decreases roots.len() - r,
    {
        stack.push(roots[r]);
        r = r + 1;
        assert(roots@.take(r as int) =~= roots@.take(r - 1).push(roots@[r - 1]));
    }
    assert(stack@ =~= roots@);
    proof {
        assert forall|i: int| 0 <= i < stack@.len() implies reachable(
            views,
            roots@,
            #[trigger] stack@[i],
        ) by {
            let walk = seq![stack@[i]];
            assert(is_walk(views, walk));
            assert(roots@.contains(walk[0]));
        }
        assert forall|i: int| 0 <= i < stack@.len() implies all.contains(#[trigger] stack@[i]) by {
            assert(roots@.contains(stack@[i]));
        }
        vstd::seq_lib::seq_to_set_is_finite(crate::refs::all_refs(views));
        vstd::seq_lib::seq_to_set_is_finite(roots@);
    }
    while stack.len() > 0
        invariant
            views == entities_view(entities@),
            indexes(index@, views),
            all == universe(views, roots@),
            all.finite(),
            seen@.subset_of(all),
            forall|i: int| 0 <= i < stack@.len() ==> all.contains(#[trigger] stack@[i]),
            forall|i: int|
                0 <= i < stack@.len() ==> reachable(views, roots@, #[trigger] stack@[i]),
            forall|id: u64| #[trigger] seen@.contains(id) == order@.contains(id),
            order@.no_duplicates(),
            forall|id: u64| #[trigger] seen@.contains(id) ==> reachable(views, roots@, id),
            forall|id: u64| #[trigger]
                roots@.contains(id) ==> seen@.contains(id) || stack@.contains(id),
            forall|parent: u64, child: u64|
                seen@.contains(parent) && #[trigger] refers(views, parent, child)
                    ==> seen@.contains(child) || stack@.contains(child),
        decreases all.difference(seen@).len(), stack.len(),
    {
        let ghost before_stack = stack@;
        let ghost before_seen = seen@;
        let id: u64 = stack.pop().unwrap();
        assert(before_stack.last() == id);
        assert(stack@ =~= before_stack.drop_last());
        assert forall|x: u64| before_stack.contains(x) implies x == id || #[trigger] stack@.contains(
            x,
        ) by {
            let j = choose|j: int| 0 <= j < before_stack.len() && before_stack[j] == x;
            if j < stack@.len() {
                assert(stack@[j] == x);
            }
        }
        if !seen.contains(&id) {
            let ghost before_order = order@;
            seen.insert(id);
            order.push(id);
            proof {
                assert(order@[before_order.len() as int] == id);
                assert forall|x: u64| #[trigger] order@.contains(x) == (x == id
                    || before_order.contains(x)) by {
                    if before_order.contains(x) {
                        let j = choose|j: int|
                            0 <= j < before_order.len() && before_order[j] == x;
                        assert(order@[j] == x);
                    }
                }
                assert(all.difference(seen@) =~= all.difference(before_seen).remove(id));
                assert(all.difference(before_seen).contains(id));
            }
            let ghost base = stack@;
            match index.get(&id) {
                None => {
                    assert(refs_of(views, id) =~= Seq::empty());
                },
                Some(at) => {
                    proof {
                        lemma_position(views, id);
                        assert(views[*at as int] == entities@[*at as int]@);
                    }
                    visit_entity_refs(&entities[*at], &mut stack);
                },
            }
            assert(stack@ =~= base + refs_of(views, id));
            proof {
                assert forall|i: int| 0 <= i < stack@.len() implies all.contains(
                    #[trigger] stack@[i],
                ) && reachable(views, roots@, stack@[i]) by {
                    if i < base.len() {
                        assert(stack@[i] == base[i]);
                        assert(base[i] == before_stack[i]);
                    } else {
                        let child = stack@[i];
                        assert(refs_of(views, id)[i - base.len()] == child);
                        assert(refers(views, id, child));
                        lemma_walk_further(views, roots@, id, child);
                        lemma_position(views, id);
                        lemma_refs_in_all(views, position(views, id)->Some_0, child);
                    }
                }
                assert forall|x: u64| base.contains(x) implies #[trigger] stack@.contains(x) by {
                    let j = choose|j: int| 0 <= j < base.len() && base[j] == x;
                    assert(stack@[j] == x);
                }
                assert forall|parent: u64, child: u64|
                    seen@.contains(parent) && #[trigger] refers(views, parent, child) implies
                    seen@.contains(child) || stack@.contains(child) by {
                    if parent == id {
                        let j = choose|j: int|
                            0 <= j < refs_of(views, id).len() && refs_of(views, id)[j] == child;
                        assert(stack@[base.len() + j] == child);
                    } else {
                        assert(before_seen.contains(parent));
                    }
                }
            }
        }
    }
    proof {
        assert forall|id: u64| #[trigger] order@.contains(id) == reachable(views, roots@, id) by {
            if reachable(views, roots@, id) {
                let walk = choose|walk: Seq<u64>| #[trigger]
                    is_walk(views, walk) && roots@.contains(walk[0]) && walk.last() == id;
                lemma_walk_stays(views, walk, seen@, walk.len() - 1);
                assert(seen@.contains(id));
            }
            if order@.contains(id) {
                assert(seen@.contains(id));
            }
        }
    }
    order
}

/// Whether an id is given up within `n` steps: it is a candidate that is not to be kept, and
/// whatever refers to it has been given up before.
pub open spec fn dead_by(
    entities: Seq<EntityView>,
    candidates: Seq<u64>,
    keep: Set<u64>,
    id: u64,
    n: nat,
) -> bool
    decreases n,
{
    &&& n > 0
    &&& candidates.contains(id)
    &&& !keep.contains(id)
    &&& forall|parent: u64| #[trigger]
        refers(entities, parent, id) ==> dead_by(
            entities,
            candidates,
            keep,
            parent,
            (n - 1) as nat,
        )
}

/// Whether an id is given up at all.
pub open spec fn dead(
    entities: Seq<EntityView>,
    candidates: Seq<u64>,
    keep: Set<u64>,
    id: u64,
) -> bool {
    exists|n: nat| dead_by(entities, candidates, keep, id, n)
}

pub proof fn lemma_dead_later(
    entities: Seq<EntityView>,
    candidates: Seq<u64>,
    keep: Set<u64>,
    id: u64,
    n: nat,
    m: nat,
)
    requires
        dead_by(entities, candidates, keep, id, n),
        n <= m,
    ensures
        dead_by(entities, candidates, keep, id, m),
    decreases n,
{
    assert forall|parent: u64| #[trigger] refers(entities, parent, id) implies dead_by(
        entities,
        candidates,
        keep,
        parent,
        (m - 1) as nat,
    ) by {
        lemma_dead_later(entities, candidates, keep, parent, (n - 1) as nat, (m - 1) as nat);
    }
}

/// The steps that suffice for all of some ids.
pub proof fn lemma_dead_bound(
    entities: Seq<EntityView>,
    candidates: Seq<u64>,
    keep: Set<u64>,
    ids: Seq<u64>,
) -> (n: nat)
    requires
        forall|i: int| 0 <= i < ids.len() ==> dead(entities, candidates, keep, #[trigger] ids[i]),
    ensures
        forall|i: int|
            0 <= i < ids.len() ==> dead_by(entities, candidates, keep, #[trigger] ids[i], n),
    decreases ids.len(),
{
    if ids.len() == 0 {
        0
    } else {
        let shorter = ids.drop_last();
        assert forall|i: int| 0 <= i < shorter.len() implies dead(
            entities,
            candidates,
            keep,
            #[trigger] shorter[i],
        ) by {
            assert(shorter[i] == ids[i]);
        }
        let a = lemma_dead_bound(entities, candidates, keep, shorter);
        assert(dead(entities, candidates, keep, ids[ids.len() - 1]));
        let b = choose|b: nat| dead_by(entities, candidates, keep, ids.last(), b);
        let n = if a >= b {
            a
        } else {
            b
        };
        assert forall|i: int| 0 <= i < ids.len() implies dead_by(
            entities,
            candidates,
            keep,
            #[trigger] ids[i],
            n,
        ) by {
            if i < shorter.len() {
                assert(shorter[i] == ids[i]);
                lemma_dead_later(entities, candidates, keep, ids[i], a, n);
            } else {
                lemma_dead_later(entities, candidates, keep, ids[i], b, n);
            }
        }
        n
    }
}

/// What is closed under giving up holds every dead id.
pub proof fn lemma_dead_within(
    entities: Seq<EntityView>,
    candidates: Seq<u64>,
    keep: Set<u64>,
    given_up: Set<u64>,
    id: u64,
    n: nat,
)
    requires
        dead_by(entities, candidates, keep, id, n),
        forall|x: u64| #[trigger]
            candidates.contains(x) && !keep.contains(x) && !given_up.contains(x) ==> exists|
                parent: u64,
            | #[trigger]
                refers(entities, parent, x) && !given_up.contains(parent),
    ensures
        given_up.contains(id),
    decreases n,
{
    if !given_up.contains(id) {
        let parent = choose|parent: u64| #[trigger]
            refers(entities, parent, id) && !given_up.contains(parent);
        lemma_dead_within(entities, candidates, keep, given_up, parent, (n - 1) as nat);
    }
}

/// An id that is given up is referred to by nothing that stays.
pub proof fn law_dead_is_unreferenced(
    entities: Seq<EntityView>,
    candidates: Seq<u64>,
    keep: Set<u64>,
    parent: u64,
    child: u64,
)
    requires
        dead(entities, candidates, keep, child),
        refers(entities, parent, child),
    ensures
        dead(entities, candidates, keep, parent),
        candidates.contains(child),
        !keep.contains(child),
{
    let n = choose|n: nat| dead_by(entities, candidates, keep, child, n);
    assert(dead_by(entities, candidates, keep, parent, (n - 1) as nat));
}

/// The candidates that can be given up.
pub fn find_dead(
    entities: &Vec<EntityInstance>,
    candidates: &Vec<u64>,
    keep: &HashSet<u64>,
) -> (out: HashSet<u64>)
    ensures
        forall|id: u64| #[trigger]
            out@.contains(id) == dead(entities_view(entities@), candidates@, keep@, id),
        out@.finite(),
        out@.subset_of(candidates@.to_set()),
{
    let ghost views = entities_view(entities@);
    let ghost all = candidates@.to_set();
    let index = build_index(entities);
    let parents = parents_table(entities, &index);
    let mut out: HashSet<u64> = HashSet::new();
    let mut changed = true;
    proof {
        vstd::seq_lib::seq_to_set_is_finite(candidates@);
    }
    while changed
        invariant
            views == entities_view(entities@),
            lists_parents(parents@, views),
            all == candidates@.to_set(),
            all.finite(),
            out@.subset_of(all),
            forall|id: u64| #[trigger]
                out@.contains(id) ==> dead(views, candidates@, keep@, id),
            !changed ==> forall|x: u64| #[trigger]
                candidates@.contains(x) && !keep@.contains(x) && !out@.contains(x) ==> exists|
                    parent: u64,
                | #[trigger]
                    refers(views, parent, x) && !out@.contains(parent),
        decreases
            all.difference(out@).len(),
            if changed {
                1int
            } else {
                0int
            },
    {
        changed = false;
        let ghost start = out@;
        let mut i: usize = 0;
        while i < candidates.len()
            invariant
                i <= candidates.len(),
                views == entities_view(entities@),
                lists_parents(parents@, views),
                all == candidates@.to_set(),
                all.finite(),
                out@.subset_of(all),
                start.subset_of(out@),
                changed ==> all.difference(out@).len() < all.difference(start).len(),
                !changed ==> out@ == start,
                forall|id: u64| #[trigger]
                    out@.contains(id) ==> dead(views, candidates@, keep@, id),
                !changed ==> forall|j: int|
                    0 <= j < i && !keep@.contains(#[trigger] candidates@[j]) && !out@.contains(
                        candidates@[j],
                    ) ==> exists|parent: u64| #[trigger]
                        refers(views, parent, candidates@[j]) && !out@.contains(parent),
            decreases candidates.len() - i,
        {
            let id: u64 = candidates[i];
            assert(candidates@.contains(id));
            if !out.contains(&id) && !keep.contains(&id) {
                let mut alone = true;
                let ghost mut holder: u64 = 0;
                if let Some(list) = parents.get(&id) {
                    let mut k: usize = 0;
                    while k < list.len()
                        invariant
                            k <= list.len(),
                            parents@.contains_key(id),
                            parents@[id] == *list,
                            lists_parents(parents@, views),
                            alone ==> forall|j: int|
                                0 <= j < k ==> out@.contains(#[trigger] list@[j]),
                            !alone ==> refers(views, holder, id) && !out@.contains(holder),
                        decreases list.len() - k,
                    {
                        if alone && !out.contains(&list[k]) {
                            alone = false;
                            proof {
                                holder = list@[k as int];
                                assert(parents@[id]@[k as int] == holder);
                            }
                        }
                        k = k + 1;
                    }
                }
                if alone {
                    proof {
                        let list = if parents@.contains_key(id) {
                            parents@[id]@
                        } else {
                            Seq::empty()
                        };
                        let n = lemma_dead_bound(views, candidates@, keep@, list);
                        assert forall|parent: u64| #[trigger] refers(views, parent, id) implies
                            dead_by(views, candidates@, keep@, parent, n) by {
                            let j = choose|j: int| 0 <= j < list.len() && list[j] == parent;
                            assert(list[j] == parent);
                        }
                        assert(dead_by(views, candidates@, keep@, id, n + 1));
                        assert(all.difference(out@.insert(id)) =~= all.difference(out@).remove(id));
                        assert(all.difference(out@).contains(id));
                    }
                    out.insert(id);
                    changed = true;
                }
            }
            i = i + 1;
        }
        proof {
            if !changed {
                assert forall|x: u64| #[trigger]
                    candidates@.contains(x) && !keep@.contains(x) && !out@.contains(x) implies exists|
                    parent: u64,
                | #[trigger] refers(views, parent, x) && !out@.contains(parent) by {
                    let j = choose|j: int| 0 <= j < candidates@.len() && candidates@[j] == x;
                    assert(candidates@[j] == x);
                }
            }
        }
    }
    proof {
        assert forall|id: u64| #[trigger]
            out@.contains(id) == dead(views, candidates@, keep@, id) by {
            if dead(views, candidates@, keep@, id) {
                let n = choose|n: nat| dead_by(views, candidates@, keep@, id, n);
                lemma_dead_within(views, candidates@, keep@, out@, id, n);
            }
        }
    }
    out
}

/// The entities without those that are given up.
pub open spec fn without(entities: Seq<EntityView>, gone: Set<u64>) -> Seq<EntityView>
    decreases entities.len(),
{
    if entities.len() == 0 {
        Seq::empty()
    } else {
        let rest = without(entities.drop_last(), gone);
        if gone.contains(entities.last().id()) {
            rest
        } else {
            rest.push(entities.last())
        }
    }
}

/// Takes entities out.
pub fn remove_entities(entities: &mut Vec<EntityInstance>, gone: &HashSet<u64>)
    ensures
        entities_view(final(entities)@) == without(entities_view(old(entities)@), gone@),
{
    let ghost views = entities_view(entities@);
    let mut kept: Vec<EntityInstance> = Vec::new();
    let mut i: usize = 0;
    assert(views.take(0) =~= Seq::empty());
    assert(entities_view(kept@) =~= Seq::empty());
    while i < entities.len()
        invariant
            i <= entities.len(),
            views == entities_view(entities@),
            *entities == *old(entities),
            entities_view(kept@) == without(views.take(i as int), gone@),
        decreases entities.len() - i,
    {
        let id: u64 = entity_id(&entities[i]);
        assert(views[i as int] == entities@[i as int]@);
        let ghost old_kept = kept@;
        if !gone.contains(&id) {
            kept.push(entities[i].clone());
            assert(entities_view(kept@) =~= entities_view(old_kept).push(kept@.last()@));
        }
        i = i + 1;
        assert(views.take(i as int).drop_last() =~= views.take(i - 1));
    }
    assert(views.take(views.len() as int) =~= views);
    *entities = kept;
}

/// The largest id; zero where there is no entity.
pub open spec fn max_id(entities: Seq<EntityView>) -> u64
    decreases entities.len(),
{
    if entities.len() == 0 {
        0
    } else {
        let rest = max_id(entities.drop_last());
        if entities.last().id() > rest {
            entities.last().id()
        } else {
            rest
        }
    }
}

/// The largest id.
pub fn largest_id(entities: &Vec<EntityInstance>) -> (out: u64)
    ensures
        out == max_id(entities_view(entities@)),
{
    let ghost views = entities_view(entities@);
    let mut out: u64 = 0;
    let mut i: usize = 0;
    assert(views.take(0) =~= Seq::empty());
    while i < entities.len()
        invariant
            i <= entities.len(),
            views == entities_view(entities@),
            out == max_id(views.take(i as int)),
        decreases entities.len() - i,
    {
        let id: u64 = entity_id(&entities[i]);
        assert(views[i as int] == entities@[i as int]@);
        if id > out {
            out = id;
        }
        i = i + 1;
        assert(views.take(i as int).drop_last() =~= views.take(i - 1));
    }
    assert(views.take(views.len() as int) =~= views);
    out
}

/// A simple entity with a parameter list.
pub open spec fn simple_entity(id: u64, name: Seq<char>, params: Seq<ParamView>) -> EntityView {
    EntityView::Simple { id, record: RecordView { name, parameter: ParamView::List(params) } }
}

/// Appends a simple entity.
pub fn push_simple(
    entities: &mut Vec<EntityInstance>,
    id: u64,
    name: &str,
    params: Vec<Parameter>,
)
    ensures
        entities_view(final(entities)@) == entities_view(old(entities)@).push(
            simple_entity(id, name@, params_view(params@)),
        ),
{
    proof {
        lemma_list_view(params);
    }
    entities.push(
        EntityInstance::Simple {
            id,
            record: Record { name: name.to_owned(), parameter: Parameter::List(params) },
        },
    );
    assert(entities_view(entities@) =~= entities_view(old(entities)@).push(
        simple_entity(id, name@, params_view(params@)),
    ));
}

/// Whether some entity with the one id refers to the other. Every entity counts.
pub open spec fn holds(entities: Seq<EntityView>, parent: u64, child: u64) -> bool {
    exists|i: int|
        0 <= i < entities.len() && (#[trigger] entities[i]).id() == parent && entity_refs(
            entities[i],
        ).contains(child)
}

/// A table of the entities that hold each entity.
pub open spec fn lists_holders(table: Map<u64, Vec<u64>>, entities: Seq<EntityView>) -> bool {
    &&& forall|child: u64, i: int|
        #![trigger table[child]@[i]]
        table.contains_key(child) && 0 <= i < table[child]@.len() ==> holds(
            entities,
            table[child]@[i],
            child,
        )
    &&& forall|parent: u64, child: u64| #[trigger]
        holds(entities, parent, child) ==> table.contains_key(child) && table[child]@.contains(
            parent,
        )
    &&& forall|child: u64| #[trigger] table.contains_key(child) ==> table[child]@.len() > 0
}

/// The entities that hold each entity.
pub fn inbound_map(entities: &Vec<EntityInstance>) -> (out: HashMap<u64, Vec<u64>>)
    ensures
        lists_holders(out@, entities_view(entities@)),
{
    let ghost views = entities_view(entities@);
    let mut out: HashMap<u64, Vec<u64>> = HashMap::new();
    let mut i: usize = 0;
    while i < entities.len()
        invariant
            i <= entities.len(),
            views == entities_view(entities@),
            forall|child: u64, j: int|
                #![trigger out@[child]@[j]]
                out@.contains_key(child) && 0 <= j < out@[child]@.len() ==> holds(
                    views,
                    out@[child]@[j],
                    child,
                ),
            forall|j: int, child: u64|
                0 <= j < i && #[trigger] entity_refs(views[j]).contains(child)
                    ==> out@.contains_key(child) && out@[child]@.contains(views[j].id()),
            forall|child: u64| #[trigger] out@.contains_key(child) ==> out@[child]@.len() > 0,
        decreases entities.len() - i,
    {
        let id: u64 = entity_id(&entities[i]);
        let mut refs: Vec<u64> = Vec::new();
        visit_entity_refs(&entities[i], &mut refs);
        assert(views[i as int] == entities@[i as int]@);
        assert(refs@ =~= entity_refs(views[i as int]));
        let mut k: usize = 0;
        while k < refs.len()
            invariant
                k <= refs.len(),
                i < entities.len(),
                views == entities_view(entities@),
                views[i as int].id() == id,
                refs@ == entity_refs(views[i as int]),
                forall|child: u64, j: int|
                    #![trigger out@[child]@[j]]
                    out@.contains_key(child) && 0 <= j < out@[child]@.len() ==> holds(
                        views,
                        out@[child]@[j],
                        child,
                    ),
                forall|j: int, child: u64|
                    0 <= j < i && #[trigger] entity_refs(views[j]).contains(child)
                        ==> out@.contains_key(child) && out@[child]@.contains(views[j].id()),
                forall|j: int|
                    0 <= j < k ==> out@.contains_key(#[trigger] refs@[j])
                        && out@[refs@[j]]@.contains(id),
                forall|child: u64| #[trigger] out@.contains_key(child) ==> out@[child]@.len() > 0,
            decreases refs.len() - k,
        {
            let child: u64 = refs[k];
            let ghost before = out@;
            assert(entity_refs(views[i as int]).contains(child));
            assert(holds(views, id, child));
            add_entry(&mut out, child, id);
            proof {
                let old_list = if before.contains_key(child) {
                    before[child]@
                } else {
                    Seq::empty()
                };
                assert(out@[child]@[old_list.len() as int] == id);
                assert forall|c: u64, p: u64|
                    before.contains_key(c) && (#[trigger] before[c]@.contains(p)) implies
                    out@.contains_key(c) && out@[c]@.contains(p) by {
                    let j = choose|j: int| 0 <= j < before[c]@.len() && before[c]@[j] == p;
                    assert(out@.dom().contains(c));
                    if c == child {
                        assert(out@[c]@[j] == p);
                    } else {
                        assert(out@[c] == before[c]);
                    }
                }
                assert forall|c: u64, j: int|
                    #![trigger out@[c]@[j]]
                    out@.contains_key(c) && 0 <= j < out@[c]@.len() implies holds(
                    views,
                    out@[c]@[j],
                    c,
                ) by {
                    assert(out@.dom().contains(c));
                    if c == child {
                        if j < old_list.len() {
                            assert(before[c]@[j] == out@[c]@[j]);
                        }
                    } else {
                        assert(before.contains_key(c));
                        assert(out@[c] == before[c]);
                        assert(before[c]@[j] == out@[c]@[j]);
                    }
                }
                assert forall|c: u64| #[trigger] out@.contains_key(c) implies out@[c]@.len() > 0 by {
                    assert(out@.dom().contains(c));
                    if c != child {
                        assert(before.contains_key(c));
                        assert(out@[c] == before[c]);
                    }
                }
                assert(out@.dom().contains(child));
            }
            k = k + 1;
        }
        assert forall|j: int, child: u64|
            0 <= j < i + 1 && #[trigger] entity_refs(views[j]).contains(child) implies
            out@.contains_key(child) && out@[child]@.contains(views[j].id()) by {
            if j == i {
                let m = choose|m: int| 0 <= m < refs@.len() && refs@[m] == child;
                assert(refs@[m] == child);
            }
        }
        i = i + 1;
    }
    out
}

/// Puts an entity in the place of another.
pub(crate) fn replace_entity(
    entities: &mut Vec<EntityInstance>,
    at: usize,
    entity: EntityInstance,
)
    requires
        at < old(entities)@.len(),
    ensures
        entities_view(final(entities)@) == entities_view(old(entities)@).update(at as int, entity@),
{
    entities.set(at, entity);
    assert(entities_view(entities@) =~= entities_view(old(entities)@).update(at as int, entity@));
}

} // verus!
