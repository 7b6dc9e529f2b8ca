//! What merging presentation roots keeps.

use vstd::prelude::*;

use crate::ast::{EntityView, ParamView};
use crate::consolidate::{
    consolidated, consolidated_upto, first_root, free_root, is_root, items_at, lemma_first_root,
    merged_into, root_items, root_key, taken_over, with_items,
};
use crate::refs::all_refs;
use crate::settled::{all_sound_entities, lemma_identity_param};
use crate::unambiguous::{
    all_sound, closes, is_sound, is_sound_entity, is_sound_record, lemma_same_param,
};
use crate::write::param_text;

verus! {

/// Whether an entity is of a type and has three parameters, of which one is a list.
pub open spec fn lists_items(entity: EntityView, name: Seq<char>, at: int) -> bool {
    &&& entity matches EntityView::Simple { record, .. }
    &&& record.name == name
    &&& record.parameter matches ParamView::List(params)
    &&& params.len() == 3
    &&& params[at] is List
}

/// A parameter of a simple entity.
pub open spec fn param_of(entity: EntityView, n: int) -> ParamView {
    entity->record.parameter->List_0[n]
}

/// The items in a parameter of a simple entity.
pub open spec fn items_in(entity: EntityView, at: int) -> Seq<ParamView> {
    param_of(entity, at)->List_0
}

/// Whether two entities are of one type with items in one place, and all their other parameters
/// are written the same way.
pub open spec fn differ_in_items(a: EntityView, b: EntityView, name: Seq<char>, at: int) -> bool {
    &&& lists_items(a, name, at)
    &&& lists_items(b, name, at)
    &&& forall|n: int|
        0 <= n < 3 && n != at ==> #[trigger] param_text(param_of(a, n)) == param_text(
            param_of(b, n),
        )
}

/// Whether two entities are presentation representations of one name and context, or assignments
/// of one layer name and description.
pub open spec fn present_alike(a: EntityView, b: EntityView) -> bool {
    ||| differ_in_items(a, b, "MECHANICAL_DESIGN_GEOMETRIC_PRESENTATION_REPRESENTATION"@, 1)
    ||| differ_in_items(a, b, "PRESENTATION_LAYER_ASSIGNMENT"@, 2)
}

/// The items of a presentation representation or of a layer.
pub open spec fn presented_items(entity: EntityView) -> Seq<ParamView> {
    if entity->record.name == "PRESENTATION_LAYER_ASSIGNMENT"@ {
        items_in(entity, 2)
    } else {
        items_in(entity, 1)
    }
}

/// Whether items stand one after the other in a longer list.
pub open spec fn stand_in(part: Seq<ParamView>, whole: Seq<ParamView>) -> bool {
    exists|from: int|
        0 <= from <= whole.len() - part.len() && #[trigger] whole.subrange(
            from,
            from + part.len(),
        ) == part
}

proof fn lemma_root_names()
    ensures
        "MECHANICAL_DESIGN_GEOMETRIC_PRESENTATION_REPRESENTATION"@
            != "PRESENTATION_LAYER_ASSIGNMENT"@,
{
    reveal_strlit("MECHANICAL_DESIGN_GEOMETRIC_PRESENTATION_REPRESENTATION");
    reveal_strlit("PRESENTATION_LAYER_ASSIGNMENT");
    assert("MECHANICAL_DESIGN_GEOMETRIC_PRESENTATION_REPRESENTATION"@.len() == 55);
    assert("PRESENTATION_LAYER_ASSIGNMENT"@.len() == 29);
}

/// Parameters with one text are told apart from what follows them.
proof fn lemma_split(a: ParamView, r: Seq<char>, b: ParamView, s: Seq<char>)
    requires
        is_sound(a),
        is_sound(b),
        closes(r),
        closes(s),
        param_text(a) + r == param_text(b) + s,
    ensures
        param_text(a) == param_text(b),
        r == s,
{
    let f = |id: u64| id;
    let ids = Set::new(|id: u64| true);
    lemma_identity_param(a, f);
    lemma_identity_param(b, f);
    lemma_same_param(a, r, b, s, f, ids);
}

proof fn lemma_three_sound(items: Seq<ParamView>)
    requires
        items.len() == 3,
        all_sound(items),
    ensures
        is_sound(items[0]),
        is_sound(items[1]),
        is_sound(items[2]),
{
    reveal_with_fuel(all_sound, 4);
    assert(items.drop_last()[0] == items[0]);
    assert(items.drop_last()[1] == items[1]);
    assert(items.drop_last().drop_last()[0] == items[0]);
    assert(items.drop_first()[0] == items[1]);
    assert(items.drop_first().drop_first()[0] == items[2]);
}

/// Roots with one key present alike.
proof fn lemma_key_tells(a: EntityView, b: EntityView)
    requires
        is_root(a),
        is_root(b),
        is_sound_entity(a),
        is_sound_entity(b),
        root_key(a) == root_key(b),
    ensures
        present_alike(a, b),
{
    lemma_root_names();
    reveal_strlit("MDGPR|");
    reveal_strlit("PLA|");
    assert("MDGPR|"@.len() == 6 && "MDGPR|"@[0] == 'M');
    assert("PLA|"@.len() == 4 && "PLA|"@[0] == 'P');
    assert(a.records()[0] == a->record);
    assert(b.records()[0] == b->record);
    assert(is_sound_record(a.records()[0]));
    assert(is_sound_record(b.records()[0]));
    let p = a->record.parameter->List_0;
    let q = b->record.parameter->List_0;
    lemma_three_sound(p);
    lemma_three_sound(q);
    let ka = root_key(a);
    let kb = root_key(b);
    let bar = seq!['|'];
    if items_at(a->record.name) == Some(1int) {
        assert(ka[0] == 'M');
        assert(items_at(b->record.name) == Some(1int)) by {
            if items_at(b->record.name) != Some(1int) {
                assert(kb[0] == 'P');
            }
        }
        assert(ka.skip(6) =~= param_text(p[0]) + (bar + param_text(p[2])));
        assert(kb.skip(6) =~= param_text(q[0]) + (bar + param_text(q[2])));
        lemma_split(p[0], bar + param_text(p[2]), q[0], bar + param_text(q[2]));
        assert((bar + param_text(p[2])).skip(1) =~= param_text(p[2]));
        assert((bar + param_text(q[2])).skip(1) =~= param_text(q[2]));
        let name = "MECHANICAL_DESIGN_GEOMETRIC_PRESENTATION_REPRESENTATION"@;
        assert(differ_in_items(a, b, name, 1));
    } else {
        assert(ka[0] == 'P');
        assert(items_at(b->record.name) == Some(2int)) by {
            if items_at(b->record.name) != Some(2int) {
                assert(kb[0] == 'M');
            }
        }
        assert(ka.skip(4) =~= param_text(p[0]) + (bar + param_text(p[1])));
        assert(kb.skip(4) =~= param_text(q[0]) + (bar + param_text(q[1])));
        lemma_split(p[0], bar + param_text(p[1]), q[0], bar + param_text(q[1]));
        assert((bar + param_text(p[1])).skip(1) =~= param_text(p[1]));
        assert((bar + param_text(q[1])).skip(1) =~= param_text(q[1]));
        assert(differ_in_items(a, b, "PRESENTATION_LAYER_ASSIGNMENT"@, 2));
    }
}

/// A root with more items.
proof fn lemma_longer(a: EntityView, items: Seq<ParamView>)
    requires
        is_root(a),
    ensures
        present_alike(a, with_items(a, items)),
        presented_items(with_items(a, items)) == presented_items(a) + items,
        presented_items(a) == root_items(a),
        with_items(a, items).id() == a.id(),
{
    lemma_root_names();
    let b = with_items(a, items);
    let at = items_at(a->record.name)->Some_0;
    assert(differ_in_items(a, b, a->record.name, at));
}

proof fn lemma_alike_joins(a: EntityView, b: EntityView, c: EntityView)
    requires
        present_alike(a, b),
        present_alike(b, c),
    ensures
        present_alike(a, c),
        present_alike(b, a),
{
    lemma_root_names();
    let name = a->record.name;
    let at: int = if name == "PRESENTATION_LAYER_ASSIGNMENT"@ {
        2
    } else {
        1
    };
    assert(differ_in_items(a, b, name, at));
    assert(differ_in_items(b, c, name, at));
    assert forall|n: int| 0 <= n < 3 && n != at implies #[trigger] param_text(param_of(a, n))
        == param_text(param_of(c, n)) by {
        assert(param_text(param_of(a, n)) == param_text(param_of(b, n)));
        assert(param_text(param_of(b, n)) == param_text(param_of(c, n)));
    }
    assert forall|n: int| 0 <= n < 3 && n != at implies #[trigger] param_text(param_of(b, n))
        == param_text(param_of(a, n)) by {
        assert(param_text(param_of(a, n)) == param_text(param_of(b, n)));
    }
    assert(differ_in_items(a, c, name, at));
    assert(differ_in_items(b, a, name, at));
}

/// The first root with a key is merged into none.
proof fn lemma_first_stays(entities: Seq<EntityView>, key: Seq<char>, n: nat)
    ensures
        first_root(entities, key, n) matches Some(i) ==> first_root(entities, key, i as nat) is None,
    decreases n,
{
    if n > 0 {
        lemma_first_stays(entities, key, (n - 1) as nat);
    }
}

/// What entity `i` becomes where it stays.
spec fn becomes(entities: Seq<EntityView>, i: int) -> EntityView {
    if free_root(entities, i) {
        with_items(entities[i], taken_over(entities, i, entities.len()))
    } else {
        entities[i]
    }
}

proof fn lemma_stays(entities: Seq<EntityView>, i: int, n: nat)
    requires
        0 <= i < n <= entities.len(),
        merged_into(entities, i) is None,
    ensures
        consolidated_upto(entities, n).contains(becomes(entities, i)),
    decreases n,
{
    let all = consolidated_upto(entities, n);
    let rest = consolidated_upto(entities, (n - 1) as nat);
    if i < n - 1 {
        lemma_stays(entities, i, (n - 1) as nat);
        let k = choose|k: int| 0 <= k < rest.len() && rest[k] == becomes(entities, i);
        assert(all[k] == becomes(entities, i));
    } else {
        assert(all[rest.len() as int] == becomes(entities, i));
    }
}

proof fn lemma_came_from(entities: Seq<EntityView>, n: nat, j: int)
    requires
        n <= entities.len(),
        0 <= j < consolidated_upto(entities, n).len(),
    ensures
        exists|i: int|
            0 <= i < n && merged_into(entities, i) is None && consolidated_upto(entities, n)[j]
                == #[trigger] becomes(entities, i),
    decreases n,
{
    if n > 0 {
        let all = consolidated_upto(entities, n);
        let rest = consolidated_upto(entities, (n - 1) as nat);
        if j < rest.len() {
            lemma_came_from(entities, (n - 1) as nat, j);
            assert(all[j] == rest[j]);
        } else {
            assert(all[j] == becomes(entities, n - 1));
        }
    }
}

proof fn lemma_taken_stand(entities: Seq<EntityView>, i: int, k: int, n: nat)
    requires
        0 <= k < n <= entities.len(),
        merged_into(entities, k) == Some(i),
    ensures
        stand_in(root_items(entities[k]), taken_over(entities, i, n)),
    decreases n,
{
    let part = root_items(entities[k]);
    let rest = taken_over(entities, i, (n - 1) as nat);
    let all = taken_over(entities, i, n);
    if k == n - 1 {
        assert(all.subrange(rest.len() as int, rest.len() as int + part.len()) =~= part);
    } else {
        lemma_taken_stand(entities, i, k, (n - 1) as nat);
        let from = choose|from: int|
            0 <= from <= rest.len() - part.len() && #[trigger] rest.subrange(
                from,
                from + part.len(),
            ) == part;
        assert(all.subrange(from, from + part.len()) =~= rest.subrange(from, from + part.len()));
    }
}

proof fn lemma_taken_from(entities: Seq<EntityView>, i: int, n: nat, item: ParamView)
    requires
        n <= entities.len(),
        taken_over(entities, i, n).contains(item),
    ensures
        exists|k: int|
            0 <= k < n && merged_into(entities, k) == Some(i) && #[trigger] root_items(
                entities[k],
            ).contains(item),
    decreases n,
{
    if n > 0 {
        let rest = taken_over(entities, i, (n - 1) as nat);
        let all = taken_over(entities, i, n);
        let x = choose|x: int| 0 <= x < all.len() && all[x] == item;
        if x < rest.len() {
            assert(rest[x] == item);
            lemma_taken_from(entities, i, (n - 1) as nat, item);
        } else {
            assert(merged_into(entities, n - 1) == Some(i));
            assert(root_items(entities[n - 1])[x - rest.len()] == item);
            assert(root_items(entities[n - 1]).contains(item));
        }
    }
}

/// Whether an entity is a presentation root that nothing refers to.
pub open spec fn may_merge(entities: Seq<EntityView>, entity: EntityView) -> bool {
    &&& !all_refs(entities).contains(entity.id())
    &&& {
        ||| lists_items(entity, "MECHANICAL_DESIGN_GEOMETRIC_PRESENTATION_REPRESENTATION"@, 1)
        ||| lists_items(entity, "PRESENTATION_LAYER_ASSIGNMENT"@, 2)
    }
}

/// Merging presentation roots loses nothing: an entity that is no presentation root, or is
/// referred to, is left as it is; and the items of a root are left, one behind the other, in a
/// root of the same type all of whose other parameters are written as those of the first one.
pub proof fn law_roots_keep_their_items(entities: Seq<EntityView>, i: int)
    requires
        all_sound_entities(entities),
        0 <= i < entities.len(),
    ensures
        !may_merge(entities, entities[i]) ==> consolidated(entities).contains(entities[i]),
        may_merge(entities, entities[i]) ==> exists|j: int|
            0 <= j < consolidated(entities).len() && present_alike(
                entities[i],
                #[trigger] consolidated(entities)[j],
            ) && stand_in(presented_items(entities[i]), presented_items(consolidated(entities)[j])),
{
    lemma_root_names();
    let all = consolidated(entities);
    assert(free_root(entities, i) == may_merge(entities, entities[i]));
    if !free_root(entities, i) {
        lemma_stays(entities, i, entities.len());
    } else {
        let key = root_key(entities[i]);
        lemma_first_root(entities, key, i as nat);
        lemma_first_stays(entities, key, i as nat);
        let to = match merged_into(entities, i) {
            Some(to) => to,
            None => i,
        };
        assert(merged_into(entities, to) is None);
        lemma_stays(entities, to, entities.len());
        let j = choose|j: int| 0 <= j < all.len() && all[j] == becomes(entities, to);
        let more = taken_over(entities, to, entities.len());
        lemma_key_tells(entities[i], entities[to]);
        lemma_longer(entities[i], more);
        lemma_longer(entities[to], more);
        lemma_alike_joins(entities[i], entities[to], all[j]);
        let own = root_items(entities[to]);
        let part = presented_items(entities[i]);
        let whole = presented_items(all[j]);
        if to == i {
            assert(whole.subrange(0, 0int + part.len()) =~= part);
        } else {
            lemma_taken_stand(entities, to, i, entities.len());
            let from = choose|from: int|
                0 <= from <= more.len() - part.len() && #[trigger] more.subrange(
                    from,
                    from + part.len(),
                ) == part;
            let at = own.len() + from;
            assert(whole.subrange(at, at + part.len()) =~= more.subrange(
                from,
                from + part.len(),
            ));
        }
        assert(stand_in(part, whole));
    }
}

/// Merging presentation roots adds nothing: what is left is an entity that there was, but for
/// the items of a root; and each item of a root comes from a root of the same type all of whose
/// other parameters are written as its own.
pub proof fn law_roots_hold_no_other_items(entities: Seq<EntityView>, j: int, item: ParamView)
    requires
        all_sound_entities(entities),
        0 <= j < consolidated(entities).len(),
    ensures
        exists|i: int|
            {
                let left = consolidated(entities)[j];
                let was = #[trigger] entities[i];
                &&& 0 <= i < entities.len()
                &&& left.id() == was.id()
                &&& left == was || (present_alike(was, left) && may_merge(entities, was) && (
                presented_items(left).contains(item) ==> exists|k: int|
                    0 <= k < entities.len() && may_merge(entities, entities[k]) && present_alike(
                        #[trigger] entities[k],
                        left,
                    ) && presented_items(entities[k]).contains(item)))
            },
{
    lemma_root_names();
    let all = consolidated(entities);
    lemma_came_from(entities, entities.len(), j);
    let i = choose|i: int|
        0 <= i < entities.len() && merged_into(entities, i) is None && all[j] == #[trigger] becomes(
            entities,
            i,
        );
    let was = entities[i];
    if free_root(entities, i) {
        let more = taken_over(entities, i, entities.len());
        lemma_longer(was, more);
        if presented_items(all[j]).contains(item) {
            let own = root_items(was);
            let x = choose|x: int| 0 <= x < (own + more).len() && (own + more)[x] == item;
            if x < own.len() {
                assert(own[x] == item);
            } else {
                assert(more[x - own.len()] == item);
                lemma_taken_from(entities, i, entities.len(), item);
                let k = choose|k: int|
                    0 <= k < entities.len() && merged_into(entities, k) == Some(i)
                        && #[trigger] root_items(entities[k]).contains(item);
                lemma_first_root(entities, root_key(entities[k]), k as nat);
                lemma_key_tells(entities[k], was);
                lemma_longer(entities[k], more);
                lemma_alike_joins(entities[k], was, all[j]);
                assert(may_merge(entities, entities[k]));
                assert(present_alike(entities[k], all[j]));
            }
        }
    }
}

} // verus!
