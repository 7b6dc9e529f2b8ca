//! Which solids were cut apart along plane faces and become one again.

use std::collections::{HashMap, HashSet};
use vstd::prelude::*;

use crate::ast::{entities_view, entity_id, EntityInstance, EntityView};
use crate::components::{all_components, find_components, lists_view};
use crate::face_plan::{
    face_styles, lemma_styles_at, listed, same_ids, styled, styled_assignments, styles_by_target,
};
use crate::graph::{
    add_entry, find_typed, indexes, lemma_position, nth_entity_ref_list, nth_ref_list, refs_of,
    simple_record, typed_record,
};
use crate::refs::{entity_refs, visit_entity_refs};
use crate::sets::{leads, list_contains, set_of, table_step, targets};
use crate::scan::{contains_text, occurs};
use crate::text::{same_text, text_chars};

verus! {

broadcast use vstd::std_specs::hash::group_hash_axioms;

/// What was measured of faces, edges and vertices. Faces of one class lie on one plane and have
/// the same outline; those of an opposed class point away from each other. Edges of one class
/// have the same course, and vertices of one class lie at one point.
pub struct WeldEvidence {
    pub face_class: HashMap<u64, u64>,
    pub opposed: HashSet<u64>,
    pub edge_class: HashMap<u64, u64>,
    pub point_class: HashMap<u64, u64>,
}

/// Two faces of two solids that lie on each other.
#[derive(Debug, Clone, Copy, PartialEq, Eq, Structural)]
pub struct Interface {
    pub a_solid: u64,
    pub b_solid: u64,
    pub a_face: u64,
    pub b_face: u64,
}

/// Solids that become one.
#[derive(Debug)]
pub struct ComponentPlan {
    pub solids: Vec<u64>,
    pub interfaces: Vec<Interface>,
    pub retained_faces: Vec<u64>,
    pub rep: u64,
    pub style_assignment: Vec<u64>,
    pub old_styles: Vec<u64>,
}

#[verifier::ext_equal]
pub struct WeldView {
    pub solids: Seq<u64>,
    pub interfaces: Seq<Interface>,
    pub retained_faces: Seq<u64>,
    pub rep: u64,
    pub style_assignment: Seq<u64>,
    pub old_styles: Seq<u64>,
}

impl View for ComponentPlan {
    type V = WeldView;

    open spec fn view(&self) -> WeldView {
        WeldView {
            solids: self.solids@,
            interfaces: self.interfaces@,
            retained_faces: self.retained_faces@,
            rep: self.rep,
            style_assignment: self.style_assignment@,
            old_styles: self.old_styles@,
        }
    }
}

pub open spec fn welds_view(plans: Seq<ComponentPlan>) -> Seq<WeldView> {
    Seq::new(plans.len(), |i: int| plans[i]@)
}

/// The ids of a list that belong to simple entities of a type.
pub open spec fn of_type(entities: Seq<EntityView>, ids: Seq<u64>, name: Seq<char>) -> Seq<u64>
    decreases ids.len(),
{
    if ids.len() == 0 {
        Seq::empty()
    } else {
        let rest = of_type(entities, ids.drop_last(), name);
        if typed_record(entities, ids.last(), name) is Some {
            rest.push(ids.last())
        } else {
            rest
        }
    }
}

/// The ids of a list that belong to simple entities of a type.
pub fn ids_of_type(
    ids: &Vec<u64>,
    entities: &Vec<EntityInstance>,
    index: &HashMap<u64, usize>,
    name: &str,
) -> (out: Vec<u64>)
    requires
        indexes(index@, entities_view(entities@)),
    ensures
        out@ == of_type(entities_view(entities@), ids@, name@),
{
    let ghost views = entities_view(entities@);
    let mut out: Vec<u64> = Vec::new();
    let mut i: usize = 0;
    assert(ids@.take(0) =~= Seq::empty());
    while i < ids.len()
        invariant
            i <= ids.len(),
            views == entities_view(entities@),
            indexes(index@, views),
            out@ == of_type(views, ids@.take(i as int), name@),
        decreases ids.len() - i,
    {
        if find_typed(entities, index, ids[i], name).is_some() {
            out.push(ids[i]);
        }
        i = i + 1;
        assert(ids@.take(i as int).drop_last() =~= ids@.take(i - 1));
    }
    assert(ids@.take(ids@.len() as int) =~= ids@);
    out
}

/// The simple entities of a type that an entity refers to.
pub fn direct_refs_of_type(
    entity: &EntityInstance,
    entities: &Vec<EntityInstance>,
    index: &HashMap<u64, usize>,
    name: &str,
) -> (out: Vec<u64>)
    requires
        indexes(index@, entities_view(entities@)),
    ensures
        out@ == of_type(entities_view(entities@), entity_refs(entity@), name@),
{
    let mut ids: Vec<u64> = Vec::new();
    visit_entity_refs(entity, &mut ids);
    assert(ids@ =~= entity_refs(entity@));
    ids_of_type(&ids, entities, index, name)
}

/// The shell of an entity that is a solid with one closed shell.
pub open spec fn own_shell(entities: Seq<EntityView>, entity: EntityView) -> Option<u64> {
    let shells = of_type(entities, entity_refs(entity), "CLOSED_SHELL"@);
    match simple_record(entity) {
        Some(record) if record.name == "MANIFOLD_SOLID_BREP"@ && shells.len() == 1 => Some(
            shells[0],
        ),
        _ => None,
    }
}

/// The shells of the solids among the first `n` entities.
pub open spec fn shells(entities: Seq<EntityView>, n: nat) -> Map<u64, u64>
    decreases n,
{
    if n == 0 {
        Map::empty()
    } else {
        let rest = shells(entities, (n - 1) as nat);
        match own_shell(entities, entities[n - 1]) {
            Some(shell) => rest.insert(entities[n - 1].id(), shell),
            None => rest,
        }
    }
}

/// The solids among the first `n` entities, each where it is first met.
pub open spec fn solids(entities: Seq<EntityView>, n: nat) -> Seq<u64>
    decreases n,
{
    if n == 0 {
        Seq::empty()
    } else {
        let rest = solids(entities, (n - 1) as nat);
        if own_shell(entities, entities[n - 1]) is Some && !rest.contains(entities[n - 1].id()) {
            rest.push(entities[n - 1].id())
        } else {
            rest
        }
    }
}

pub open spec fn shell_map(entities: Seq<EntityView>) -> Map<u64, u64> {
    shells(entities, entities.len())
}

pub open spec fn all_solids(entities: Seq<EntityView>) -> Seq<u64> {
    solids(entities, entities.len())
}

/// The faces of a solid.
pub open spec fn solid_faces(entities: Seq<EntityView>, solid: u64) -> Seq<u64> {
    of_type(entities, refs_of(entities, shell_map(entities)[solid]), "ADVANCED_FACE"@)
}

/// The faces of a list that no styled item is applied to and that were measured, with the solid.
pub open spec fn bare_faces(
    entities: Seq<EntityView>,
    class: Map<u64, u64>,
    solid: u64,
    faces: Seq<u64>,
) -> Seq<(u64, u64)>
    decreases faces.len(),
{
    if faces.len() == 0 {
        Seq::empty()
    } else {
        let rest = bare_faces(entities, class, solid, faces.drop_last());
        if face_styles(entities, faces.last()).len() == 0 && class.contains_key(faces.last()) {
            rest.push((solid, faces.last()))
        } else {
            rest
        }
    }
}

/// The faces of solids that may lie on each other.
pub open spec fn candidates(
    entities: Seq<EntityView>,
    class: Map<u64, u64>,
    of: Seq<u64>,
) -> Seq<(u64, u64)>
    decreases of.len(),
{
    if of.len() == 0 {
        Seq::empty()
    } else {
        candidates(entities, class, of.drop_last()) + bare_faces(
            entities,
            class,
            of.last(),
            solid_faces(entities, of.last()),
        )
    }
}

/// The places of the faces of a class among the first `n`.
pub open spec fn places(class: Map<u64, u64>, faces: Seq<(u64, u64)>, of: u64, n: nat) -> Seq<u64>
    decreases n,
{
    if n == 0 {
        Seq::empty()
    } else {
        let rest = places(class, faces, of, (n - 1) as nat);
        if class[faces[n - 1].1] == of {
            rest.push((n - 1) as u64)
        } else {
            rest
        }
    }
}

/// The pair that a face is the first of. A class with another number of faces has no pair.
pub open spec fn pair_at(
    class: Map<u64, u64>,
    opposed: Set<u64>,
    faces: Seq<(u64, u64)>,
    i: int,
) -> Option<Interface> {
    let of = class[faces[i].1];
    let at = places(class, faces, of, faces.len());
    if at.len() == 2 && at[0] == i && faces[i].0 != faces[at[1] as int].0 && opposed.contains(of) {
        Some(
            Interface {
                a_solid: faces[i].0,
                b_solid: faces[at[1] as int].0,
                a_face: faces[i].1,
                b_face: faces[at[1] as int].1,
            },
        )
    } else {
        None
    }
}

pub open spec fn pairs(
    class: Map<u64, u64>,
    opposed: Set<u64>,
    faces: Seq<(u64, u64)>,
    n: nat,
) -> Seq<Interface>
    decreases n,
{
    if n == 0 {
        Seq::empty()
    } else {
        let rest = pairs(class, opposed, faces, (n - 1) as nat);
        match pair_at(class, opposed, faces, n - 1) {
            Some(pair) => rest.push(pair),
            None => rest,
        }
    }
}

/// All pairs of faces that lie on each other.
pub open spec fn interfaces(
    entities: Seq<EntityView>,
    class: Map<u64, u64>,
    opposed: Set<u64>,
) -> Seq<Interface> {
    let faces = candidates(entities, class, all_solids(entities));
    pairs(class, opposed, faces, faces.len())
}

/// Whether two solids touch each other at one of the pairs.
pub open spec fn touching(pairs: Seq<Interface>) -> spec_fn(u64, u64) -> bool {
    |x: u64, y: u64|
        exists|k: int|
            0 <= k < pairs.len() && ((#[trigger] pairs[k]).a_solid == x && pairs[k].b_solid == y
                || pairs[k].a_solid == y && pairs[k].b_solid == x)
}

/// The solids of pairs.
pub open spec fn pair_solids(pairs: Seq<Interface>) -> Seq<u64>
    decreases pairs.len(),
{
    if pairs.len() == 0 {
        Seq::empty()
    } else {
        pair_solids(pairs.drop_last()).push(pairs.last().a_solid).push(pairs.last().b_solid)
    }
}

/// The pairs between solids of a part.
pub open spec fn pairs_within(pairs: Seq<Interface>, part: Seq<u64>) -> Seq<Interface>
    decreases pairs.len(),
{
    if pairs.len() == 0 {
        Seq::empty()
    } else {
        let rest = pairs_within(pairs.drop_last(), part);
        if part.contains(pairs.last().a_solid) && part.contains(pairs.last().b_solid) {
            rest.push(pairs.last())
        } else {
            rest
        }
    }
}

/// The styled item of a target and the styles that it assigns, where there is one alone.
pub open spec fn sole_style(entities: Seq<EntityView>, target: u64) -> Option<(u64, Seq<u64>)> {
    let at = face_styles(entities, target);
    if at.len() == 1 {
        Some((entities[at[0] as int].id(), styled(entities[at[0] as int])->Some_0.1))
    } else {
        None
    }
}

/// The styled items of the first `n` solids and the styles that all of them assign; nothing
/// where they differ.
pub open spec fn shared_style(entities: Seq<EntityView>, part: Seq<u64>, n: nat) -> Option<
    (Seq<u64>, Seq<u64>),
>
    decreases n,
{
    if n == 0 {
        None
    } else {
        match sole_style(entities, part[n - 1]) {
            None => None,
            Some((id, styles)) => if n == 1 {
                Some((seq![id], styles))
            } else {
                match shared_style(entities, part, (n - 1) as nat) {
                    Some((ids, shared)) if shared == styles => Some((ids.push(id), shared)),
                    _ => None,
                }
            },
        }
    }
}

/// The items of a shape representation.
pub open spec fn shape_items(entity: EntityView) -> Option<Seq<u64>> {
    match simple_record(entity) {
        Some(record) if occurs(record.name, "SHAPE_REPRESENTATION"@) => nth_ref_list(record, 1),
        _ => None,
    }
}

/// The items of the shape representation with an id among the first `n` entities.
pub open spec fn items_of(entities: Seq<EntityView>, rep: u64, n: nat) -> Option<Seq<u64>>
    decreases n,
{
    if n == 0 {
        None
    } else if entities[n - 1].id() == rep && shape_items(entities[n - 1]) is Some {
        shape_items(entities[n - 1])
    } else {
        items_of(entities, rep, (n - 1) as nat)
    }
}

pub open spec fn holds_all(items: Seq<u64>, part: Seq<u64>) -> bool {
    forall|i: int| 0 <= i < part.len() ==> items.contains(#[trigger] part[i])
}

/// Whether a shape representation holds all solids of a part.
pub open spec fn is_owner(entities: Seq<EntityView>, part: Seq<u64>, rep: u64) -> bool {
    items_of(entities, rep, entities.len()) matches Some(items) && holds_all(items, part)
}

/// The shape representations that hold all solids of a part, each where it is first met among
/// the first `n` entities.
pub open spec fn owners(entities: Seq<EntityView>, part: Seq<u64>, n: nat) -> Seq<u64>
    decreases n,
{
    if n == 0 {
        Seq::empty()
    } else {
        let rest = owners(entities, part, (n - 1) as nat);
        let id = entities[n - 1].id();
        if is_owner(entities, part, id) && !rest.contains(id) {
            rest.push(id)
        } else {
            rest
        }
    }
}

/// The faces at pairs.
pub open spec fn pair_faces(pairs: Seq<Interface>) -> Seq<u64>
    decreases pairs.len(),
{
    if pairs.len() == 0 {
        Seq::empty()
    } else {
        pair_faces(pairs.drop_last()).push(pairs.last().a_face).push(pairs.last().b_face)
    }
}

/// Appends the ids of a list that are not to be dropped and not there yet.
pub open spec fn and_new(before: Seq<u64>, more: Seq<u64>, drop: Seq<u64>) -> Seq<u64>
    decreases more.len(),
{
    if more.len() == 0 {
        before
    } else {
        let rest = and_new(before, more.drop_last(), drop);
        if drop.contains(more.last()) || rest.contains(more.last()) {
            rest
        } else {
            rest.push(more.last())
        }
    }
}

/// The faces of solids that stay.
pub open spec fn retained(entities: Seq<EntityView>, part: Seq<u64>, drop: Seq<u64>) -> Seq<u64>
    decreases part.len(),
{
    if part.len() == 0 {
        Seq::empty()
    } else {
        and_new(
            retained(entities, part.drop_last(), drop),
            solid_faces(entities, part.last()),
            drop,
        )
    }
}

/// How the solids of a part become one. They must look the same, belong to one shape
/// representation alone, and keep a face.
pub open spec fn weld_plan(
    entities: Seq<EntityView>,
    pairs: Seq<Interface>,
    part: Seq<u64>,
) -> Option<WeldView> {
    let own = pairs_within(pairs, part);
    let reps = owners(entities, part, entities.len());
    let kept = retained(entities, part, pair_faces(own));
    match shared_style(entities, part, part.len()) {
        Some((ids, styles)) if reps.len() == 1 && kept.len() > 0 => Some(
            WeldView {
                solids: part,
                interfaces: own,
                retained_faces: kept,
                rep: reps[0],
                style_assignment: styles,
                old_styles: ids,
            },
        ),
        _ => None,
    }
}

/// The plans for the first `n` parts.
pub open spec fn weld_plans(
    entities: Seq<EntityView>,
    pairs: Seq<Interface>,
    parts: Seq<Seq<u64>>,
    n: nat,
) -> Seq<WeldView>
    decreases n,
{
    if n == 0 {
        Seq::empty()
    } else {
        let rest = weld_plans(entities, pairs, parts, (n - 1) as nat);
        match weld_plan(entities, pairs, parts[n - 1]) {
            Some(plan) => rest.push(plan),
            None => rest,
        }
    }
}

/// Whether these are the plans for all solids that touch each other.
pub open spec fn are_weld_plans(
    entities: Seq<EntityView>,
    class: Map<u64, u64>,
    opposed: Set<u64>,
    plans: Seq<WeldView>,
) -> bool {
    let pairs = interfaces(entities, class, opposed);
    exists|parts: Seq<Seq<u64>>| #[trigger]
        all_components(touching(pairs), pair_solids(pairs), parts) && plans == weld_plans(
            entities,
            pairs,
            parts,
            parts.len(),
        )
}

/// The shell of an entity that is a solid with one closed shell.
fn find_own_shell(
    entity: &EntityInstance,
    entities: &Vec<EntityInstance>,
    index: &HashMap<u64, usize>,
) -> (out: Option<u64>)
    requires
        indexes(index@, entities_view(entities@)),
    ensures
        out == own_shell(entities_view(entities@), entity@),
{
    match entity {
        EntityInstance::Complex { .. } => None,
        EntityInstance::Simple { record, .. } => {
            if !same_text(record.name.as_str(), "MANIFOLD_SOLID_BREP") {
                return None;
            }
            let shells = direct_refs_of_type(entity, entities, index, "CLOSED_SHELL");
            if shells.len() == 1 {
                Some(shells[0])
            } else {
                None
            }
        },
    }
}

/// The solids with one closed shell, and their shells.
fn find_solids(entities: &Vec<EntityInstance>, index: &HashMap<u64, usize>) -> (out: (
    Vec<u64>,
    HashMap<u64, u64>,
))
    requires
        indexes(index@, entities_view(entities@)),
    ensures
        out.0@ == all_solids(entities_view(entities@)),
        out.1@ == shell_map(entities_view(entities@)),
        forall|i: int| 0 <= i < out.0@.len() ==> out.1@.contains_key(#[trigger] out.0@[i]),
{
    let ghost views = entities_view(entities@);
    let mut order: Vec<u64> = Vec::new();
    let mut map: HashMap<u64, u64> = HashMap::new();
    let mut i: usize = 0;
    assert(map@ =~= shells(views, 0));
    while i < entities.len()
        invariant
            i <= entities.len(),
            views == entities_view(entities@),
            indexes(index@, views),
            order@ == solids(views, i as nat),
            map@ == shells(views, i as nat),
            forall|id: u64| #[trigger] map@.contains_key(id) == order@.contains(id),
        decreases entities.len() - i,
    {
        let ghost before = order@;
        assert(views[i as int] == entities@[i as int]@);
        if let Some(shell) = find_own_shell(&entities[i], entities, index) {
            let id: u64 = entity_id(&entities[i]);
            let ghost known = map@;
            if !map.contains_key(&id) {
                order.push(id);
                assert(order@[before.len() as int] == id);
            }
            map.insert(id, shell);
            assert forall|x: u64| #[trigger] map@.contains_key(x) == order@.contains(x) by {
                assert(known.contains_key(x) == before.contains(x));
                if before.contains(x) {
                    let k = choose|k: int| 0 <= k < before.len() && before[k] == x;
                    assert(order@[k] == x);
                }
                if order@.contains(x) && x != id {
                    let k = choose|k: int| 0 <= k < order@.len() && order@[k] == x;
                    assert(before[k] == x);
                }
            }
        }
        i = i + 1;
    }
    assert forall|k: int| 0 <= k < order@.len() implies map@.contains_key(#[trigger] order@[k]) by {
        assert(order@.contains(order@[k]));
    }
    (order, map)
}

/// The faces of a solid.
fn find_solid_faces(
    entities: &Vec<EntityInstance>,
    index: &HashMap<u64, usize>,
    shell: u64,
) -> (out: Vec<u64>)
    requires
        indexes(index@, entities_view(entities@)),
    ensures
        out@ == of_type(
            entities_view(entities@),
            refs_of(entities_view(entities@), shell),
            "ADVANCED_FACE"@,
        ),
{
    proof {
        lemma_position(entities_view(entities@), shell);
    }
    match index.get(&shell) {
        Some(at) => {
            assert(entities_view(entities@)[*at as int] == entities@[*at as int]@);
            direct_refs_of_type(&entities[*at], entities, index, "ADVANCED_FACE")
        },
        None => Vec::new(),
    }
}

proof fn lemma_candidates_known(entities: Seq<EntityView>, class: Map<u64, u64>, of: Seq<u64>)
    ensures
        forall|i: int|
            0 <= i < candidates(entities, class, of).len() ==> class.contains_key(
                (#[trigger] candidates(entities, class, of)[i]).1,
            ),
    decreases of.len(),
{
    if of.len() > 0 {
        lemma_candidates_known(entities, class, of.drop_last());
        lemma_bare_known(entities, class, of.last(), solid_faces(entities, of.last()));
        let rest = candidates(entities, class, of.drop_last());
        let more = bare_faces(entities, class, of.last(), solid_faces(entities, of.last()));
        let all = candidates(entities, class, of);
        assert forall|i: int| 0 <= i < all.len() implies class.contains_key((#[trigger] all[i]).1) by {
            if i < rest.len() {
                assert(all[i] == rest[i]);
            } else {
                assert(all[i] == more[i - rest.len()]);
            }
        }
    }
}

proof fn lemma_bare_known(
    entities: Seq<EntityView>,
    class: Map<u64, u64>,
    solid: u64,
    faces: Seq<u64>,
)
    ensures
        forall|i: int|
            0 <= i < bare_faces(entities, class, solid, faces).len() ==> class.contains_key(
                (#[trigger] bare_faces(entities, class, solid, faces)[i]).1,
            ),
    decreases faces.len(),
{
    if faces.len() > 0 {
        lemma_bare_known(entities, class, solid, faces.drop_last());
        let rest = bare_faces(entities, class, solid, faces.drop_last());
        let all = bare_faces(entities, class, solid, faces);
        assert forall|i: int| 0 <= i < all.len() implies class.contains_key((#[trigger] all[i]).1) by {
            if i < rest.len() {
                assert(all[i] == rest[i]);
            }
        }
    }
}

/// The faces of solids that may lie on each other.
fn find_candidates(
    entities: &Vec<EntityInstance>,
    index: &HashMap<u64, usize>,
    class: &HashMap<u64, u64>,
    styles: &HashMap<u64, Vec<u64>>,
    of: &Vec<u64>,
    shell_of: &HashMap<u64, u64>,
) -> (out: Vec<(u64, u64)>)
    requires
        indexes(index@, entities_view(entities@)),
        shell_of@ == shell_map(entities_view(entities@)),
        forall|i: int| 0 <= i < of@.len() ==> shell_of@.contains_key(#[trigger] of@[i]),
        forall|target: u64| #[trigger]
            listed(styles@, target) == face_styles(entities_view(entities@), target),
    ensures
        out@ == candidates(entities_view(entities@), class@, of@),
{
    let ghost views = entities_view(entities@);
    let mut out: Vec<(u64, u64)> = Vec::new();
    let mut i: usize = 0;
    assert(of@.take(0) =~= Seq::empty());
    while i < of.len()
        invariant
            i <= of.len(),
            views == entities_view(entities@),
            indexes(index@, views),
            shell_of@ == shell_map(views),
            forall|k: int| 0 <= k < of@.len() ==> shell_of@.contains_key(#[trigger] of@[k]),
            forall|target: u64| #[trigger] listed(styles@, target) == face_styles(views, target),
            out@ == candidates(views, class@, of@.take(i as int)),
        decreases of.len() - i,
    {
        let solid: u64 = of[i];
        let ghost start = out@;
        if let Some(shell) = shell_of.get(&solid) {
            let faces = find_solid_faces(entities, index, *shell);
            assert(faces@ == solid_faces(views, solid));
            let mut k: usize = 0;
            assert(faces@.take(0) =~= Seq::empty());
            assert(start + bare_faces(views, class@, solid, Seq::empty()) =~= start);
            while k < faces.len()
                invariant
                    k <= faces.len(),
                    views == entities_view(entities@),
                    forall|target: u64| #[trigger]
                        listed(styles@, target) == face_styles(views, target),
                    out@ == start + bare_faces(views, class@, solid, faces@.take(k as int)),
                decreases faces.len() - k,
            {
                let face: u64 = faces[k];
                assert(listed(styles@, face) == face_styles(views, face));
                let bare = match styles.get(&face) {
                    None => true,
                    Some(list) => list.len() == 0,
                };
                let ghost upto = bare_faces(views, class@, solid, faces@.take(k as int));
                if bare && class.contains_key(&face) {
                    out.push((solid, face));
                    assert(out@ =~= start + upto.push((solid, face)));
                }
                k = k + 1;
                assert(faces@.take(k as int).drop_last() =~= faces@.take(k - 1));
            }
            assert(faces@.take(faces@.len() as int) =~= faces@);
        }
        i = i + 1;
        assert(of@.take(i as int).drop_last() =~= of@.take(i - 1));
    }
    assert(of@.take(of@.len() as int) =~= of@);
    out
}

/// Each place is one of the first `n`, and the faces there are of the class.
proof fn lemma_places(class: Map<u64, u64>, faces: Seq<(u64, u64)>, of: u64, n: nat)
    requires
        n <= faces.len(),
        faces.len() <= u64::MAX,
    ensures
        forall|k: int|
            0 <= k < places(class, faces, of, n).len() ==> (#[trigger] places(
                class,
                faces,
                of,
                n,
            )[k]) < n,
    decreases n,
{
    if n > 0 {
        lemma_places(class, faces, of, (n - 1) as nat);
        let rest = places(class, faces, of, (n - 1) as nat);
        let all = places(class, faces, of, n);
        assert forall|k: int| 0 <= k < all.len() implies (#[trigger] all[k]) < n by {
            if k < rest.len() {
                assert(all[k] == rest[k]);
            }
        }
    }
}

/// The pairs among faces.
fn find_pairs(
    class: &HashMap<u64, u64>,
    opposed: &HashSet<u64>,
    faces: &Vec<(u64, u64)>,
) -> (out: Vec<Interface>)
    requires
        forall|i: int| 0 <= i < faces@.len() ==> class@.contains_key((#[trigger] faces@[i]).1),
    ensures
        out@ == pairs(class@, opposed@, faces@, faces@.len()),
{
    let mut table: HashMap<u64, Vec<u64>> = HashMap::new();
    let mut i: usize = 0;
    while i < faces.len()
        invariant
            i <= faces.len(),
            forall|k: int| 0 <= k < faces@.len() ==> class@.contains_key((#[trigger] faces@[k]).1),
            forall|c: u64| #[trigger] listed(table@, c) == places(class@, faces@, c, i as nat),
        decreases faces.len() - i,
    {
        let ghost before = table@;
        assert(class@.contains_key(faces@[i as int].1));
        if let Some(of) = class.get(&faces[i].1) {
            let of: u64 = *of;
            add_entry(&mut table, of, i as u64);
            assert forall|c: u64| #[trigger] listed(table@, c) == places(
                class@,
                faces@,
                c,
                (i + 1) as nat,
            ) by {
                assert(table@.dom().contains(c) == (c == of || before.dom().contains(c)));
                assert(listed(before, c) == places(class@, faces@, c, i as nat));
                if c != of && before.contains_key(c) {
                    assert(table@[c] == before[c]);
                }
            }
        }
        i = i + 1;
    }
    let mut out: Vec<Interface> = Vec::new();
    let mut k: usize = 0;
    while k < faces.len()
        invariant
            k <= faces.len(),
            forall|m: int| 0 <= m < faces@.len() ==> class@.contains_key((#[trigger] faces@[m]).1),
            forall|c: u64| #[trigger]
                listed(table@, c) == places(class@, faces@, c, faces@.len()),
            out@ == pairs(class@, opposed@, faces@, k as nat),
        decreases faces.len() - k,
    {
        assert(class@.contains_key(faces@[k as int].1));
        if let Some(of) = class.get(&faces[k].1) {
            let of: u64 = *of;
            assert(listed(table@, of) == places(class@, faces@, of, faces@.len()));
            proof {
                lemma_places(class@, faces@, of, faces@.len());
            }
            if let Some(at) = table.get(&of) {
                if at.len() == 2 && at[0] == k as u64 && opposed.contains(&of) {
                    let other: usize = at[1] as usize;
                    if faces[k].0 != faces[other].0 {
                        out.push(
                            Interface {
                                a_solid: faces[k].0,
                                b_solid: faces[other].0,
                                a_face: faces[k].1,
                                b_face: faces[other].1,
                            },
                        );
                    }
                }
            }
        }
        k = k + 1;
    }
    out
}

/// A table of the solids that touch each other, and the solids in it.
fn touching_table(pairs: &Vec<Interface>) -> (out: (HashMap<u64, Vec<u64>>, Vec<u64>))
    ensures
        table_step(out.0@) == touching(pairs@),
        out.1@ == pair_solids(pairs@),
        targets(out.0@, out.1@.to_set()),
{
    let mut table: HashMap<u64, Vec<u64>> = HashMap::new();
    let mut nodes: Vec<u64> = Vec::new();
    let mut i: usize = 0;
    assert(pairs@.take(0) =~= Seq::empty());
    assert forall|x: u64, y: u64| #[trigger] leads(table@, x, y) == touching(pairs@.take(0))(x, y) by {}
    while i < pairs.len()
        invariant
            i <= pairs.len(),
            nodes@ == pair_solids(pairs@.take(i as int)),
            forall|x: u64, y: u64| #[trigger]
                leads(table@, x, y) == touching(pairs@.take(i as int))(x, y),
            forall|x: u64, y: u64| #[trigger] leads(table@, x, y) ==> nodes@.contains(y),
        decreases pairs.len() - i,
    {
        let pair = pairs[i];
        let ghost start = table@;
        let ghost known = nodes@;
        add_entry(&mut table, pair.a_solid, pair.b_solid);
        let ghost mid = table@;
        add_entry(&mut table, pair.b_solid, pair.a_solid);
        nodes.push(pair.a_solid);
        nodes.push(pair.b_solid);
        i = i + 1;
        proof {
            crate::face_groups::lemma_entry_added(start, mid, pair.a_solid, pair.b_solid);
            crate::face_groups::lemma_entry_added(mid, table@, pair.b_solid, pair.a_solid);
            let front = pairs@.take(i - 1);
            let upto = pairs@.take(i as int);
            assert(upto.drop_last() =~= front);
            assert(upto.last() == pair);
            assert(nodes@[known.len() as int] == pair.a_solid);
            assert(nodes@[known.len() as int + 1] == pair.b_solid);
            assert forall|x: u64, y: u64| #[trigger]
                leads(table@, x, y) == touching(upto)(x, y) by {
                assert(leads(start, x, y) == touching(front)(x, y));
                if touching(front)(x, y) {
                    let k = choose|k: int|
                        0 <= k < front.len() && ((#[trigger] front[k]).a_solid == x
                            && front[k].b_solid == y || front[k].a_solid == y && front[k].b_solid
                            == x);
                    assert(upto[k] == front[k]);
                }
                if touching(upto)(x, y) {
                    let k = choose|k: int|
                        0 <= k < upto.len() && ((#[trigger] upto[k]).a_solid == x
                            && upto[k].b_solid == y || upto[k].a_solid == y && upto[k].b_solid
                            == x);
                    if k < front.len() {
                        assert(upto[k] == front[k]);
                    }
                }
                let last = upto.len() - 1;
                assert(upto[last] == pair);
            }
            assert forall|x: u64, y: u64| #[trigger] leads(table@, x, y) implies nodes@.contains(y) by {
                if leads(start, x, y) {
                    let k = choose|k: int| 0 <= k < known.len() && known[k] == y;
                    assert(nodes@[k] == y);
                }
            }
        }
    }
    proof {
        assert(pairs@.take(pairs@.len() as int) =~= pairs@);
        assert(table_step(table@) =~= touching(pairs@)) by {
            assert forall|x: u64, y: u64| #[trigger]
                table_step(table@)(x, y) == touching(pairs@)(x, y) by {
                assert(leads(table@, x, y) == touching(pairs@)(x, y));
            }
        }
    }
    (table, nodes)
}

/// The styled item of a target and the styles that it assigns, where there is one alone.
pub(crate) fn find_sole_style(
    entities: &Vec<EntityInstance>,
    styles: &HashMap<u64, Vec<u64>>,
    target: u64,
) -> (out: Option<(u64, Vec<u64>)>)
    requires
        forall|t: u64| #[trigger]
            listed(styles@, t) == face_styles(entities_view(entities@), t),
    ensures
        out is Some == sole_style(entities_view(entities@), target) is Some,
        out matches Some(found) ==> sole_style(entities_view(entities@), target) == Some(
            (found.0, found.1@),
        ),
{
    let ghost views = entities_view(entities@);
    assert(listed(styles@, target) == face_styles(views, target));
    match styles.get(&target) {
        None => None,
        Some(list) => {
            if list.len() != 1 {
                return None;
            }
            let n: usize = entities.len();
            proof {
                lemma_styles_at(views, target, views.len(), 0);
            }
            let at: usize = list[0] as usize;
            assert(views[at as int] == entities@[at as int]@);
            Some((entity_id(&entities[at]), styled_assignments(&entities[at])))
        },
    }
}

proof fn lemma_no_shared_style(entities: Seq<EntityView>, part: Seq<u64>, n: nat, m: nat)
    requires
        0 < n <= m <= part.len(),
        shared_style(entities, part, n) is None,
    ensures
        shared_style(entities, part, m) is None,
    decreases m,
{
    if n < m {
        lemma_no_shared_style(entities, part, n, (m - 1) as nat);
    }
}

/// The styled items of solids and the styles that all of them assign.
fn find_shared_style(
    entities: &Vec<EntityInstance>,
    styles: &HashMap<u64, Vec<u64>>,
    part: &Vec<u64>,
) -> (out: Option<(Vec<u64>, Vec<u64>)>)
    requires
        forall|t: u64| #[trigger]
            listed(styles@, t) == face_styles(entities_view(entities@), t),
    ensures
        out is Some == shared_style(entities_view(entities@), part@, part@.len()) is Some,
        out matches Some(found) ==> shared_style(entities_view(entities@), part@, part@.len())
            == Some((found.0@, found.1@)),
{
    let ghost views = entities_view(entities@);
    if part.len() == 0 {
        return None;
    }
    let first = match find_sole_style(entities, styles, part[0]) {
        Some(first) => first,
        None => {
            proof {
                lemma_no_shared_style(views, part@, 1, part@.len());
            }
            return None;
        },
    };
    let mut ids: Vec<u64> = vec![first.0];
    let shared = first.1;
    let mut i: usize = 1;
    assert(ids@ =~= seq![first.0]);
    while i < part.len()
        invariant
            1 <= i <= part.len(),
            views == entities_view(entities@),
            forall|t: u64| #[trigger] listed(styles@, t) == face_styles(views, t),
            shared_style(views, part@, i as nat) == Some((ids@, shared@)),
        decreases part.len() - i,
    {
        match find_sole_style(entities, styles, part[i]) {
            Some((id, current)) => {
                if !same_ids(&shared, &current) {
                    proof {
                        lemma_no_shared_style(views, part@, (i + 1) as nat, part@.len());
                    }
                    return None;
                }
                ids.push(id);
            },
            None => {
                proof {
                    lemma_no_shared_style(views, part@, (i + 1) as nat, part@.len());
                }
                return None;
            },
        }
        i = i + 1;
    }
    Some((ids, shared))
}

/// The items of a shape representation.
pub(crate) fn find_shape_items(entity: &EntityInstance) -> (out: Option<Vec<u64>>)
    ensures
        out is Some == shape_items(entity@) is Some,
        out matches Some(items) ==> shape_items(entity@) == Some(items@),
{
    match entity {
        EntityInstance::Complex { .. } => None,
        EntityInstance::Simple { record, .. } => {
            let name = text_chars(record.name.as_str());
            if contains_text(&name, "SHAPE_REPRESENTATION") {
                nth_entity_ref_list(record, 1)
            } else {
                None
            }
        },
    }
}

/// The items of the shape representations.
fn representation_items(entities: &Vec<EntityInstance>) -> (out: HashMap<u64, Vec<u64>>)
    ensures
        forall|rep: u64| #[trigger]
            out@.contains_key(rep) == items_of(
                entities_view(entities@),
                rep,
                entities@.len(),
            ) is Some,
        forall|rep: u64| #[trigger]
            out@.contains_key(rep) ==> items_of(entities_view(entities@), rep, entities@.len())
                == Some(out@[rep]@),
{
    let ghost views = entities_view(entities@);
    let mut out: HashMap<u64, Vec<u64>> = HashMap::new();
    let mut i: usize = 0;
    while i < entities.len()
        invariant
            i <= entities.len(),
            views == entities_view(entities@),
            forall|rep: u64| #[trigger]
                out@.contains_key(rep) == items_of(views, rep, i as nat) is Some,
            forall|rep: u64| #[trigger]
                out@.contains_key(rep) ==> items_of(views, rep, i as nat) == Some(out@[rep]@),
        decreases entities.len() - i,
    {
        assert(views[i as int] == entities@[i as int]@);
        if let Some(items) = find_shape_items(&entities[i]) {
            let id: u64 = entity_id(&entities[i]);
            out.insert(id, items);
        }
        i = i + 1;
    }
    out
}

/// Whether a list holds all solids of a part.
pub(crate) fn lists_all(items: &Vec<u64>, part: &Vec<u64>) -> (out: bool)
    ensures
        out == holds_all(items@, part@),
{
    let known = set_of(items);
    let mut i: usize = 0;
    while i < part.len()
        invariant
            i <= part.len(),
            known@ == items@.to_set(),
            forall|k: int| 0 <= k < i ==> items@.contains(#[trigger] part@[k]),
        decreases part.len() - i,
    {
        if !known.contains(&part[i]) {
            assert(!items@.contains(part@[i as int]));
            return false;
        }
        i = i + 1;
    }
    true
}

/// The shape representations that hold all solids of a part.
fn find_owners(
    entities: &Vec<EntityInstance>,
    items: &HashMap<u64, Vec<u64>>,
    part: &Vec<u64>,
) -> (out: Vec<u64>)
    requires
        forall|rep: u64| #[trigger]
            items@.contains_key(rep) == items_of(
                entities_view(entities@),
                rep,
                entities@.len(),
            ) is Some,
        forall|rep: u64| #[trigger]
            items@.contains_key(rep) ==> items_of(entities_view(entities@), rep, entities@.len())
                == Some(items@[rep]@),
    ensures
        out@ == owners(entities_view(entities@), part@, entities@.len()),
{
    let ghost views = entities_view(entities@);
    let mut out: Vec<u64> = Vec::new();
    let mut i: usize = 0;
    while i < entities.len()
        invariant
            i <= entities.len(),
            views == entities_view(entities@),
            forall|rep: u64| #[trigger]
                items@.contains_key(rep) == items_of(views, rep, views.len()) is Some,
            forall|rep: u64| #[trigger]
                items@.contains_key(rep) ==> items_of(views, rep, views.len()) == Some(
                    items@[rep]@,
                ),
            out@ == owners(views, part@, i as nat),
        decreases entities.len() - i,
    {
        assert(views[i as int] == entities@[i as int]@);
        let id: u64 = entity_id(&entities[i]);
        assert(items@.contains_key(id) == items_of(views, id, views.len()) is Some);
        if let Some(list) = items.get(&id) {
            if lists_all(list, part) && !list_contains(&out, id) {
                out.push(id);
            }
        }
        i = i + 1;
    }
    out
}

/// The faces at pairs.
fn find_pair_faces(pairs: &Vec<Interface>) -> (out: Vec<u64>)
    ensures
        out@ == pair_faces(pairs@),
{
    let mut out: Vec<u64> = Vec::new();
    let mut i: usize = 0;
    assert(pairs@.take(0) =~= Seq::empty());
    while i < pairs.len()
        invariant
            i <= pairs.len(),
            out@ == pair_faces(pairs@.take(i as int)),
        decreases pairs.len() - i,
    {
        out.push(pairs[i].a_face);
        out.push(pairs[i].b_face);
        i = i + 1;
        assert(pairs@.take(i as int).drop_last() =~= pairs@.take(i - 1));
    }
    assert(pairs@.take(pairs@.len() as int) =~= pairs@);
    out
}

/// The pairs between solids of a part.
fn find_pairs_within(pairs: &Vec<Interface>, part: &Vec<u64>) -> (out: Vec<Interface>)
    ensures
        out@ == pairs_within(pairs@, part@),
{
    let members = set_of(part);
    let mut out: Vec<Interface> = Vec::new();
    let mut i: usize = 0;
    assert(pairs@.take(0) =~= Seq::empty());
    while i < pairs.len()
        invariant
            i <= pairs.len(),
            members@ == part@.to_set(),
            out@ == pairs_within(pairs@.take(i as int), part@),
        decreases pairs.len() - i,
    {
        let pair = pairs[i];
        assert(members@.contains(pair.a_solid) == part@.contains(pair.a_solid));
        assert(members@.contains(pair.b_solid) == part@.contains(pair.b_solid));
        if members.contains(&pair.a_solid) && members.contains(&pair.b_solid) {
            out.push(pair);
        }
        i = i + 1;
        assert(pairs@.take(i as int).drop_last() =~= pairs@.take(i - 1));
    }
    assert(pairs@.take(pairs@.len() as int) =~= pairs@);
    out
}

/// The faces of solids that stay.
fn find_retained(
    entities: &Vec<EntityInstance>,
    index: &HashMap<u64, usize>,
    shell_of: &HashMap<u64, u64>,
    part: &Vec<u64>,
    drop: &Vec<u64>,
) -> (out: Vec<u64>)
    requires
        indexes(index@, entities_view(entities@)),
        shell_of@ == shell_map(entities_view(entities@)),
        forall|i: int| 0 <= i < part@.len() ==> shell_of@.contains_key(#[trigger] part@[i]),
    ensures
        out@ == retained(entities_view(entities@), part@, drop@),
{
    let ghost views = entities_view(entities@);
    let dropped = set_of(drop);
    let mut seen: HashSet<u64> = HashSet::new();
    let mut out: Vec<u64> = Vec::new();
    let mut i: usize = 0;
    assert(part@.take(0) =~= Seq::empty());
    while i < part.len()
        invariant
            i <= part.len(),
            views == entities_view(entities@),
            indexes(index@, views),
            shell_of@ == shell_map(views),
            forall|k: int| 0 <= k < part@.len() ==> shell_of@.contains_key(#[trigger] part@[k]),
            dropped@ == drop@.to_set(),
            forall|id: u64| #[trigger] seen@.contains(id) == out@.contains(id),
            out@ == retained(views, part@.take(i as int), drop@),
        decreases part.len() - i,
    {
        let solid: u64 = part[i];
        let ghost start = out@;
        if let Some(shell) = shell_of.get(&solid) {
            let faces = find_solid_faces(entities, index, *shell);
            assert(faces@ == solid_faces(views, solid));
            let mut k: usize = 0;
            assert(faces@.take(0) =~= Seq::empty());
            while k < faces.len()
                invariant
                    k <= faces.len(),
                    dropped@ == drop@.to_set(),
                    forall|id: u64| #[trigger] seen@.contains(id) == out@.contains(id),
                    out@ == and_new(start, faces@.take(k as int), drop@),
                decreases faces.len() - k,
            {
                let face: u64 = faces[k];
                let ghost before = out@;
                assert(dropped@.contains(face) == drop@.contains(face));
                if !dropped.contains(&face) && !seen.contains(&face) {
                    out.push(face);
                    seen.insert(face);
                    assert(out@[before.len() as int] == face);
                    assert forall|id: u64| #[trigger] seen@.contains(id) == out@.contains(id) by {
                        if before.contains(id) {
                            let m = choose|m: int| 0 <= m < before.len() && before[m] == id;
                            assert(out@[m] == id);
                        }
                        if out@.contains(id) && id != face {
                            let m = choose|m: int| 0 <= m < out@.len() && out@[m] == id;
                            assert(before[m] == id);
                        }
                    }
                }
                k = k + 1;
                assert(faces@.take(k as int).drop_last() =~= faces@.take(k - 1));
            }
            assert(faces@.take(faces@.len() as int) =~= faces@);
        }
        i = i + 1;
        assert(part@.take(i as int).drop_last() =~= part@.take(i - 1));
    }
    assert(part@.take(part@.len() as int) =~= part@);
    out
}

/// How the solids of a part become one.
fn plan_part(
    entities: &Vec<EntityInstance>,
    index: &HashMap<u64, usize>,
    styles: &HashMap<u64, Vec<u64>>,
    shell_of: &HashMap<u64, u64>,
    items: &HashMap<u64, Vec<u64>>,
    pairs: &Vec<Interface>,
    part: &Vec<u64>,
) -> (out: Option<ComponentPlan>)
    requires
        indexes(index@, entities_view(entities@)),
        shell_of@ == shell_map(entities_view(entities@)),
        forall|i: int| 0 <= i < part@.len() ==> shell_of@.contains_key(#[trigger] part@[i]),
        forall|target: u64| #[trigger]
            listed(styles@, target) == face_styles(entities_view(entities@), target),
        forall|rep: u64| #[trigger]
            items@.contains_key(rep) == items_of(
                entities_view(entities@),
                rep,
                entities@.len(),
            ) is Some,
        forall|rep: u64| #[trigger]
            items@.contains_key(rep) ==> items_of(entities_view(entities@), rep, entities@.len())
                == Some(items@[rep]@),
    ensures
        out is Some == weld_plan(entities_view(entities@), pairs@, part@) is Some,
        out matches Some(plan) ==> weld_plan(entities_view(entities@), pairs@, part@) == Some(
            plan@,
        ),
{
    let own = find_pairs_within(pairs, part);
    let (ids, shared) = match find_shared_style(entities, styles, part) {
        Some(found) => found,
        None => {
            return None;
        },
    };
    let reps = find_owners(entities, items, part);
    if reps.len() != 1 {
        return None;
    }
    let drop = find_pair_faces(&own);
    let kept = find_retained(entities, index, shell_of, part, &drop);
    if kept.len() == 0 {
        return None;
    }
    let mut solids: Vec<u64> = Vec::new();
    crate::face_coalesce::append_ids(&mut solids, part);
    assert(solids@ =~= part@);
    Some(
        ComponentPlan {
            solids,
            interfaces: own,
            retained_faces: kept,
            rep: reps[0],
            style_assignment: shared,
            old_styles: ids,
        },
    )
}

/// The solids of pairs are among the solids that the faces belong to.
proof fn lemma_pair_solids(class: Map<u64, u64>, opposed: Set<u64>, faces: Seq<(u64, u64)>, n: nat)
    requires
        n <= faces.len() <= u64::MAX,
    ensures
        forall|k: int|
            0 <= k < pairs(class, opposed, faces, n).len() ==> faces_hold(
                faces,
                #[trigger] pairs(class, opposed, faces, n)[k],
            ),
    decreases n,
{
    if n > 0 {
        lemma_pair_solids(class, opposed, faces, (n - 1) as nat);
        let rest = pairs(class, opposed, faces, (n - 1) as nat);
        let all = pairs(class, opposed, faces, n);
        assert forall|k: int| 0 <= k < all.len() implies faces_hold(faces, #[trigger] all[k]) by {
            if k < rest.len() {
                assert(all[k] == rest[k]);
            } else {
                let of = class[faces[n - 1].1];
                lemma_places(class, faces, of, faces.len());
                let at = places(class, faces, of, faces.len());
                assert(at[1] < faces.len());
                assert(all[k].a_solid == faces[n - 1].0);
                assert(all[k].b_solid == faces[at[1] as int].0);
            }
        }
    }
}

spec fn faces_hold(faces: Seq<(u64, u64)>, pair: Interface) -> bool {
    &&& exists|i: int| 0 <= i < faces.len() && (#[trigger] faces[i]).0 == pair.a_solid
    &&& exists|i: int| 0 <= i < faces.len() && (#[trigger] faces[i]).0 == pair.b_solid
}

proof fn lemma_candidate_solids(entities: Seq<EntityView>, class: Map<u64, u64>, of: Seq<u64>)
    ensures
        forall|i: int|
            0 <= i < candidates(entities, class, of).len() ==> of.contains(
                (#[trigger] candidates(entities, class, of)[i]).0,
            ),
    decreases of.len(),
{
    if of.len() > 0 {
        lemma_candidate_solids(entities, class, of.drop_last());
        let rest = candidates(entities, class, of.drop_last());
        let faces = solid_faces(entities, of.last());
        let more = bare_faces(entities, class, of.last(), faces);
        let all = candidates(entities, class, of);
        lemma_bare_solid(entities, class, of.last(), faces);
        assert forall|i: int| 0 <= i < all.len() implies of.contains((#[trigger] all[i]).0) by {
            if i < rest.len() {
                assert(all[i] == rest[i]);
                let front = of.drop_last();
                let k = choose|k: int| 0 <= k < front.len() && front[k] == all[i].0;
                assert(of[k] == all[i].0);
            } else {
                assert(all[i] == more[i - rest.len()]);
                assert(of[of.len() - 1] == all[i].0);
            }
        }
    }
}

proof fn lemma_bare_solid(
    entities: Seq<EntityView>,
    class: Map<u64, u64>,
    solid: u64,
    faces: Seq<u64>,
)
    ensures
        forall|i: int|
            0 <= i < bare_faces(entities, class, solid, faces).len() ==> (#[trigger] bare_faces(
                entities,
                class,
                solid,
                faces,
            )[i]).0 == solid,
    decreases faces.len(),
{
    if faces.len() > 0 {
        lemma_bare_solid(entities, class, solid, faces.drop_last());
        let rest = bare_faces(entities, class, solid, faces.drop_last());
        let all = bare_faces(entities, class, solid, faces);
        assert forall|i: int| 0 <= i < all.len() implies (#[trigger] all[i]).0 == solid by {
            if i < rest.len() {
                assert(all[i] == rest[i]);
            }
        }
    }
}

proof fn lemma_nodes_are_solids(pairs: Seq<Interface>, of: Seq<u64>)
    requires
        forall|k: int|
            0 <= k < pairs.len() ==> of.contains((#[trigger] pairs[k]).a_solid) && of.contains(
                pairs[k].b_solid,
            ),
    ensures
        forall|id: u64| #[trigger] pair_solids(pairs).contains(id) ==> of.contains(id),
    decreases pairs.len(),
{
    if pairs.len() > 0 {
        let front = pairs.drop_last();
        assert forall|k: int| 0 <= k < front.len() implies of.contains(
            (#[trigger] front[k]).a_solid,
        ) && of.contains(front[k].b_solid) by {
            assert(pairs[k] == front[k]);
        }
        lemma_nodes_are_solids(front, of);
        let known = pair_solids(front);
        let all = pair_solids(pairs);
        let last = pairs.len() - 1;
        assert(pairs[last] == pairs.last());
        assert forall|id: u64| #[trigger] all.contains(id) implies of.contains(id) by {
            let k = choose|k: int| 0 <= k < all.len() && all[k] == id;
            if k < known.len() {
                assert(known[k] == id);
                assert(known.contains(id));
            }
        }
    }
}

/// The faces that may lie on each other: those without styles of the solids with one shell. Each
/// comes with its solid.
pub fn weld_candidates(entities: &Vec<EntityInstance>, class: &HashMap<u64, u64>) -> (out: Vec<
    (u64, u64),
>)
    ensures
        out@ == candidates(
            entities_view(entities@),
            class@,
            all_solids(entities_view(entities@)),
        ),
{
    let index = crate::graph::build_index(entities);
    let styles = styles_by_target(entities);
    let (of, shell_of) = find_solids(entities, &index);
    find_candidates(entities, &index, class, &styles, &of, &shell_of)
}

/// Which solids become one.
pub fn plan_welds(entities: &Vec<EntityInstance>, evidence: &WeldEvidence) -> (out: Vec<
    ComponentPlan,
>)
    ensures
        are_weld_plans(
            entities_view(entities@),
            evidence.face_class@,
            evidence.opposed@,
            welds_view(out@),
        ),
{
    let ghost views = entities_view(entities@);
    let index = crate::graph::build_index(entities);
    let styles = styles_by_target(entities);
    let (of, shell_of) = find_solids(entities, &index);
    let faces = find_candidates(
        entities,
        &index,
        &evidence.face_class,
        &styles,
        &of,
        &shell_of,
    );
    proof {
        lemma_candidates_known(views, evidence.face_class@, of@);
    }
    let n: usize = faces.len();
    let found = find_pairs(&evidence.face_class, &evidence.opposed, &faces);
    assert(found@ == interfaces(views, evidence.face_class@, evidence.opposed@));
    let (table, nodes) = touching_table(&found);
    let ghost step = touching(found@);
    let parts = find_components(&table, &nodes);
    let items = representation_items(entities);
    proof {
        lemma_pair_solids(evidence.face_class@, evidence.opposed@, faces@, faces@.len());
        lemma_candidate_solids(views, evidence.face_class@, of@);
        assert forall|k: int| 0 <= k < found@.len() implies of@.contains(
            (#[trigger] found@[k]).a_solid,
        ) && of@.contains(found@[k].b_solid) by {
            assert(faces_hold(faces@, found@[k]));
        }
        lemma_nodes_are_solids(found@, of@);
        assert forall|p: int, i: int| 0 <= p < parts@.len() && 0 <= i < parts@[p]@.len() implies
            shell_of@.contains_key(#[trigger] parts@[p]@[i]) by {
            let part = parts@[p]@;
            assert(lists_view(parts@)[p] == part);
            assert(lists_view(parts@).contains(part));
            assert(part.contains(part[i]));
            assert(crate::sets::connected(step, part[0], part[i]));
            crate::components::lemma_reached(table@, nodes@.to_set(), part[0], part[i]);
            assert(of@.contains(part[i]));
            let m = choose|m: int| 0 <= m < of@.len() && of@[m] == part[i];
            assert(shell_of@.contains_key(of@[m]));
        }
    }
    let mut plans: Vec<ComponentPlan> = Vec::new();
    let mut k: usize = 0;
    assert(welds_view(plans@) =~= Seq::empty());
    while k < parts.len()
        invariant
            k <= parts.len(),
            views == entities_view(entities@),
            indexes(index@, views),
            shell_of@ == shell_map(views),
            forall|target: u64| #[trigger] listed(styles@, target) == face_styles(views, target),
            forall|rep: u64| #[trigger]
                items@.contains_key(rep) == items_of(views, rep, entities@.len()) is Some,
            forall|rep: u64| #[trigger]
                items@.contains_key(rep) ==> items_of(views, rep, entities@.len()) == Some(
                    items@[rep]@,
                ),
            forall|p: int, i: int|
                0 <= p < parts@.len() && 0 <= i < parts@[p]@.len() ==> shell_of@.contains_key(
                    #[trigger] parts@[p]@[i],
                ),
            welds_view(plans@) == weld_plans(views, found@, lists_view(parts@), k as nat),
        decreases parts.len() - k,
    {
        let ghost before = plans@;
        assert(lists_view(parts@)[k as int] == parts@[k as int]@);
        if let Some(plan) = plan_part(
            entities,
            &index,
            &styles,
            &shell_of,
            &items,
            &found,
            &parts[k],
        ) {
            plans.push(plan);
            assert(welds_view(plans@) =~= welds_view(before).push(plan@));
        }
        k = k + 1;
    }
    proof {
        assert(table_step(table@)(0, 0) == step(0, 0));
        assert(all_components(step, pair_solids(found@), lists_view(parts@)));
    }
    plans
}

} // verus!
