//! Which groups of faces become one face.

use std::collections::{HashMap, HashSet};
use vstd::prelude::*;

use crate::ast::{entities_view, EntityInstance, EntityView};
use crate::face_groups::{
    adjacency, adjacency_table, adjacent, edge_users, lists_users, read_faces, reads_faces, uses,
};
use crate::face_info::{face_info, FaceInfo};
use crate::graph::{
    add_entry, indexes, nth, nth_entity_ref, nth_entity_ref_list, nth_ref, nth_ref_list,
    simple_record, typed_record,
};
use crate::loops::{law_loop_is_unique, single_loop, trace_single_loop};
use crate::sets::{
    ascending, connected, connected_ids, is_path, leads, lemma_ascending_determined,
    lemma_connected_back, set_of, sorted_ids, table_step,
};
use crate::text::same_text;

verus! {

broadcast use vstd::std_specs::hash::group_hash_axioms;

/// What a styled item is applied to and the styles that it assigns.
pub open spec fn styled(entity: EntityView) -> Option<(u64, Seq<u64>)> {
    match simple_record(entity) {
        Some(record) if record.name == "STYLED_ITEM"@ && nth(record, 2) is Some && nth(record, 3)
            is None => match (nth_ref(record, 2), nth_ref_list(record, 1)) {
            (Some(target), Some(styles)) => Some((target, styles)),
            _ => None,
        },
        _ => None,
    }
}

/// The positions of the styled items of a target among the first `n` entities.
pub open spec fn styles_at(entities: Seq<EntityView>, target: u64, n: nat) -> Seq<u64>
    decreases n,
{
    if n == 0 {
        Seq::empty()
    } else {
        let rest = styles_at(entities, target, (n - 1) as nat);
        match styled(entities[n - 1]) {
            Some((to, _)) if to == target => rest.push((n - 1) as u64),
            _ => rest,
        }
    }
}

pub open spec fn face_styles(entities: Seq<EntityView>, face: u64) -> Seq<u64> {
    styles_at(entities, face, entities.len())
}

/// The styles that are assigned to a face: nothing where it has no styled item.
pub open spec fn assigned(entities: Seq<EntityView>, face: u64) -> Option<Seq<u64>> {
    let styles = face_styles(entities, face);
    if styles.len() == 0 {
        None
    } else {
        Some(styled(entities[styles[0] as int])->Some_0.1)
    }
}

/// Whether all faces look the same: either none has a styled item of its own, or each has
/// one and all assign the same styles.
pub open spec fn styles_agree(entities: Seq<EntityView>, faces: Seq<u64>) -> bool {
    forall|i: int|
        0 <= i < faces.len() ==> face_styles(entities, #[trigger] faces[i]).len() <= 1 && assigned(
            entities,
            faces[i],
        ) == assigned(entities, faces[0])
}

/// The styled items of the faces from position `from` on.
pub open spec fn styles_from(entities: Seq<EntityView>, faces: Seq<u64>, from: int, n: int) -> Seq<
    u64,
>
    decreases n - from,
{
    if n <= from {
        Seq::empty()
    } else {
        let rest = styles_from(entities, faces, from, n - 1);
        let styles = face_styles(entities, faces[n - 1]);
        rest + Seq::new(styles.len(), |i: int| entities[styles[i] as int].id())
    }
}

/// Whether a shell lists a face.
pub open spec fn owns(entities: Seq<EntityView>, shell: u64, face: u64) -> bool {
    &&& typed_record(entities, face, "ADVANCED_FACE"@) is Some
    &&& exists|i: int|
        0 <= i < entities.len() && (#[trigger] entities[i]).id() == shell && lists_face(
            entities[i],
            face,
        )
}

/// Whether an entity is a shell that lists a face.
pub open spec fn lists_face(entity: EntityView, face: u64) -> bool {
    &&& simple_record(entity) matches Some(record)
    &&& record.name == "OPEN_SHELL"@ || record.name == "CLOSED_SHELL"@
    &&& nth_ref_list(record, 1) matches Some(faces)
    &&& faces.contains(face)
}

/// Whether a shell is the only one that lists a face.
pub open spec fn sole_owner(entities: Seq<EntityView>, shell: u64, face: u64) -> bool {
    &&& owns(entities, shell, face)
    &&& forall|other: u64| #[trigger] owns(entities, other, face) ==> other == shell
}

/// Whether two of the faces use an edge.
pub open spec fn internal(entities: Seq<EntityView>, faces: Seq<u64>, edge: u64) -> bool {
    exists|i: int, j: int|
        0 <= i < j < faces.len() && #[trigger] uses(entities, faces[i], edge) && #[trigger] uses(
            entities,
            faces[j],
            edge,
        )
}

/// The oriented edges whose edges are not in a list.
pub open spec fn outer(oes: Seq<(u64, u64)>, inner: Seq<u64>) -> Seq<(u64, u64)>
    decreases oes.len(),
{
    if oes.len() == 0 {
        Seq::empty()
    } else {
        let rest = outer(oes.drop_last(), inner);
        if inner.contains(oes.last().1) {
            rest
        } else {
            rest.push(oes.last())
        }
    }
}

/// The oriented edges of faces that are not on one of the inner edges.
pub open spec fn boundary(entities: Seq<EntityView>, faces: Seq<u64>, inner: Seq<u64>) -> Seq<
    (u64, u64),
>
    decreases faces.len(),
{
    if faces.len() == 0 {
        Seq::empty()
    } else {
        boundary(entities, faces.drop_last(), inner) + outer(
            face_info(entities, faces.last())->Some_0.oes,
            inner,
        )
    }
}

/// Whether no edge occurs twice.
pub open spec fn edges_once(oes: Seq<(u64, u64)>) -> bool {
    forall|i: int, j: int|
        #![trigger oes[i], oes[j]]
        0 <= i < j < oes.len() ==> oes[i].1 != oes[j].1
}

/// A group of faces that becomes one.
#[derive(Debug)]
pub struct MergePlan {
    pub faces: Vec<u64>,
    pub shell: u64,
    pub support: u64,
    pub sense: bool,
    pub loop_oes: Vec<u64>,
    pub internal_edges: Vec<u64>,
    pub style_delete: Vec<u64>,
}

#[verifier::ext_equal]
pub struct PlanView {
    pub faces: Seq<u64>,
    pub shell: u64,
    pub support: u64,
    pub sense: bool,
    pub loop_oes: Seq<u64>,
    pub internal_edges: Seq<u64>,
    pub style_delete: Seq<u64>,
}

impl View for MergePlan {
    type V = PlanView;

    open spec fn view(&self) -> PlanView {
        PlanView {
            faces: self.faces@,
            shell: self.shell,
            support: self.support,
            sense: self.sense,
            loop_oes: self.loop_oes@,
            internal_edges: self.internal_edges@,
            style_delete: self.style_delete@,
        }
    }
}

/// Whether faces in ascending order are all the faces that continue each other.
pub open spec fn is_group(entities: Seq<EntityView>, faces: Seq<u64>) -> bool {
    &&& faces.len() >= 2
    &&& ascending(faces)
    &&& forall|f: u64| #[trigger]
        faces.contains(f) == connected(adjacency(entities), faces[0], f)
}

/// Whether a group of faces becomes one face. They must belong to one shell alone and look
/// the same; an edge between two of them must be used by none else; and the remaining edges
/// must form one loop.
pub open spec fn valid_plan(entities: Seq<EntityView>, plan: PlanView) -> bool {
    let outline = boundary(entities, plan.faces, plan.internal_edges);
    &&& is_group(entities, plan.faces)
    &&& forall|i: int|
        0 <= i < plan.faces.len() ==> sole_owner(entities, plan.shell, #[trigger] plan.faces[i])
    &&& face_info(entities, plan.faces[0]) matches Some(info)
    &&& info.support == plan.support
    &&& info.sense == plan.sense
    &&& styles_agree(entities, plan.faces)
    &&& plan.style_delete == styles_from(entities, plan.faces, 1, plan.faces.len() as int)
    &&& ascending(plan.internal_edges)
    &&& forall|edge: u64| #[trigger]
        plan.internal_edges.contains(edge) == internal(entities, plan.faces, edge)
    &&& forall|edge: u64, face: u64|
        internal(entities, plan.faces, edge) && #[trigger] uses(entities, face, edge)
            ==> plan.faces.contains(face)
    &&& edges_once(outline)
    &&& single_loop(entities, outline, plan.loop_oes)
}

/// The plans for all groups that become one face, by their smallest faces.
pub open spec fn all_plans(entities: Seq<EntityView>, plans: Seq<PlanView>) -> bool {
    &&& forall|i: int, j: int|
        #![trigger plans[i], plans[j]]
        0 <= i < j < plans.len() ==> plans[i].faces[0] < plans[j].faces[0]
    &&& forall|plan: PlanView| #[trigger]
        plans.contains(plan) == valid_plan(entities, plan)
}

/// What a styled item is applied to.
fn styled_target(entity: &EntityInstance) -> (out: Option<u64>)
    ensures
        out is Some == styled(entity@) is Some,
        out matches Some(target) ==> styled(entity@)->Some_0.0 == target,
{
    match entity {
        EntityInstance::Complex { .. } => None,
        EntityInstance::Simple { record, .. } => {
            if !same_text(record.name.as_str(), "STYLED_ITEM") || crate::graph::nth_param(
                record,
                2,
            ).is_none() || crate::graph::nth_param(record, 3).is_some() {
                return None;
            }
            match (nth_entity_ref(record, 2), nth_entity_ref_list(record, 1)) {
                (Some(target), Some(_)) => Some(target),
                _ => None,
            }
        },
    }
}

/// The styles that a styled item assigns.
pub(crate) fn styled_assignments(entity: &EntityInstance) -> (out: Vec<u64>)
    requires
        styled(entity@) is Some,
    ensures
        out@ == styled(entity@)->Some_0.1,
{
    if let EntityInstance::Simple { record, .. } = entity {
        if let Some(styles) = nth_entity_ref_list(record, 1) {
            return styles;
        }
    }
    Vec::new()
}

/// The list that a table has for a key.
pub open spec fn listed(table: Map<u64, Vec<u64>>, key: u64) -> Seq<u64> {
    if table.contains_key(key) {
        table[key]@
    } else {
        Seq::empty()
    }
}

/// The positions of the styled items of each target.
pub(crate) fn styles_by_target(entities: &Vec<EntityInstance>) -> (out: HashMap<u64, Vec<u64>>)
    ensures
        forall|target: u64| #[trigger]
            listed(out@, target) == face_styles(entities_view(entities@), target),
{
    let ghost views = entities_view(entities@);
    let mut out: HashMap<u64, Vec<u64>> = HashMap::new();
    let mut i: usize = 0;
    while i < entities.len()
        invariant
            i <= entities.len(),
            views == entities_view(entities@),
            forall|target: u64| #[trigger]
                listed(out@, target) == styles_at(views, target, i as nat),
        decreases entities.len() - i,
    {
        assert(views[i as int] == entities@[i as int]@);
        let ghost before = out@;
        if let Some(target) = styled_target(&entities[i]) {
            add_entry(&mut out, target, i as u64);
            assert forall|t: u64| #[trigger] listed(out@, t) == styles_at(views, t, (i + 1) as nat) by {
                assert(out@.dom().contains(t) == (t == target || before.dom().contains(t)));
                assert(listed(before, t) == styles_at(views, t, i as nat));
                if t != target && before.contains_key(t) {
                    assert(out@[t] == before[t]);
                }
            }
        } else {
            assert forall|t: u64| #[trigger] listed(out@, t) == styles_at(views, t, (i + 1) as nat) by {}
        }
        i = i + 1;
    }
    out
}

/// The shells that list each face.
fn face_shell_owners(entities: &Vec<EntityInstance>, index: &HashMap<u64, usize>) -> (out: HashMap<
    u64,
    Vec<u64>,
>)
    requires
        indexes(index@, entities_view(entities@)),
    ensures
        forall|face: u64, shell: u64| #[trigger]
            leads(out@, face, shell) == owns(entities_view(entities@), shell, face),
{
    let ghost views = entities_view(entities@);
    let mut out: HashMap<u64, Vec<u64>> = HashMap::new();
    let mut i: usize = 0;
    while i < entities.len()
        invariant
            i <= entities.len(),
            views == entities_view(entities@),
            indexes(index@, views),
            forall|face: u64, shell: u64| #[trigger]
                leads(out@, face, shell) ==> owns(views, shell, face),
            forall|j: int, face: u64|
                0 <= j < i && #[trigger] lists_face(views[j], face) && typed_record(
                    views,
                    face,
                    "ADVANCED_FACE"@,
                ) is Some ==> leads(out@, face, views[j].id()),
        decreases entities.len() - i,
    {
        assert(views[i as int] == entities@[i as int]@);
        let ghost start = out@;
        if let EntityInstance::Simple { id, record } = &entities[i] {
            let shell: u64 = *id;
            if same_text(record.name.as_str(), "OPEN_SHELL") || same_text(
                record.name.as_str(),
                "CLOSED_SHELL",
            ) {
                if let Some(faces) = nth_entity_ref_list(record, 1) {
                    let mut k: usize = 0;
                    while k < faces.len()
                        invariant
                            k <= faces.len(),
                            i < entities.len(),
                            views == entities_view(entities@),
                            indexes(index@, views),
                            views[i as int].id() == shell,
                            forall|f: u64| #[trigger]
                                lists_face(views[i as int], f) == faces@.contains(f),
                            forall|face: u64, s: u64| #[trigger]
                                leads(out@, face, s) ==> owns(views, s, face),
                            forall|face: u64, s: u64| #[trigger]
                                leads(start, face, s) ==> leads(out@, face, s),
                            forall|j: int|
                                0 <= j < k && typed_record(
                                    views,
                                    #[trigger] faces@[j],
                                    "ADVANCED_FACE"@,
                                ) is Some ==> leads(out@, faces@[j], shell),
                        decreases faces.len() - k,
                    {
                        let face: u64 = faces[k];
                        assert(faces@.contains(face));
                        assert(lists_face(views[i as int], face));
                        if crate::graph::find_typed(entities, index, face, "ADVANCED_FACE").is_some() {
                            assert(owns(views, shell, face));
                            let ghost before = out@;
                            add_entry(&mut out, face, shell);
                            proof {
                                crate::face_groups::lemma_entry_added(before, out@, face, shell);
                            }
                        }
                        k = k + 1;
                    }
                    assert forall|j: int, face: u64|
                        0 <= j < i + 1 && #[trigger] lists_face(views[j], face) && typed_record(
                            views,
                            face,
                            "ADVANCED_FACE"@,
                        ) is Some implies leads(out@, face, views[j].id()) by {
                        if j == i {
                            let m = choose|m: int| 0 <= m < faces@.len() && faces@[m] == face;
                            assert(typed_record(views, faces@[m], "ADVANCED_FACE"@) is Some);
                        } else {
                            assert(leads(start, face, views[j].id()));
                        }
                    }
                }
            }
        }
        i = i + 1;
    }
    assert forall|face: u64, shell: u64| #[trigger]
        leads(out@, face, shell) == owns(views, shell, face) by {
        if owns(views, shell, face) {
            let j = choose|j: int|
                0 <= j < views.len() && (#[trigger] views[j]).id() == shell && lists_face(
                    views[j],
                    face,
                );
            assert(lists_face(views[j], face));
        }
    }
    out
}

/// The shell that alone lists a face.
fn find_sole_owner(
    Ghost(views): Ghost<Seq<EntityView>>,
    owners: &HashMap<u64, Vec<u64>>,
    face: u64,
) -> (out: Option<u64>)
    requires
        forall|f: u64, shell: u64| #[trigger] leads(owners@, f, shell) == owns(views, shell, f),
    ensures
        out matches Some(shell) ==> sole_owner(views, shell, face),
        out is None ==> forall|shell: u64| !#[trigger] sole_owner(views, shell, face),
{
    match owners.get(&face) {
        None => {
            assert forall|shell: u64| !#[trigger] sole_owner(views, shell, face) by {
                assert(!leads(owners@, face, shell));
            }
            None
        },
        Some(list) => {
            if list.len() == 0 {
                assert forall|shell: u64| !#[trigger] sole_owner(views, shell, face) by {
                    assert(!leads(owners@, face, shell));
                }
                return None;
            }
            let shell: u64 = list[0];
            assert(list@.contains(list@[0]));
            assert(leads(owners@, face, shell));
            let mut i: usize = 0;
            while i < list.len()
                invariant
                    i <= list.len(),
                    list.len() > 0,
                    shell == list@[0],
                    owners@.contains_key(face),
                    owners@[face] == *list,
                    leads(owners@, face, shell),
                    forall|f: u64, s: u64| #[trigger]
                        leads(owners@, f, s) == owns(views, s, f),
                    forall|j: int| 0 <= j < i ==> #[trigger] list@[j] == shell,
                decreases list.len() - i,
            {
                if list[i] != shell {
                    assert forall|s: u64| !#[trigger] sole_owner(views, s, face) by {
                        let other = list@[i as int];
                        assert(list@.contains(other));
                        assert(leads(owners@, face, other));
                        assert(owns(views, other, face) && owns(views, shell, face));
                    }
                    return None;
                }
                i = i + 1;
            }
            assert forall|other: u64| #[trigger] owns(views, other, face) implies other == shell by {
                assert(leads(owners@, face, other));
                let j = choose|j: int| 0 <= j < list@.len() && list@[j] == other;
                assert(list@[j] == shell);
            }
            Some(shell)
        },
    }
}

pub(crate) fn same_ids(a: &Vec<u64>, b: &Vec<u64>) -> (out: bool)
    ensures
        out == (a@ == b@),
{
    if a.len() != b.len() {
        return false;
    }
    let mut i: usize = 0;
    while i < a.len()
        invariant
            i <= a.len(),
            a.len() == b.len(),
            forall|j: int| 0 <= j < i ==> a@[j] == b@[j],
        decreases a.len() - i,
    {
        if a[i] != b[i] {
            return false;
        }
        i = i + 1;
    }
    assert(a@ =~= b@);
    true
}

pub proof fn lemma_styles_at(entities: Seq<EntityView>, target: u64, n: nat, k: int)
    requires
        n <= entities.len(),
        entities.len() <= usize::MAX,
        0 <= k < styles_at(entities, target, n).len(),
    ensures
        styles_at(entities, target, n)[k] < n,
        styled(entities[styles_at(entities, target, n)[k] as int]) is Some,
    decreases n,
{
    if n > 0 {
        let rest = styles_at(entities, target, (n - 1) as nat);
        if k < rest.len() {
            lemma_styles_at(entities, target, (n - 1) as nat, k);
        }
    }
}

/// The styles that are assigned to a face, where it has one styled item at most.
fn assigned_styles(
    entities: &Vec<EntityInstance>,
    styles: &HashMap<u64, Vec<u64>>,
    face: u64,
) -> (out: Option<Option<Vec<u64>>>)
    requires
        forall|target: u64| #[trigger]
            listed(styles@, target) == face_styles(entities_view(entities@), target),
    ensures
        out is Some == (face_styles(entities_view(entities@), face).len() <= 1),
        out matches Some(found) ==> {
            &&& found is Some == assigned(entities_view(entities@), face) is Some
            &&& found matches Some(list) ==> assigned(entities_view(entities@), face) == Some(
                list@,
            )
        },
{
    let ghost views = entities_view(entities@);
    assert(listed(styles@, face) == face_styles(views, face));
    match styles.get(&face) {
        None => Some(None),
        Some(list) => {
            if list.len() == 0 {
                Some(None)
            } else if list.len() == 1 {
                let n: usize = entities.len();
                proof {
                    lemma_styles_at(views, face, views.len(), 0);
                }
                let at: usize = list[0] as usize;
                assert(views[at as int] == entities@[at as int]@);
                Some(Some(styled_assignments(&entities[at])))
            } else {
                None
            }
        },
    }
}

/// Whether all faces look the same.
fn faces_look_alike(
    entities: &Vec<EntityInstance>,
    styles: &HashMap<u64, Vec<u64>>,
    faces: &Vec<u64>,
) -> (out: bool)
    requires
        faces.len() > 0,
        forall|target: u64| #[trigger]
            listed(styles@, target) == face_styles(entities_view(entities@), target),
    ensures
        out == styles_agree(entities_view(entities@), faces@),
{
    let ghost views = entities_view(entities@);
    let first = match assigned_styles(entities, styles, faces[0]) {
        Some(found) => found,
        None => {
            assert(face_styles(views, faces@[0]).len() > 1);
            return false;
        },
    };
    let mut i: usize = 0;
    while i < faces.len()
        invariant
            i <= faces.len(),
            faces.len() > 0,
            views == entities_view(entities@),
            forall|target: u64| #[trigger]
                listed(styles@, target) == face_styles(views, target),
            first is Some == assigned(views, faces@[0]) is Some,
            first matches Some(list) ==> assigned(views, faces@[0]) == Some(list@),
            forall|j: int|
                0 <= j < i ==> face_styles(views, #[trigger] faces@[j]).len() <= 1 && assigned(
                    views,
                    faces@[j],
                ) == assigned(views, faces@[0]),
        decreases faces.len() - i,
    {
        match assigned_styles(entities, styles, faces[i]) {
            None => {
                assert(face_styles(views, faces@[i as int]).len() > 1);
                return false;
            },
            Some(found) => {
                let same = match (&found, &first) {
                    (None, None) => true,
                    (Some(a), Some(b)) => same_ids(a, b),
                    _ => false,
                };
                if !same {
                    assert(assigned(views, faces@[i as int]) != assigned(views, faces@[0]));
                    return false;
                }
            },
        }
        i = i + 1;
    }
    true
}

/// The styled items of all faces but the first.
fn other_styles(
    entities: &Vec<EntityInstance>,
    styles: &HashMap<u64, Vec<u64>>,
    faces: &Vec<u64>,
) -> (out: Vec<u64>)
    requires
        faces.len() > 0,
        forall|target: u64| #[trigger]
            listed(styles@, target) == face_styles(entities_view(entities@), target),
    ensures
        out@ == styles_from(entities_view(entities@), faces@, 1, faces@.len() as int),
{
    let ghost views = entities_view(entities@);
    let n: usize = entities.len();
    let mut out: Vec<u64> = Vec::new();
    let mut i: usize = 1;
    while i < faces.len()
        invariant
            1 <= i <= faces.len(),
            n == entities.len(),
            views == entities_view(entities@),
            forall|target: u64| #[trigger]
                listed(styles@, target) == face_styles(views, target),
            out@ == styles_from(views, faces@, 1, i as int),
        decreases faces.len() - i,
    {
        let ghost before = out@;
        let ghost here = face_styles(views, faces@[i as int]);
        assert(listed(styles@, faces@[i as int]) == here);
        let ghost ids = Seq::new(here.len(), |j: int| views[here[j] as int].id());
        if let Some(list) = styles.get(&faces[i]) {
            let mut k: usize = 0;
            assert(before + ids.take(0) =~= before);
            while k < list.len()
                invariant
                    k <= list.len(),
                    n == entities.len(),
                    views == entities_view(entities@),
                    here == face_styles(views, faces@[i as int]),
                    list@ == here,
                    ids == Seq::new(here.len(), |j: int| views[here[j] as int].id()),
                    out@ == before + ids.take(k as int),
                decreases list.len() - k,
            {
                proof {
                    lemma_styles_at(views, faces@[i as int], views.len(), k as int);
                }
                let at: usize = list[k] as usize;
                assert(views[at as int] == entities@[at as int]@);
                out.push(crate::ast::entity_id(&entities[at]));
                k = k + 1;
                assert(before + ids.take(k as int) =~= (before + ids.take(k - 1)).push(ids[k - 1]));
            }
            assert(ids.take(ids.len() as int) =~= ids);
        } else {
            assert(before + ids =~= before);
        }
        i = i + 1;
    }
    out
}

/// How many of the users of an edge are in a group, up to two, and whether all are.
fn users_in_group(list: &Vec<u64>, group: &HashSet<u64>) -> (out: (usize, bool))
    requires
        ascending(list@),
    ensures
        out.0 <= 2,
        out.0 >= 1 <==> exists|i: int| 0 <= i < list@.len() && group@.contains(#[trigger] list@[i]),
        out.0 >= 2 <==> exists|i: int, j: int|
            0 <= i < j < list@.len() && group@.contains(#[trigger] list@[i]) && group@.contains(
                #[trigger] list@[j],
            ),
        out.1 <==> forall|i: int| 0 <= i < list@.len() ==> group@.contains(#[trigger] list@[i]),
{
    let mut hits: usize = 0;
    let mut all = true;
    let mut i: usize = 0;
    while i < list.len()
        invariant
            i <= list.len(),
            hits <= 2,
            hits >= 1 <==> exists|a: int| 0 <= a < i && group@.contains(#[trigger] list@[a]),
            hits >= 2 <==> exists|a: int, b: int|
                0 <= a < b < i && group@.contains(#[trigger] list@[a]) && group@.contains(
                    #[trigger] list@[b],
                ),
            all <==> forall|a: int| 0 <= a < i ==> group@.contains(#[trigger] list@[a]),
        decreases list.len() - i,
    {
        if group.contains(&list[i]) {
            if hits < 2 {
                hits = hits + 1;
            }
            assert(group@.contains(list@[i as int]));
        } else {
            all = false;
            assert(!group@.contains(list@[i as int]));
        }
        i = i + 1;
    }
    (hits, all)
}

/// An edge is internal where two faces of its list are in the group.
proof fn lemma_internal(
    entities: Seq<EntityView>,
    faces: Seq<u64>,
    list: Seq<u64>,
    edge: u64,
)
    requires
        ascending(faces),
        ascending(list),
        forall|face: u64| #[trigger] list.contains(face) == uses(entities, face, edge),
    ensures
        internal(entities, faces, edge) <==> exists|a: int, b: int|
            0 <= a < b < list.len() && faces.contains(#[trigger] list[a]) && faces.contains(
                #[trigger] list[b],
            ),
{
    if internal(entities, faces, edge) {
        let (i, j) = choose|i: int, j: int|
            0 <= i < j < faces.len() && #[trigger] uses(entities, faces[i], edge)
                && #[trigger] uses(entities, faces[j], edge);
        assert(list.contains(faces[i]) && list.contains(faces[j]));
        let a = choose|a: int| 0 <= a < list.len() && list[a] == faces[i];
        let b = choose|b: int| 0 <= b < list.len() && list[b] == faces[j];
        assert(faces[i] < faces[j]);
        assert(a < b);
        assert(faces.contains(list[a]) && faces.contains(list[b]));
    }
    if exists|a: int, b: int|
        0 <= a < b < list.len() && faces.contains(#[trigger] list[a]) && faces.contains(
            #[trigger] list[b],
        ) {
        let (a, b) = choose|a: int, b: int|
            0 <= a < b < list.len() && faces.contains(#[trigger] list[a]) && faces.contains(
                #[trigger] list[b],
            );
        let i = choose|i: int| 0 <= i < faces.len() && faces[i] == list[a];
        let j = choose|j: int| 0 <= j < faces.len() && faces[j] == list[b];
        assert(list[a] < list[b]);
        assert(i < j);
        assert(list.contains(list[a]) && list.contains(list[b]));
        assert(uses(entities, faces[i], edge) && uses(entities, faces[j], edge));
    }
}

/// The edges that two faces of a group use, or nothing where a face outside uses one of them.
fn internal_edges_of(
    Ghost(views): Ghost<Seq<EntityView>>,
    faces: &Vec<u64>,
    infos: &HashMap<u64, FaceInfo>,
    users: &HashMap<u64, Vec<u64>>,
) -> (out: Option<Vec<u64>>)
    requires
        ascending(faces@),
        reads_faces(infos@, views),
        lists_users(users@, views),
    ensures
        match out {
            Some(edges) => {
                &&& ascending(edges@)
                &&& forall|edge: u64| #[trigger]
                    edges@.contains(edge) == internal(views, faces@, edge)
                &&& forall|edge: u64, face: u64|
                    internal(views, faces@, edge) && #[trigger] uses(views, face, edge)
                        ==> faces@.contains(face)
            },
            None => exists|edge: u64, face: u64|
                internal(views, faces@, edge) && #[trigger] uses(views, face, edge)
                    && !faces@.contains(face),
        },
{
    let group = set_of(faces);
    let mut found: Vec<u64> = Vec::new();
    let mut i: usize = 0;
    while i < faces.len()
        invariant
            i <= faces.len(),
            ascending(faces@),
            reads_faces(infos@, views),
            lists_users(users@, views),
            group@ == faces@.to_set(),
            forall|k: int|
                0 <= k < found@.len() ==> internal(views, faces@, #[trigger] found@[k]),
            forall|k: int, face: u64|
                0 <= k < found@.len() && #[trigger] uses(views, face, #[trigger] found@[k])
                    ==> faces@.contains(face),
            forall|j: int, edge: u64|
                0 <= j < i && #[trigger] uses(views, faces@[j], edge) && internal(
                    views,
                    faces@,
                    edge,
                ) ==> found@.contains(edge),
        decreases faces.len() - i,
    {
        let face: u64 = faces[i];
        let ghost start = found@;
        if let Some(info) = infos.get(&face) {
            let mut k: usize = 0;
            while k < info.oes.len()
                invariant
                    k <= info.oes.len(),
                    ascending(faces@),
                    reads_faces(infos@, views),
                    lists_users(users@, views),
                    group@ == faces@.to_set(),
                    face_info(views, face) == Some(info@),
                    forall|m: int|
                        0 <= m < found@.len() ==> internal(views, faces@, #[trigger] found@[m]),
                    forall|m: int, f: u64|
                        0 <= m < found@.len() && #[trigger] uses(views, f, #[trigger] found@[m])
                            ==> faces@.contains(f),
                    forall|edge: u64| start.contains(edge) ==> #[trigger] found@.contains(edge),
                    forall|j: int|
                        0 <= j < k && internal(views, faces@, (#[trigger] info.oes@[j]).1)
                            ==> found@.contains(info.oes@[j].1),
                decreases info.oes.len() - k,
            {
                let edge: u64 = info.oes[k].1;
                let ghost before = found@;
                proof {
                    let known = face_info(views, face)->Some_0;
                    assert(known.oes[k as int].1 == edge);
                    assert(uses(views, face, edge));
                    assert(leads(users@, edge, face));
                }
                if let Some(list) = users.get(&edge) {
                    proof {
                        assert forall|f: u64| #[trigger] list@.contains(f) == uses(views, f, edge) by {
                            assert(leads(users@, edge, f) == uses(views, f, edge));
                        }
                        lemma_internal(views, faces@, list@, edge);
                        assert forall|f: u64| group@.contains(f) == #[trigger] faces@.contains(f) by {}
                    }
                    let (hits, all) = users_in_group(list, &group);
                    if hits >= 2 {
                        proof {
                            let (a, b) = choose|a: int, b: int|
                                0 <= a < b < list@.len() && group@.contains(#[trigger] list@[a])
                                    && group@.contains(#[trigger] list@[b]);
                            assert(faces@.contains(list@[a]) && faces@.contains(list@[b]));
                            assert(internal(views, faces@, edge));
                        }
                        if !all {
                            proof {
                                let a = choose|a: int|
                                    0 <= a < list@.len() && !group@.contains(#[trigger] list@[a]);
                                let f = list@[a];
                                assert(list@.contains(f));
                                assert(uses(views, f, edge));
                                assert(!faces@.contains(f));
                            }
                            return None;
                        }
                        found.push(edge);
                        proof {
                            assert(found@[before.len() as int] == edge);
                            assert forall|f: u64| #[trigger] uses(views, f, edge) implies faces@.contains(
                                f,
                            ) by {
                                assert(list@.contains(f));
                                let a = choose|a: int| 0 <= a < list@.len() && list@[a] == f;
                                assert(group@.contains(list@[a]));
                            }
                        }
                    } else {
                        proof {
                            if internal(views, faces@, edge) {
                                let (a, b) = choose|a: int, b: int|
                                    0 <= a < b < list@.len() && faces@.contains(
                                        #[trigger] list@[a],
                                    ) && faces@.contains(#[trigger] list@[b]);
                                assert(group@.contains(list@[a]) && group@.contains(list@[b]));
                            }
                        }
                    }
                }
                proof {
                    assert forall|e: u64| before.contains(e) implies #[trigger] found@.contains(e) by {
                        let j = choose|j: int| 0 <= j < before.len() && before[j] == e;
                        assert(found@[j] == e);
                    }
                }
                k = k + 1;
            }
            assert forall|j: int, edge: u64|
                0 <= j < i + 1 && #[trigger] uses(views, faces@[j], edge) && internal(
                    views,
                    faces@,
                    edge,
                ) implies found@.contains(edge) by {
                if j == i {
                    let known = face_info(views, face)->Some_0;
                    let m = choose|m: int|
                        0 <= m < known.oes.len() && (#[trigger] known.oes[m]).1 == edge;
                    assert(info.oes@[m].1 == edge);
                } else {
                    assert(start.contains(edge));
                }
            }
        }
        i = i + 1;
    }
    let edges = sorted_ids(&found);
    proof {
        assert forall|edge: u64| #[trigger] edges@.contains(edge) == internal(
            views,
            faces@,
            edge,
        ) by {
            assert(edges@.contains(edge) == found@.contains(edge));
            if found@.contains(edge) {
                let k = choose|k: int| 0 <= k < found@.len() && found@[k] == edge;
                assert(internal(views, faces@, found@[k]));
            }
            if internal(views, faces@, edge) {
                let (a, b) = choose|a: int, b: int|
                    0 <= a < b < faces@.len() && #[trigger] uses(views, faces@[a], edge)
                        && #[trigger] uses(views, faces@[b], edge);
                assert(found@.contains(edge));
            }
        }
        assert forall|edge: u64, face: u64|
            internal(views, faces@, edge) && #[trigger] uses(views, face, edge) implies faces@.contains(
            face,
        ) by {
            assert(edges@.contains(edge));
            assert(found@.contains(edge));
            let k = choose|k: int| 0 <= k < found@.len() && found@[k] == edge;
            assert(uses(views, face, found@[k]));
        }
    }
    Some(edges)
}

/// The oriented edges of faces that are not on one of the inner edges.
fn boundary_of(
    Ghost(views): Ghost<Seq<EntityView>>,
    faces: &Vec<u64>,
    infos: &HashMap<u64, FaceInfo>,
    inner: &Vec<u64>,
) -> (out: Vec<(u64, u64)>)
    requires
        reads_faces(infos@, views),
        forall|i: int| 0 <= i < faces@.len() ==> face_info(views, #[trigger] faces@[i]) is Some,
    ensures
        out@ == boundary(views, faces@, inner@),
{
    let inner_set = set_of(inner);
    let mut out: Vec<(u64, u64)> = Vec::new();
    let mut i: usize = 0;
    assert(faces@.take(0) =~= Seq::empty());
    while i < faces.len()
        invariant
            i <= faces.len(),
            reads_faces(infos@, views),
            forall|j: int| 0 <= j < faces@.len() ==> face_info(views, #[trigger] faces@[j]) is Some,
            inner_set@ == inner@.to_set(),
            out@ == boundary(views, faces@.take(i as int), inner@),
        decreases faces.len() - i,
    {
        let ghost before = out@;
        let ghost oes = face_info(views, faces@[i as int])->Some_0.oes;
        assert(infos@.contains_key(faces@[i as int]));
        if let Some(info) = infos.get(&faces[i]) {
            let mut k: usize = 0;
            assert(oes.take(0) =~= Seq::empty());
            assert(before + outer(oes.take(0), inner@) =~= before);
            while k < info.oes.len()
                invariant
                    k <= info.oes.len(),
                    info.oes@ == oes,
                    inner_set@ == inner@.to_set(),
                    out@ == before + outer(oes.take(k as int), inner@),
                decreases info.oes.len() - k,
            {
                let pair = info.oes[k];
                if !inner_set.contains(&pair.1) {
                    out.push(pair);
                }
                k = k + 1;
                assert(oes.take(k as int).drop_last() =~= oes.take(k - 1));
                assert(out@ =~= before + outer(oes.take(k as int), inner@));
            }
            assert(oes.take(oes.len() as int) =~= oes);
        }
        i = i + 1;
        assert(faces@.take(i as int).drop_last() =~= faces@.take(i - 1));
    }
    assert(faces@.take(faces@.len() as int) =~= faces@);
    out
}

/// Whether no edge occurs twice.
fn has_edges_once(oes: &Vec<(u64, u64)>) -> (out: bool)
    ensures
        out == edges_once(oes@),
{
    let mut seen: HashSet<u64> = HashSet::new();
    let mut i: usize = 0;
    while i < oes.len()
        invariant
            i <= oes.len(),
            forall|j: int| 0 <= j < i ==> seen@.contains((#[trigger] oes@[j]).1),
            forall|edge: u64| #[trigger]
                seen@.contains(edge) ==> exists|j: int|
                    0 <= j < i && (#[trigger] oes@[j]).1 == edge,
            forall|a: int, b: int|
                #![trigger oes@[a], oes@[b]]
                0 <= a < b < i ==> oes@[a].1 != oes@[b].1,
        decreases oes.len() - i,
    {
        let edge: u64 = oes[i].1;
        if seen.contains(&edge) {
            proof {
                let j = choose|j: int| 0 <= j < i && (#[trigger] oes@[j]).1 == edge;
                assert(oes@[j].1 == oes@[i as int].1);
            }
            return false;
        }
        seen.insert(edge);
        i = i + 1;
    }
    true
}

/// Every face of a group can be read.
proof fn lemma_group_reads(entities: Seq<EntityView>, faces: Seq<u64>)
    requires
        is_group(entities, faces),
    ensures
        forall|i: int| 0 <= i < faces.len() ==> face_info(entities, #[trigger] faces[i]) is Some,
{
    let step = adjacency(entities);
    assert forall|i: int| 0 <= i < faces.len() implies face_info(
        entities,
        #[trigger] faces[i],
    ) is Some by {
        let other = if i == 0 {
            faces[1]
        } else {
            faces[i]
        };
        assert(faces[0] != other);
        assert(faces.contains(other));
        let path = choose|path: Seq<u64>| #[trigger]
            is_path(step, path) && path[0] == faces[0] && path.last() == other;
        if i == 0 {
            let z: int = 0;
            assert(step(path[z], path[z + 1]));
        } else {
            let k = path.len() - 2;
            assert(step(path[k], path[k + 1]));
        }
    }
}

/// The plan for a group of faces, if it becomes one face.
fn plan_group(
    entities: &Vec<EntityInstance>,
    index: &HashMap<u64, usize>,
    faces: &Vec<u64>,
    infos: &HashMap<u64, FaceInfo>,
    users: &HashMap<u64, Vec<u64>>,
    styles: &HashMap<u64, Vec<u64>>,
    owners: &HashMap<u64, Vec<u64>>,
) -> (out: Option<MergePlan>)
    requires
        indexes(index@, entities_view(entities@)),
        is_group(entities_view(entities@), faces@),
        reads_faces(infos@, entities_view(entities@)),
        lists_users(users@, entities_view(entities@)),
        forall|target: u64| #[trigger]
            listed(styles@, target) == face_styles(entities_view(entities@), target),
        forall|f: u64, shell: u64| #[trigger]
            leads(owners@, f, shell) == owns(entities_view(entities@), shell, f),
    ensures
        match out {
            Some(plan) => valid_plan(entities_view(entities@), plan@) && plan@.faces == faces@,
            None => forall|plan: PlanView| #[trigger]
                valid_plan(entities_view(entities@), plan) ==> plan.faces != faces@,
        },
{
    let ghost views = entities_view(entities@);
    proof {
        lemma_group_reads(views, faces@);
    }
    let shell: u64 = match find_sole_owner(Ghost(views), owners, faces[0]) {
        Some(shell) => shell,
        None => {
            assert forall|plan: PlanView| #[trigger] valid_plan(views, plan) implies plan.faces
                != faces@ by {
                if plan.faces == faces@ {
                    assert(sole_owner(views, plan.shell, plan.faces[0]));
                }
            }
            return None;
        },
    };
    let mut i: usize = 0;
    while i < faces.len()
        invariant
            i <= faces.len(),
            faces.len() >= 2,
            views == entities_view(entities@),
            sole_owner(views, shell, faces@[0]),
            forall|f: u64, s: u64| #[trigger] leads(owners@, f, s) == owns(views, s, f),
            forall|j: int| 0 <= j < i ==> sole_owner(views, shell, #[trigger] faces@[j]),
        decreases faces.len() - i,
    {
        let same = match find_sole_owner(Ghost(views), owners, faces[i]) {
            Some(other) => other == shell,
            None => false,
        };
        if !same {
            assert forall|plan: PlanView| #[trigger] valid_plan(views, plan) implies plan.faces
                != faces@ by {
                if plan.faces == faces@ {
                    assert(sole_owner(views, plan.shell, plan.faces[0]));
                    assert(owns(views, shell, plan.faces[0]));
                    assert(sole_owner(views, plan.shell, plan.faces[i as int]));
                }
            }
            return None;
        }
        i = i + 1;
    }
    if !faces_look_alike(entities, styles, faces) {
        return None;
    }
    let internal_edges = match internal_edges_of(Ghost(views), faces, infos, users) {
        Some(edges) => edges,
        None => {
            return None;
        },
    };
    let surviving = boundary_of(Ghost(views), faces, infos, &internal_edges);
    proof {
        assert forall|plan: PlanView| #[trigger] valid_plan(views, plan) && plan.faces == faces@ implies
            plan.internal_edges == internal_edges@ by {
            assert forall|e: u64| #[trigger] plan.internal_edges.contains(e)
                == internal_edges@.contains(e) by {}
            lemma_ascending_determined(plan.internal_edges, internal_edges@);
        }
    }
    if !has_edges_once(&surviving) {
        return None;
    }
    match trace_single_loop(&surviving, entities, index) {
        None => {
            assert forall|plan: PlanView| #[trigger] valid_plan(views, plan) implies plan.faces
                != faces@ by {
                if plan.faces == faces@ {
                    assert(single_loop(views, surviving@, plan.loop_oes));
                }
            }
            None
        },
        Some(loop_oes) => {
            assert(infos@.contains_key(faces@[0]) == (face_info(views, faces@[0]) is Some));
            match infos.get(&faces[0]) {
                Some(info) => {
                    let style_delete = other_styles(entities, styles, faces);
                    let mut copy: Vec<u64> = Vec::new();
                    let mut k: usize = 0;
                    while k < faces.len()
                        invariant
                            k <= faces.len(),
                            copy@ == faces@.take(k as int),
                        decreases faces.len() - k,
                    {
                        copy.push(faces[k]);
                        k = k + 1;
                        assert(faces@.take(k as int) =~= faces@.take(k - 1).push(faces@[k - 1]));
                    }
                    assert(copy@ =~= faces@);
                    let plan = MergePlan {
                        faces: copy,
                        shell,
                        support: info.support,
                        sense: info.sense,
                        loop_oes,
                        internal_edges,
                        style_delete,
                    };
                    assert(valid_plan(views, plan@));
                    Some(plan)
                },
                None => None,
            }
        },
    }
}

pub open spec fn plans_view(plans: Seq<MergePlan>) -> Seq<PlanView> {
    Seq::new(plans.len(), |i: int| plans[i]@)
}

proof fn lemma_adjacent_back(entities: Seq<EntityView>, a: u64, b: u64)
    requires
        adjacent(entities, a, b),
    ensures
        adjacent(entities, b, a),
{
    let edge = choose|edge: u64| #[trigger]
        crate::face_groups::only_users(entities, edge, a, b);
    assert(crate::face_groups::only_users(entities, edge, b, a));
}

/// The plans for all groups that become one face.
pub fn find_plans(entities: &Vec<EntityInstance>, index: &HashMap<u64, usize>) -> (out: Vec<
    MergePlan,
>)
    requires
        indexes(index@, entities_view(entities@)),
    ensures
        all_plans(entities_view(entities@), plans_view(out@)),
{
    let ghost views = entities_view(entities@);
    let (faces, infos) = read_faces(entities, index);
    let users = edge_users(Ghost(views), &faces, &infos);
    let table = adjacency_table(Ghost(views), &faces, &infos, &users);
    let styles = styles_by_target(entities);
    let owners = face_shell_owners(entities, index);
    let all = set_of(&faces);
    let ghost step = adjacency(views);
    proof {
        assert(table_step(table@) =~= step) by {
            assert forall|a: u64, b: u64| #[trigger] table_step(table@)(a, b) == step(a, b) by {
                assert(leads(table@, a, b) == adjacent(views, a, b));
            }
        }
        assert(crate::sets::targets(table@, all@)) by {
            assert forall|a: u64, b: u64| #[trigger] leads(table@, a, b) implies all@.contains(b) by {
                assert(adjacent(views, a, b));
                assert(faces@.contains(b));
            }
        }
        vstd::seq_lib::seq_to_set_is_finite(faces@);
        assert forall|x: u64, y: u64| #[trigger] step(x, y) implies step(y, x) by {
            lemma_adjacent_back(views, x, y);
        }
    }
    let mut plans: Vec<MergePlan> = Vec::new();
    let mut seen: HashSet<u64> = HashSet::new();
    let mut i: usize = 0;
    while i < faces.len()
        invariant
            i <= faces.len(),
            views == entities_view(entities@),
            indexes(index@, views),
            ascending(faces@),
            forall|face: u64| #[trigger] faces@.contains(face) == (face_info(views, face) is Some),
            reads_faces(infos@, views),
            lists_users(users@, views),
            step == adjacency(views),
            table_step(table@) == step,
            crate::sets::targets(table@, all@),
            all@ == faces@.to_set(),
            all@.finite(),
            forall|x: u64, y: u64| #[trigger] step(x, y) ==> step(y, x),
            forall|a: u64, b: u64| #[trigger] leads(table@, a, b) == adjacent(views, a, b),
            forall|target: u64| #[trigger] listed(styles@, target) == face_styles(views, target),
            forall|f: u64, shell: u64| #[trigger] leads(owners@, f, shell) == owns(views, shell, f),
            forall|x: u64| #[trigger]
                seen@.contains(x) ==> exists|y: u64| y < x && #[trigger] connected(step, x, y),
            forall|k: int|
                0 <= k < plans@.len() ==> valid_plan(views, (#[trigger] plans@[k])@),
            forall|j: int, k: int|
                #![trigger plans@[j], plans@[k]]
                0 <= j < k < plans@.len() ==> plans@[j]@.faces[0] < plans@[k]@.faces[0],
            forall|k: int, m: int|
                #![trigger plans@[k], faces@[m]]
                0 <= k < plans@.len() && i <= m < faces@.len() ==> plans@[k]@.faces[0] < faces@[m],
            forall|plan: PlanView, m: int|
                #![trigger valid_plan(views, plan), faces@[m]]
                valid_plan(views, plan) && 0 <= m < i && plan.faces[0] == faces@[m]
                    ==> plans_view(plans@).contains(plan),
        decreases faces.len() - i,
    {
        let face: u64 = faces[i];
        let ghost before = plans@;
        assert(faces@.contains(face));
        if !seen.contains(&face) && table.contains_key(&face) {
            let found = connected_ids(&table, face, &all);
            let group = sorted_ids(&found);
            proof {
                crate::sets::lemma_connected_self(step, face);
                assert(found@.contains(face));
                assert(group@.contains(face));
            }
            let mut k: usize = 0;
            while k < group.len()
                invariant
                    k <= group.len(),
                    step == adjacency(views),
                    forall|x: u64, y: u64| #[trigger] step(x, y) ==> step(y, x),
                    ascending(group@),
                    forall|id: u64| #[trigger]
                        group@.contains(id) ==> connected(step, face, id),
                    forall|x: u64| #[trigger]
                        seen@.contains(x) ==> exists|y: u64|
                            y < x && #[trigger] connected(step, x, y),
                decreases group.len() - k,
            {
                let member: u64 = group[k];
                if member > face {
                    proof {
                        assert(group@.contains(member));
                        lemma_connected_back(step, face, member);
                        assert(face < member && connected(step, member, face));
                    }
                    seen.insert(member);
                }
                k = k + 1;
            }
            if group.len() >= 2 && group[0] == face {
                proof {
                    assert forall|f: u64| #[trigger] group@.contains(f) == connected(
                        step,
                        group@[0],
                        f,
                    ) by {
                        assert(group@.contains(f) == found@.contains(f));
                    }
                    assert(is_group(views, group@));
                }
                if let Some(plan) = plan_group(
                    entities,
                    index,
                    &group,
                    &infos,
                    &users,
                    &styles,
                    &owners,
                ) {
                    plans.push(plan);
                    assert(plans@[before.len() as int] == plan);
                }
            }
            proof {
                assert forall|plan: PlanView| #[trigger]
                    valid_plan(views, plan) && plan.faces[0] == face implies plans_view(
                    plans@,
                ).contains(plan) by {
                    assert forall|f: u64| #[trigger] plan.faces.contains(f) == group@.contains(f) by {
                        assert(group@.contains(f) == found@.contains(f));
                    }
                    lemma_ascending_determined(plan.faces, group@);
                    assert(plans@.len() > before.len());
                    let mine = plans@[before.len() as int]@;
                    assert(mine.faces == plan.faces);
                    lemma_plan_determined(views, mine, plan);
                    assert(plans_view(plans@)[before.len() as int] == plan);
                }
            }
        } else {
            proof {
                assert forall|plan: PlanView| #[trigger]
                    valid_plan(views, plan) && plan.faces[0] == face implies plans_view(
                    plans@,
                ).contains(plan) by {
                    if seen@.contains(face) {
                        let y = choose|y: u64| y < face && #[trigger] connected(step, face, y);
                        assert(plan.faces.contains(y));
                        let m = choose|m: int| 0 <= m < plan.faces.len() && plan.faces[m] == y;
                        assert(plan.faces[0] <= plan.faces[m]);
                        assert(false);
                    } else {
                        let other = plan.faces[1];
                        assert(plan.faces.contains(other));
                        assert(plan.faces[0] < other);
                        let path = choose|path: Seq<u64>| #[trigger]
                            is_path(step, path) && path[0] == face && path.last() == other;
                        let z: int = 0;
                        assert(step(path[z], path[z + 1]));
                        assert(adjacent(views, face, path[1]));
                        assert(leads(table@, face, path[1]));
                        assert(false);
                    }
                }
            }
        }
        proof {
            assert forall|plan: PlanView, m: int|
                #![trigger valid_plan(views, plan), faces@[m]]
                valid_plan(views, plan) && 0 <= m < i + 1 && plan.faces[0] == faces@[m] implies
                plans_view(plans@).contains(plan) by {
                if m < i {
                    assert(plans_view(before).contains(plan));
                    let k = choose|k: int|
                        0 <= k < plans_view(before).len() && plans_view(before)[k] == plan;
                    assert(plans_view(plans@)[k] == plan);
                }
            }
        }
        i = i + 1;
    }
    proof {
        assert forall|plan: PlanView| #[trigger] plans_view(plans@).contains(plan) == valid_plan(
            views,
            plan,
        ) by {
            if plans_view(plans@).contains(plan) {
                let k = choose|k: int|
                    0 <= k < plans_view(plans@).len() && plans_view(plans@)[k] == plan;
                assert(valid_plan(views, plans@[k]@));
            }
            if valid_plan(views, plan) {
                lemma_group_reads(views, plan.faces);
                assert(face_info(views, plan.faces[0]) is Some);
                assert(faces@.contains(plan.faces[0]));
                let m = choose|m: int| 0 <= m < faces@.len() && faces@[m] == plan.faces[0];
                assert(faces@[m] == plan.faces[0]);
            }
        }
    }
    plans
}

/// A group of faces has one plan at most.
pub proof fn lemma_plan_determined(entities: Seq<EntityView>, a: PlanView, b: PlanView)
    requires
        valid_plan(entities, a),
        valid_plan(entities, b),
        a.faces == b.faces,
    ensures
        a == b,
{
    assert forall|e: u64| #[trigger] a.internal_edges.contains(e) == b.internal_edges.contains(e) by {}
    lemma_ascending_determined(a.internal_edges, b.internal_edges);
    assert(sole_owner(entities, a.shell, a.faces[0]));
    assert(sole_owner(entities, b.shell, b.faces[0]));
    assert(owns(entities, b.shell, a.faces[0]));
    law_loop_is_unique(
        entities,
        boundary(entities, a.faces, a.internal_edges),
        a.loop_oes,
        b.loop_oes,
    );
}

} // verus!
