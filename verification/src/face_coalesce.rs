//! Merging of faces that continue each other on one surface.

use std::collections::HashSet;
use vstd::prelude::*;

use crate::ast::{
    clone_entities, clone_params, entities_view, lemma_list_view, params_view, EntityInstance,
    EntityView, NameView, ParamView, Parameter, Record, RecordView,
};
use crate::face_plan::{all_plans, find_plans, plans_view, valid_plan, MergePlan, PlanView};
use crate::graph::{
    all_are_refs, build_index, dead, descendants, entity_ref, entity_ref_value, find_dead, indexes,
    largest_id, lemma_position, max_id, nth, nth_ref_list, position, push_simple, reachable,
    ref_value, remove_entities, simple_entity, without,
};
use crate::minify::capped;
use crate::sets::{list_contains, set_of};
use crate::text::same_text;

verus! {

broadcast use vstd::std_specs::hash::group_hash_axioms;

/// What the pass has merged.
#[derive(Debug, Clone, Copy, PartialEq, Eq, Structural)]
pub struct FaceCoalesceStats {
    pub groups: usize,
    pub faces_merged: usize,
    pub faces_removed: usize,
    pub internal_edges_removed: usize,
    pub styles_removed: usize,
    pub entities_removed: usize,
}

pub open spec fn no_stats() -> FaceCoalesceStats {
    FaceCoalesceStats {
        groups: 0,
        faces_merged: 0,
        faces_removed: 0,
        internal_edges_removed: 0,
        styles_removed: 0,
        entities_removed: 0,
    }
}

pub open spec fn ref_param(id: u64) -> ParamView {
    ParamView::Ref(NameView::Entity(id))
}

/// References to entities.
pub open spec fn ref_params(ids: Seq<u64>) -> Seq<ParamView> {
    Seq::new(ids.len(), |i: int| ref_param(ids[i]))
}

pub open spec fn truth(value: bool) -> ParamView {
    ParamView::Enumeration(
        if value {
            "T"@
        } else {
            "F"@
        },
    )
}

/// A face with one outer bound. It keeps its name.
pub open spec fn merged_face(entity: EntityView, bound: u64, support: u64, sense: bool) -> EntityView {
    match entity {
        EntityView::Simple { id, record } => simple_entity(
            id,
            record.name,
            seq![
                nth(record, 0)->Some_0,
                ParamView::List(seq![ref_param(bound)]),
                ref_param(support),
                truth(sense),
            ],
        ),
        EntityView::Complex { .. } => entity,
    }
}

/// The entities with the new loop and bound of a plan, and with its first face on them.
pub open spec fn with_plan(entities: Seq<EntityView>, plan: PlanView, loop_id: u64) -> Seq<
    EntityView,
> {
    let bound_id = (loop_id + 1) as u64;
    let longer = entities.push(
        simple_entity(
            loop_id,
            "EDGE_LOOP"@,
            seq![ParamView::String(Seq::empty()), ParamView::List(ref_params(plan.loop_oes))],
        ),
    ).push(
        simple_entity(
            bound_id,
            "FACE_OUTER_BOUND"@,
            seq![ParamView::String(Seq::empty()), ref_param(loop_id), truth(true)],
        ),
    );
    let at = position(entities, plan.faces[0])->Some_0;
    longer.update(at, merged_face(longer[at], bound_id, plan.support, plan.sense))
}

/// The entities after the first `n` plans. New ids follow `last`.
pub open spec fn with_plans(
    entities: Seq<EntityView>,
    plans: Seq<PlanView>,
    n: nat,
    last: u64,
) -> Seq<EntityView>
    decreases n,
{
    if n == 0 {
        entities
    } else {
        with_plan(
            with_plans(entities, plans, (n - 1) as nat, last),
            plans[n - 1],
            (last + 2 * n - 1) as u64,
        )
    }
}

/// The face that stands for a face of a shell.
pub open spec fn canonical(plans: Seq<PlanView>, shell: u64, face: u64) -> u64
    decreases plans.len(),
{
    if plans.len() == 0 {
        face
    } else if plans.last().shell == shell && plans.last().faces.contains(face) {
        plans.last().faces[0]
    } else {
        canonical(plans.drop_last(), shell, face)
    }
}

/// Whether a face stands for a group of a shell.
pub open spec fn is_canonical(plans: Seq<PlanView>, shell: u64, face: u64) -> bool {
    exists|k: int|
        0 <= k < plans.len() && (#[trigger] plans[k]).shell == shell && plans[k].faces[0] == face
}

/// The faces of a shell after merging. A merged face stands where the first of its group did.
pub open spec fn shell_list(plans: Seq<PlanView>, shell: u64, faces: Seq<u64>) -> Seq<u64>
    decreases faces.len(),
{
    if faces.len() == 0 {
        Seq::empty()
    } else {
        let rest = shell_list(plans, shell, faces.drop_last());
        let new = canonical(plans, shell, faces.last());
        if is_canonical(plans, shell, new) && rest.contains(new) {
            rest
        } else {
            rest.push(new)
        }
    }
}

/// The name of a shell after merging.
pub open spec fn shell_name(name: ParamView) -> ParamView {
    if name == ParamView::String(Seq::empty()) || name == ParamView::String("NONE"@) {
        ParamView::String("step-redox merged same-support faces"@)
    } else {
        name
    }
}

/// A shell after merging, if it is one.
pub open spec fn merged_shell(entity: EntityView, plans: Seq<PlanView>, shell: u64) -> Option<
    EntityView,
> {
    match entity {
        EntityView::Simple { id, record } => match (record.parameter, nth_ref_list(record, 1)) {
            (ParamView::List(params), Some(faces)) if record.name == "OPEN_SHELL"@ || record.name
                == "CLOSED_SHELL"@ => Some(
                simple_entity(
                    id,
                    record.name,
                    params.update(
                        1,
                        ParamView::List(ref_params(shell_list(plans, shell, faces))),
                    ).update(0, shell_name(params[0])),
                ),
            ),
            _ => None,
        },
        EntityView::Complex { .. } => None,
    }
}

/// Whether an earlier plan is for the same shell.
pub open spec fn shell_done(plans: Seq<PlanView>, n: int) -> bool {
    exists|k: int| 0 <= k < n && (#[trigger] plans[k]).shell == plans[n].shell
}

/// The entities with the shells of the first `n` plans rewritten, or nothing where one of
/// them is no shell.
pub open spec fn with_shells(entities: Seq<EntityView>, plans: Seq<PlanView>, n: nat) -> Option<
    Seq<EntityView>,
>
    decreases n,
{
    if n == 0 {
        Some(entities)
    } else {
        match with_shells(entities, plans, (n - 1) as nat) {
            None => None,
            Some(done) => if shell_done(plans, n - 1) {
                Some(done)
            } else {
                match position(done, plans[n - 1].shell) {
                    None => None,
                    Some(at) => match merged_shell(done[at], plans, plans[n - 1].shell) {
                        None => None,
                        Some(shell) => Some(done.update(at, shell)),
                    },
                }
            },
        }
    }
}

/// The references of a list that are not to be dropped.
pub open spec fn kept_refs(items: Seq<ParamView>, drop: Set<u64>) -> Seq<ParamView>
    decreases items.len(),
{
    if items.len() == 0 {
        Seq::empty()
    } else {
        let rest = kept_refs(items.drop_last(), drop);
        match ref_value(items.last()) {
            Some(id) if drop.contains(id) => rest,
            _ => rest.push(items.last()),
        }
    }
}

/// A parameter without some references, where they stand in a list of nothing but references.
pub open spec fn dropped(p: ParamView, drop: Set<u64>) -> ParamView
    decreases p,
{
    match p {
        ParamView::List(items) => if items.len() > 0 && all_are_refs(items) {
            ParamView::List(kept_refs(items, drop))
        } else {
            ParamView::List(
                Seq::new(
                    items.len(),
                    |i: int|
                        if 0 <= i < items.len() {
                            dropped(items[i], drop)
                        } else {
                            ParamView::Omitted
                        },
                ),
            )
        },
        ParamView::Typed { keyword, parameter } => ParamView::Typed {
            keyword,
            parameter: Box::new(dropped(*parameter, drop)),
        },
        other => other,
    }
}

pub open spec fn presentation_type(name: Seq<char>) -> bool {
    name == "MECHANICAL_DESIGN_GEOMETRIC_PRESENTATION_REPRESENTATION"@ || name
        == "PRESENTATION_LAYER_ASSIGNMENT"@
}

/// A presentation root without some items.
pub open spec fn without_items(entity: EntityView, drop: Set<u64>) -> EntityView {
    match entity {
        EntityView::Simple { id, record } if presentation_type(record.name) => EntityView::Simple {
            id,
            record: RecordView {
                name: record.name,
                parameter: dropped(record.parameter, drop),
            },
        },
        _ => entity,
    }
}

pub open spec fn roots_without(entities: Seq<EntityView>, drop: Set<u64>) -> Seq<EntityView> {
    Seq::new(entities.len(), |i: int| without_items(entities[i], drop))
}

/// The ids in the lists of the first `n` plans.
pub open spec fn plan_styles(plans: Seq<PlanView>, n: nat) -> Seq<u64>
    decreases n,
{
    if n == 0 {
        Seq::empty()
    } else {
        plan_styles(plans, (n - 1) as nat) + plans[n - 1].style_delete
    }
}

pub open spec fn plan_faces(plans: Seq<PlanView>, n: nat) -> Seq<u64>
    decreases n,
{
    if n == 0 {
        Seq::empty()
    } else {
        plan_faces(plans, (n - 1) as nat) + plans[n - 1].faces
    }
}

pub open spec fn plan_leaders(plans: Seq<PlanView>) -> Seq<u64> {
    Seq::new(plans.len(), |i: int| plans[i].faces[0])
}

pub open spec fn plan_edges(plans: Seq<PlanView>, n: nat) -> nat
    decreases n,
{
    if n == 0 {
        0
    } else {
        plan_edges(plans, (n - 1) as nat) + plans[n - 1].internal_edges.len()
    }
}

/// The entities after all rewriting, before anything is given up.
pub open spec fn rewritten(entities: Seq<EntityView>, plans: Seq<PlanView>) -> Option<
    Seq<EntityView>,
> {
    match with_shells(
        with_plans(entities, plans, plans.len(), max_id(entities)),
        plans,
        plans.len(),
    ) {
        None => None,
        Some(done) => Some(
            roots_without(done, plan_styles(plans, plans.len()).to_set()),
        ),
    }
}

/// What may be given up: what could be reached from the merged faces, and the styled items of
/// the faces that are gone.
pub open spec fn may_go(entities: Seq<EntityView>, plans: Seq<PlanView>, id: u64) -> bool {
    reachable(entities, plan_faces(plans, plans.len()), id) || plan_styles(
        plans,
        plans.len(),
    ).contains(id)
}

/// Ids that are given up.
pub open spec fn given_up(
    done: Seq<EntityView>,
    candidates: Seq<u64>,
    plans: Seq<PlanView>,
) -> Set<u64> {
    Set::new(|id: u64| dead(done, candidates, plan_leaders(plans).to_set(), id))
}

/// What a pass with these plans counts.
pub open spec fn plan_stats(plans: Seq<PlanView>, gone: Set<u64>) -> FaceCoalesceStats {
    let faces = plan_faces(plans, plans.len()).len();
    FaceCoalesceStats {
        groups: plans.len() as usize,
        faces_merged: capped(faces),
        faces_removed: capped((faces - plans.len()) as nat),
        internal_edges_removed: capped(plan_edges(plans, plans.len())),
        styles_removed: plan_styles(plans, plans.len()).to_set().len() as usize,
        entities_removed: gone.len() as usize,
    }
}

/// What the pass makes of entities. Where there is nothing to merge, or a face is listed by
/// something that is no shell, it leaves them as they are.
pub open spec fn coalesces(
    entities: Seq<EntityView>,
    plans: Seq<PlanView>,
    candidates: Seq<u64>,
    result: Seq<EntityView>,
    stats: FaceCoalesceStats,
) -> bool {
    &&& all_plans(entities, plans)
    &&& forall|id: u64| #[trigger] candidates.contains(id) == may_go(entities, plans, id)
    &&& if plans.len() == 0 || !ids_fit(entities, plans) || rewritten(entities, plans) is None {
        result == entities && stats == no_stats()
    } else {
        let done = rewritten(entities, plans)->Some_0;
        let gone = given_up(done, candidates, plans);
        result == without(done, gone) && stats == plan_stats(plans, gone)
    }
}

/// There are ids left for the new loops and bounds.
pub open spec fn ids_fit(entities: Seq<EntityView>, plans: Seq<PlanView>) -> bool {
    max_id(entities) + 2 * plans.len() <= u64::MAX
}

pub(crate) fn truth_param(value: bool) -> (out: Parameter)
    ensures
        out@ == truth(value),
{
    if value {
        Parameter::Enumeration("T".to_owned())
    } else {
        Parameter::Enumeration("F".to_owned())
    }
}

pub(crate) fn ref_list_param(ids: &Vec<u64>) -> (out: Parameter)
    ensures
        out@ == ParamView::List(ref_params(ids@)),
{
    let mut items: Vec<Parameter> = Vec::new();
    let mut i: usize = 0;
    while i < ids.len()
        invariant
            i <= ids.len(),
            items.len() == i,
            forall|j: int| 0 <= j < i ==> (#[trigger] items@[j])@ == ref_param(ids@[j]),
        decreases ids.len() - i,
    {
        items.push(entity_ref(ids[i]));
        i = i + 1;
    }
    proof {
        lemma_list_view(items);
        assert(params_view(items@) =~= ref_params(ids@));
    }
    Parameter::List(items)
}

/// A copy of a face with one outer bound.
fn merge_face(entity: &EntityInstance, bound: u64, support: u64, sense: bool) -> (out:
    EntityInstance)
    requires
        entity@ matches EntityView::Simple { record, .. } ==> nth(record, 0) is Some,
    ensures
        out@ == merged_face(entity@, bound, support, sense),
{
    match entity {
        EntityInstance::Complex { .. } => entity.clone(),
        EntityInstance::Simple { id, record } => {
            let name = match crate::graph::nth_param(record, 0) {
                Some(name) => name.clone(),
                None => Parameter::Omitted,
            };
            let mut bounds: Vec<Parameter> = Vec::new();
            bounds.push(entity_ref(bound));
            proof {
                lemma_list_view(bounds);
                assert(params_view(bounds@) =~= seq![ref_param(bound)]);
            }
            let mut params: Vec<Parameter> = Vec::new();
            params.push(name);
            params.push(Parameter::List(bounds));
            params.push(entity_ref(support));
            params.push(truth_param(sense));
            proof {
                lemma_list_view(params);
                assert(params_view(params@) =~= merged_face(
                    entity@,
                    bound,
                    support,
                    sense,
                )->record.parameter->List_0);
            }
            EntityInstance::Simple {
                id: *id,
                record: Record { name: record.name.clone(), parameter: Parameter::List(params) },
            }
        },
    }
}

pub proof fn lemma_position_pushed(entities: Seq<EntityView>, entity: EntityView, id: u64)
    requires
        entity.id() != id,
    ensures
        position(entities.push(entity), id) == position(entities, id),
{
    assert(entities.push(entity).drop_last() =~= entities);
}

pub proof fn lemma_position_updated(entities: Seq<EntityView>, at: int, entity: EntityView, id: u64)
    requires
        0 <= at < entities.len(),
        entity.id() == entities[at].id(),
    ensures
        position(entities.update(at, entity), id) == position(entities, id),
    decreases entities.len(),
{
    let changed = entities.update(at, entity);
    if at == entities.len() - 1 {
        assert(changed.drop_last() =~= entities.drop_last());
    } else {
        assert(changed.drop_last() =~= entities.drop_last().update(at, entity));
        lemma_position_updated(entities.drop_last(), at, entity, id);
    }
}

pub proof fn lemma_max_id(entities: Seq<EntityView>, i: int)
    requires
        0 <= i < entities.len(),
    ensures
        entities[i].id() <= max_id(entities),
    decreases entities.len(),
{
    if i < entities.len() - 1 {
        assert(entities.drop_last()[i] == entities[i]);
        lemma_max_id(entities.drop_last(), i);
    }
}

/// Whether a face stands at a position and has a name.
pub open spec fn stands_at(entities: Seq<EntityView>, at: int, face: u64) -> bool {
    &&& 0 <= at < entities.len()
    &&& entities[at] matches EntityView::Simple { id, record }
    &&& id == face
    &&& nth(record, 0) is Some
}

/// Whether there is a face that can get another bound.
pub open spec fn can_be_merged(entities: Seq<EntityView>, face: u64) -> bool {
    &&& position(entities, face) matches Some(at)
    &&& stands_at(entities, at, face)
}

proof fn lemma_leader(entities: Seq<EntityView>, plan: PlanView)
    requires
        valid_plan(entities, plan),
    ensures
        can_be_merged(entities, plan.faces[0]),
        plan.faces[0] <= max_id(entities),
        plan.faces.len() > 0,
{
    let face = plan.faces[0];
    lemma_position(entities, face);
    lemma_max_id(entities, position(entities, face)->Some_0);
}

/// One plan leaves every entity where it is.
proof fn lemma_plan_keeps(entities: Seq<EntityView>, plan: PlanView, loop_id: u64)
    requires
        can_be_merged(entities, plan.faces[0]),
        loop_id < u64::MAX,
    ensures
        with_plan(entities, plan, loop_id).len() == entities.len() + 2,
        forall|id: u64|
            id < loop_id ==> #[trigger] position(with_plan(entities, plan, loop_id), id)
                == position(entities, id),
        forall|at: int, face: u64|
            stands_at(entities, at, face) ==> #[trigger] stands_at(
                with_plan(entities, plan, loop_id),
                at,
                face,
            ),
{
    let bound_id = (loop_id + 1) as u64;
    let first = simple_entity(
        loop_id,
        "EDGE_LOOP"@,
        seq![ParamView::String(Seq::empty()), ParamView::List(ref_params(plan.loop_oes))],
    );
    let second = simple_entity(
        bound_id,
        "FACE_OUTER_BOUND"@,
        seq![ParamView::String(Seq::empty()), ref_param(loop_id), truth(true)],
    );
    let longer = entities.push(first).push(second);
    let at = position(entities, plan.faces[0])->Some_0;
    let face = merged_face(longer[at], bound_id, plan.support, plan.sense);
    let now = with_plan(entities, plan, loop_id);
    assert(now == longer.update(at, face));
    assert(longer[at] == entities[at]);
    assert(face.id() == longer[at].id());
    assert forall|id: u64| id < loop_id implies #[trigger] position(now, id) == position(
        entities,
        id,
    ) by {
        lemma_position_pushed(entities, first, id);
        lemma_position_pushed(entities.push(first), second, id);
        lemma_position_updated(longer, at, face, id);
    }
    assert forall|there: int, f: u64| stands_at(entities, there, f) implies #[trigger] stands_at(
        now,
        there,
        f,
    ) by {
        assert(longer[there] == entities[there]);
    }
}

/// The plans leave every entity where it is.
proof fn lemma_plans_keep(entities: Seq<EntityView>, plans: Seq<PlanView>, n: nat)
    requires
        n <= plans.len(),
        ids_fit(entities, plans),
        forall|k: int|
            0 <= k < plans.len() ==> can_be_merged(entities, (#[trigger] plans[k]).faces[0])
                && plans[k].faces[0] <= max_id(entities),
    ensures
        with_plans(entities, plans, n, max_id(entities)).len() == entities.len() + 2 * n,
        forall|id: u64|
            id <= max_id(entities) ==> #[trigger] position(
                with_plans(entities, plans, n, max_id(entities)),
                id,
            ) == position(entities, id),
        forall|at: int, face: u64|
            stands_at(entities, at, face) ==> #[trigger] stands_at(
                with_plans(entities, plans, n, max_id(entities)),
                at,
                face,
            ),
    decreases n,
{
    let last = max_id(entities);
    if n > 0 {
        let m = (n - 1) as nat;
        lemma_plans_keep(entities, plans, m);
        let before = with_plans(entities, plans, m, last);
        let plan = plans[m as int];
        let loop_id = (last + 2 * n - 1) as u64;
        let face = plan.faces[0];
        assert(position(before, face) == position(entities, face));
        assert(stands_at(before, position(entities, face)->Some_0, face));
        lemma_plan_keeps(before, plan, loop_id);
        let now = with_plan(before, plan, loop_id);
        assert(with_plans(entities, plans, n, last) == now);
        assert forall|id: u64| id <= last implies #[trigger] position(now, id) == position(
            entities,
            id,
        ) by {
            assert(position(before, id) == position(entities, id));
        }
        assert forall|at: int, f: u64| stands_at(entities, at, f) implies #[trigger] stands_at(
            now,
            at,
            f,
        ) by {
            assert(stands_at(before, at, f));
        }
    }
}

/// Adds a new loop and bound and puts the first face of a plan on them.
fn add_plan(entities: &mut Vec<EntityInstance>, plan: &MergePlan, at: usize, loop_id: u64)
    requires
        plan.faces@.len() > 0,
        loop_id < u64::MAX,
        position(entities_view(old(entities)@), plan.faces@[0]) == Some(at as int),
        stands_at(entities_view(old(entities)@), at as int, plan.faces@[0]),
    ensures
        entities_view(final(entities)@) == with_plan(
            entities_view(old(entities)@),
            plan@,
            loop_id,
        ),
{
    let ghost before = entities_view(entities@);
    let mut loop_params: Vec<Parameter> = Vec::new();
    loop_params.push(Parameter::String(String::new()));
    loop_params.push(ref_list_param(&plan.loop_oes));
    assert(params_view(loop_params@) =~= seq![
        ParamView::String(Seq::empty()),
        ParamView::List(ref_params(plan@.loop_oes)),
    ]);
    push_simple(entities, loop_id, "EDGE_LOOP", loop_params);
    let mut bound_params: Vec<Parameter> = Vec::new();
    bound_params.push(Parameter::String(String::new()));
    bound_params.push(entity_ref(loop_id));
    bound_params.push(truth_param(true));
    assert(params_view(bound_params@) =~= seq![
        ParamView::String(Seq::empty()),
        ref_param(loop_id),
        truth(true),
    ]);
    push_simple(entities, loop_id + 1, "FACE_OUTER_BOUND", bound_params);
    let ghost longer = entities_view(entities@);
    assert(longer[at as int] == before[at as int]);
    let n: usize = entities.len();
    assert(longer.len() == n);
    assert(longer[at as int] == entities@[at as int]@);
    let merged = merge_face(&entities[at], loop_id + 1, plan.support, plan.sense);
    let ghost merged_view = merged@;
    entities.set(at, merged);
    assert(entities_view(entities@) =~= longer.update(at as int, merged_view));
}

/// Adds the new loops and bounds and puts the first faces on them.
fn add_plans(entities: &mut Vec<EntityInstance>, plans: &Vec<MergePlan>, last: u64)
    requires
        last == max_id(entities_view(old(entities)@)),
        ids_fit(entities_view(old(entities)@), plans_view(plans@)),
        forall|k: int|
            0 <= k < plans@.len() ==> can_be_merged(
                entities_view(old(entities)@),
                (#[trigger] plans@[k]).faces@[0],
            ) && plans@[k].faces@[0] <= last && plans@[k].faces@.len() > 0,
    ensures
        entities_view(final(entities)@) == with_plans(
            entities_view(old(entities)@),
            plans_view(plans@),
            plans@.len(),
            last,
        ),
{
    let ghost start = entities_view(entities@);
    let ghost views = plans_view(plans@);
    let index = build_index(entities);
    let mut k: usize = 0;
    assert forall|j: int| 0 <= j < views.len() implies can_be_merged(
        start,
        (#[trigger] views[j]).faces[0],
    ) && views[j].faces[0] <= last by {
        assert(views[j] == plans@[j]@);
    }
    while k < plans.len()
        invariant
            k <= plans.len(),
            views == plans_view(plans@),
            last == max_id(start),
            ids_fit(start, views),
            indexes(index@, start),
            forall|j: int|
                0 <= j < views.len() ==> can_be_merged(start, (#[trigger] views[j]).faces[0])
                    && views[j].faces[0] <= last,
            forall|j: int| 0 <= j < plans@.len() ==> (#[trigger] plans@[j]).faces@.len() > 0,
            entities_view(entities@) == with_plans(start, views, k as nat, last),
        decreases plans.len() - k,
    {
        let plan = &plans[k];
        proof {
            lemma_plans_keep(start, views, k as nat);
            assert(views[k as int] == plan@);
            let face = plan.faces@[0];
            assert(can_be_merged(start, views[k as int].faces[0]));
            assert(position(with_plans(start, views, k as nat, last), face) == position(
                start,
                face,
            ));
            assert(stands_at(
                with_plans(start, views, k as nat, last),
                position(start, face)->Some_0,
                face,
            ));
            assert(index@.contains_key(face));
        }
        let loop_id: u64 = last + 2 * (k as u64) + 1;
        match index.get(&plan.faces[0]) {
            Some(at) => {
                add_plan(entities, plan, *at, loop_id);
            },
            None => {
                assert(false);
            },
        }
        k = k + 1;
    }
}

/// The face that stands for a face of a shell.
fn find_canonical(plans: &Vec<MergePlan>, shell: u64, face: u64) -> (out: u64)
    requires
        forall|k: int| 0 <= k < plans@.len() ==> (#[trigger] plans@[k]).faces@.len() > 0,
    ensures
        out == canonical(plans_view(plans@), shell, face),
{
    let ghost views = plans_view(plans@);
    let mut n: usize = plans.len();
    assert(views.take(n as int) =~= views);
    while n > 0
        invariant
            n <= plans.len(),
            views == plans_view(plans@),
            forall|k: int| 0 <= k < plans@.len() ==> (#[trigger] plans@[k]).faces@.len() > 0,
            canonical(views, shell, face) == canonical(views.take(n as int), shell, face),
        decreases n,
    {
        let ghost part = views.take(n as int);
        assert(part.last() == plans@[n - 1]@);
        assert(part.drop_last() =~= views.take(n - 1));
        if plans[n - 1].shell == shell && list_contains(&plans[n - 1].faces, face) {
            return plans[n - 1].faces[0];
        }
        n = n - 1;
    }
    assert(views.take(0) =~= Seq::empty());
    face
}

fn stands_for_group(plans: &Vec<MergePlan>, shell: u64, face: u64) -> (out: bool)
    requires
        forall|k: int| 0 <= k < plans@.len() ==> (#[trigger] plans@[k]).faces@.len() > 0,
    ensures
        out == is_canonical(plans_view(plans@), shell, face),
{
    let mut k: usize = 0;
    while k < plans.len()
        invariant
            k <= plans.len(),
            forall|j: int| 0 <= j < plans@.len() ==> (#[trigger] plans@[j]).faces@.len() > 0,
            forall|j: int|
                0 <= j < k ==> !((#[trigger] plans_view(plans@)[j]).shell == shell && plans_view(
                    plans@,
                )[j].faces[0] == face),
        decreases plans.len() - k,
    {
        if plans[k].shell == shell && plans[k].faces[0] == face {
            assert(plans_view(plans@)[k as int].shell == shell);
            return true;
        }
        k = k + 1;
    }
    false
}

/// A copy of a shell after merging.
pub fn rewrite_shell_faces(entity: &EntityInstance, plans: &Vec<MergePlan>, shell: u64) -> (out:
    Option<EntityInstance>)
    requires
        forall|k: int| 0 <= k < plans@.len() ==> (#[trigger] plans@[k]).faces@.len() > 0,
    ensures
        out is Some == merged_shell(entity@, plans_view(plans@), shell) is Some,
        out matches Some(copy) ==> merged_shell(entity@, plans_view(plans@), shell) == Some(copy@),
{
    let ghost views = plans_view(plans@);
    match entity {
        EntityInstance::Complex { .. } => None,
        EntityInstance::Simple { id, record } => {
            if !same_text(record.name.as_str(), "OPEN_SHELL") && !same_text(
                record.name.as_str(),
                "CLOSED_SHELL",
            ) {
                return None;
            }
            match (&record.parameter, crate::graph::nth_entity_ref_list(record, 1)) {
                (Parameter::List(params), Some(faces)) => {
                    proof {
                        lemma_list_view(*params);
                    }
                    let mut list: Vec<u64> = Vec::new();
                    let mut seen: HashSet<u64> = HashSet::new();
                    let mut i: usize = 0;
                    assert(faces@.take(0) =~= Seq::empty());
                    while i < faces.len()
                        invariant
                            i <= faces.len(),
                            views == plans_view(plans@),
                            forall|k: int|
                                0 <= k < plans@.len() ==> (#[trigger] plans@[k]).faces@.len() > 0,
                            list@ == shell_list(views, shell, faces@.take(i as int)),
                            forall|f: u64| #[trigger] seen@.contains(f) == list@.contains(f),
                        decreases faces.len() - i,
                    {
                        let new: u64 = find_canonical(plans, shell, faces[i]);
                        let ghost before = list@;
                        assert(faces@.take(i + 1).drop_last() =~= faces@.take(i as int));
                        if !(stands_for_group(plans, shell, new) && seen.contains(&new)) {
                            list.push(new);
                            seen.insert(new);
                            proof {
                                assert(list@[before.len() as int] == new);
                                assert forall|f: u64| #[trigger] list@.contains(f) == (f == new
                                    || before.contains(f)) by {
                                    if before.contains(f) {
                                        let j = choose|j: int|
                                            0 <= j < before.len() && before[j] == f;
                                        assert(list@[j] == f);
                                    }
                                }
                            }
                        }
                        i = i + 1;
                    }
                    assert(faces@.take(faces@.len() as int) =~= faces@);
                    let mut copy = clone_params(params);
                    let ghost before = copy@;
                    let rename = match &params[0] {
                        Parameter::String(name) => {
                            same_text(name.as_str(), "") || same_text(name.as_str(), "NONE")
                        },
                        _ => false,
                    };
                    proof {
                        reveal_strlit("");
                        assert(""@ =~= Seq::empty());
                        assert(params_view(before).len() == params_view(params@).len());
                        assert forall|j: int| 0 <= j < params@.len() implies (
                        #[trigger] before[j])@ == params@[j]@ by {
                            assert(params_view(before)[j] == params_view(params@)[j]);
                        }
                    }
                    let list_param = ref_list_param(&list);
                    let ghost list_view = list_param@;
                    copy.set(1, list_param);
                    if rename {
                        copy.set(
                            0,
                            Parameter::String("step-redox merged same-support faces".to_owned()),
                        );
                    }
                    proof {
                        lemma_list_view(copy);
                        assert(params_view(copy@) =~= params_view(params@).update(
                            1,
                            list_view,
                        ).update(0, shell_name(params_view(params@)[0])));
                    }
                    Some(
                        EntityInstance::Simple {
                            id: *id,
                            record: Record {
                                name: record.name.clone(),
                                parameter: Parameter::List(copy),
                            },
                        },
                    )
                },
                _ => None,
            }
        },
    }
}

/// Whether an earlier plan is for the same shell.
fn shell_was_done(plans: &Vec<MergePlan>, n: usize) -> (out: bool)
    requires
        n < plans.len(),
    ensures
        out == shell_done(plans_view(plans@), n as int),
{
    let mut k: usize = 0;
    while k < n
        invariant
            k <= n < plans.len(),
            forall|j: int|
                0 <= j < k ==> (#[trigger] plans_view(plans@)[j]).shell != plans@[n as int].shell,
        decreases n - k,
    {
        if plans[k].shell == plans[n].shell {
            assert(plans_view(plans@)[k as int].shell == plans_view(plans@)[n as int].shell);
            return true;
        }
        k = k + 1;
    }
    false
}

proof fn lemma_shells_prefix(entities: Seq<EntityView>, plans: Seq<PlanView>, n: nat, m: nat)
    requires
        n <= m,
        with_shells(entities, plans, n) is None,
    ensures
        with_shells(entities, plans, m) is None,
    decreases m,
{
    if n < m {
        lemma_shells_prefix(entities, plans, n, (m - 1) as nat);
    }
}

/// Rewrites the shells of all plans.
fn rewrite_shells(entities: &mut Vec<EntityInstance>, plans: &Vec<MergePlan>) -> (done: bool)
    requires
        forall|k: int| 0 <= k < plans@.len() ==> (#[trigger] plans@[k]).faces@.len() > 0,
    ensures
        done == with_shells(
            entities_view(old(entities)@),
            plans_view(plans@),
            plans@.len(),
        ) is Some,
        done ==> with_shells(entities_view(old(entities)@), plans_view(plans@), plans@.len())
            == Some(entities_view(final(entities)@)),
{
    let ghost start = entities_view(entities@);
    let ghost views = plans_view(plans@);
    let mut k: usize = 0;
    while k < plans.len()
        invariant
            k <= plans.len(),
            start == entities_view(old(entities)@),
            views == plans_view(plans@),
            forall|j: int| 0 <= j < plans@.len() ==> (#[trigger] plans@[j]).faces@.len() > 0,
            with_shells(start, views, k as nat) == Some(entities_view(entities@)),
        decreases plans.len() - k,
    {
        let ghost now = entities_view(entities@);
        assert(views[k as int] == plans@[k as int]@);
        if !shell_was_done(plans, k) {
            let shell: u64 = plans[k].shell;
            let index = build_index(entities);
            proof {
                lemma_position(now, shell);
            }
            let found = match index.get(&shell) {
                Some(at) => Some(*at),
                None => None,
            };
            match found {
                None => {
                    proof {
                        assert(with_shells(start, views, (k + 1) as nat) is None);
                        lemma_shells_prefix(start, views, (k + 1) as nat, views.len());
                    }
                    return false;
                },
                Some(at) => {
                    assert(now[at as int] == entities@[at as int]@);
                    match rewrite_shell_faces(&entities[at], plans, shell) {
                        None => {
                            proof {
                                assert(with_shells(start, views, (k + 1) as nat) is None);
                                lemma_shells_prefix(start, views, (k + 1) as nat, views.len());
                            }
                            return false;
                        },
                        Some(copy) => {
                            let ghost copy_view = copy@;
                            entities.set(at, copy);
                            assert(entities_view(entities@) =~= now.update(at as int, copy_view));
                        },
                    }
                },
            }
        }
        k = k + 1;
    }
    true
}

/// A copy of a parameter without some references.
pub fn remove_refs_from_direct_lists(param: &Parameter, drop: &HashSet<u64>) -> (out: Parameter)
    ensures
        out@ == dropped(param@, drop@),
    decreases param,
{
    match param {
        Parameter::List(items) => {
            let ghost views = params_view(items@);
            proof {
                lemma_list_view(*items);
            }
            let mut all = items.len() > 0;
            let mut i: usize = 0;
            while i < items.len()
                invariant
                    i <= items.len(),
                    views == params_view(items@),
                    all == (items.len() > 0 && forall|j: int|
                        0 <= j < i ==> ref_value(#[trigger] views[j]) is Some),
                decreases items.len() - i,
            {
                assert(views[i as int] == items@[i as int]@);
                if entity_ref_value(&items[i]).is_none() {
                    all = false;
                }
                i = i + 1;
            }
            let mut list: Vec<Parameter> = Vec::new();
            if all {
                assert(all_are_refs(views));
                let mut k: usize = 0;
                assert(views.take(0) =~= Seq::empty());
                assert(params_view(list@) =~= Seq::empty());
                while k < items.len()
                    invariant
                        k <= items.len(),
                        views == params_view(items@),
                        params_view(list@) == kept_refs(views.take(k as int), drop@),
                    decreases items.len() - k,
                {
                    let ghost before = list@;
                    assert(views[k as int] == items@[k as int]@);
                    let gone = match entity_ref_value(&items[k]) {
                        Some(id) => drop.contains(&id),
                        None => false,
                    };
                    if !gone {
                        list.push(items[k].clone());
                        assert(params_view(list@) =~= params_view(before).push(list@.last()@));
                    }
                    k = k + 1;
                    assert(views.take(k as int).drop_last() =~= views.take(k - 1));
                }
                assert(views.take(views.len() as int) =~= views);
            } else {
                let mut k: usize = 0;
                while k < items.len()
                    invariant
                        k <= items.len(),
                        list.len() == k,
                        decreases_to!(param => items@),
                        forall|j: int|
                            0 <= j < k ==> (#[trigger] list@[j])@ == dropped(items@[j]@, drop@),
                    decreases items.len() - k,
                {
                    let item = remove_refs_from_direct_lists(&items[k], drop);
                    list.push(item);
                    k = k + 1;
                }
                assert(!(views.len() > 0 && all_are_refs(views)));
                assert(params_view(list@) =~= dropped(param@, drop@)->List_0);
            }
            proof {
                lemma_list_view(list);
            }
            Parameter::List(list)
        },
        Parameter::Typed { keyword, parameter } => Parameter::Typed {
            keyword: keyword.clone(),
            parameter: Box::new(remove_refs_from_direct_lists(&**parameter, drop)),
        },
        other => other.clone(),
    }
}

/// Takes items out of the presentation roots.
fn remove_items(entities: &mut Vec<EntityInstance>, drop: &HashSet<u64>)
    ensures
        entities_view(final(entities)@) == roots_without(entities_view(old(entities)@), drop@),
{
    let ghost views = entities_view(entities@);
    let mut out: Vec<EntityInstance> = Vec::new();
    let mut i: usize = 0;
    while i < entities.len()
        invariant
            i <= entities.len(),
            out.len() == i,
            views == entities_view(entities@),
            *entities == *old(entities),
            forall|j: int| 0 <= j < i ==> (#[trigger] out@[j])@ == without_items(views[j], drop@),
        decreases entities.len() - i,
    {
        let entity = &entities[i];
        assert(views[i as int] == entity@);
        match entity {
            EntityInstance::Simple { id, record } => {
                if same_text(
                    record.name.as_str(),
                    "MECHANICAL_DESIGN_GEOMETRIC_PRESENTATION_REPRESENTATION",
                ) || same_text(record.name.as_str(), "PRESENTATION_LAYER_ASSIGNMENT") {
                    out.push(
                        EntityInstance::Simple {
                            id: *id,
                            record: Record {
                                name: record.name.clone(),
                                parameter: remove_refs_from_direct_lists(&record.parameter, drop),
                            },
                        },
                    );
                } else {
                    out.push(entity.clone());
                }
            },
            EntityInstance::Complex { .. } => out.push(entity.clone()),
        }
        i = i + 1;
    }
    *entities = out;
    assert(entities_view(entities@) =~= roots_without(views, drop@));
}

pub(crate) fn append_ids(out: &mut Vec<u64>, more: &Vec<u64>)
    ensures
        final(out)@ == old(out)@ + more@,
{
    let mut i: usize = 0;
    assert(old(out)@ + more@.take(0) =~= old(out)@);
    while i < more.len()
        invariant
            i <= more.len(),
            out@ == old(out)@ + more@.take(i as int),
        decreases more.len() - i,
    {
        out.push(more[i]);
        i = i + 1;
        assert(old(out)@ + more@.take(i as int) =~= (old(out)@ + more@.take(i - 1)).push(
            more@[i - 1],
        ));
    }
    assert(more@.take(more@.len() as int) =~= more@);
}

/// The dead ids are a finite set.
proof fn lemma_gone(
    done: Seq<EntityView>,
    candidates: Seq<u64>,
    plans: Seq<PlanView>,
    found: Set<u64>,
)
    requires
        forall|id: u64| #[trigger]
            found.contains(id) == dead(done, candidates, plan_leaders(plans).to_set(), id),
    ensures
        found == given_up(done, candidates, plans),
{
    assert(found =~= given_up(done, candidates, plans));
}

/// Merges faces that continue each other on one surface.
pub fn coalesce_same_support_faces(entities: &mut Vec<EntityInstance>) -> (stats:
    FaceCoalesceStats)
    ensures
        exists|plans: Seq<PlanView>, candidates: Seq<u64>| #[trigger]
            coalesces(
                entities_view(old(entities)@),
                plans,
                candidates,
                entities_view(final(entities)@),
                stats,
            ),
{
    let ghost views = entities_view(entities@);
    let none = FaceCoalesceStats {
        groups: 0,
        faces_merged: 0,
        faces_removed: 0,
        internal_edges_removed: 0,
        styles_removed: 0,
        entities_removed: 0,
    };
    let index = build_index(entities);
    let plans = find_plans(entities, &index);
    let ghost plan_views = plans_view(plans@);
    let mut faces: Vec<u64> = Vec::new();
    let mut styles: Vec<u64> = Vec::new();
    let mut leaders: Vec<u64> = Vec::new();
    let mut faces_merged: usize = 0;
    let mut faces_removed: usize = 0;
    let mut edges: usize = 0;
    let mut k: usize = 0;
    proof {
        assert forall|j: int| 0 <= j < plans@.len() implies can_be_merged(
            views,
            (#[trigger] plans@[j]).faces@[0],
        ) && plans@[j].faces@[0] <= max_id(views) && plans@[j].faces@.len() > 0 by {
            assert(plan_views[j] == plans@[j]@);
            assert(plan_views.contains(plan_views[j]));
            lemma_leader(views, plan_views[j]);
        }
        assert(plan_leaders(plan_views).take(0) =~= Seq::empty());
    }
    while k < plans.len()
        invariant
            k <= plans.len(),
            plan_views == plans_view(plans@),
            forall|j: int| 0 <= j < plans@.len() ==> (#[trigger] plans@[j]).faces@.len() > 0,
            faces@ == plan_faces(plan_views, k as nat),
            styles@ == plan_styles(plan_views, k as nat),
            leaders@ == plan_leaders(plan_views).take(k as int),
            faces@.len() >= k,
            faces_merged == capped(faces@.len()),
            faces_removed == capped((faces@.len() - k) as nat),
            edges == capped(plan_edges(plan_views, k as nat)),
        decreases plans.len() - k,
    {
        let plan = &plans[k];
        assert(plan_views[k as int] == plan@);
        append_ids(&mut faces, &plan.faces);
        append_ids(&mut styles, &plan.style_delete);
        leaders.push(plan.faces[0]);
        faces_merged = faces_merged.saturating_add(plan.faces.len());
        faces_removed = faces_removed.saturating_add(plan.faces.len() - 1);
        edges = edges.saturating_add(plan.internal_edges.len());
        k = k + 1;
        assert(plan_leaders(plan_views).take(k as int) =~= plan_leaders(plan_views).take(
            k - 1,
        ).push(plan_views[k - 1].faces[0]));
    }
    assert(plan_leaders(plan_views).take(plan_views.len() as int) =~= plan_leaders(plan_views));
    let mut candidates = descendants(entities, &index, &faces);
    let ghost reached = candidates@;
    append_ids(&mut candidates, &styles);
    proof {
        assert forall|id: u64| #[trigger] candidates@.contains(id) == may_go(
            views,
            plan_views,
            id,
        ) by {
            assert(reached.contains(id) == reachable(views, faces@, id));
            if reached.contains(id) {
                let j = choose|j: int| 0 <= j < reached.len() && reached[j] == id;
                assert(candidates@[j] == id);
            }
            if styles@.contains(id) {
                let j = choose|j: int| 0 <= j < styles@.len() && styles@[j] == id;
                assert(candidates@[reached.len() + j] == id);
            }
            if candidates@.contains(id) {
                let j = choose|j: int| 0 <= j < candidates@.len() && candidates@[j] == id;
                if j < reached.len() {
                    assert(reached[j] == id);
                } else {
                    assert(styles@[j - reached.len()] == id);
                }
            }
        }
    }
    if plans.len() == 0 {
        assert(coalesces(views, plan_views, candidates@, entities_view(entities@), none));
        return none;
    }
    let last: u64 = largest_id(entities);
    if (u64::MAX - last) / 2 < plans.len() as u64 {
        assert(!ids_fit(views, plan_views));
        assert(coalesces(views, plan_views, candidates@, entities_view(entities@), none));
        return none;
    }
    let mut work = clone_entities(entities);
    add_plans(&mut work, &plans, last);
    if !rewrite_shells(&mut work, &plans) {
        assert(coalesces(views, plan_views, candidates@, entities_view(entities@), none));
        return none;
    }
    let style_set = set_of(&styles);
    let ghost shelled = entities_view(work@);
    remove_items(&mut work, &style_set);
    let ghost done = entities_view(work@);
    assert(rewritten(views, plan_views) == Some(done));
    let keep = set_of(&leaders);
    let gone = find_dead(&work, &candidates, &keep);
    proof {
        lemma_gone(done, candidates@, plan_views, gone@);
    }
    remove_entities(&mut work, &gone);
    let stats = FaceCoalesceStats {
        groups: plans.len(),
        faces_merged,
        faces_removed,
        internal_edges_removed: edges,
        styles_removed: style_set.len(),
        entities_removed: gone.len(),
    };
    *entities = work;
    assert(coalesces(views, plan_views, candidates@, entities_view(entities@), stats));
    stats
}

} // verus!
