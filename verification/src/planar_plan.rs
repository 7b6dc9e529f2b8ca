//! Groups of faces that stand out of a plane face and repeat.

use std::collections::{HashMap, HashSet};
use vstd::prelude::*;

use crate::ast::{entities_view, EntityInstance, EntityView};
use crate::brep::{
    bound_loop, bound_loop_edges, face_edge_curves, face_edges, face_surface, listed_in,
    ref_list_param, surface_of,
};
use crate::components::{all_components, find_components, lists_view};
use crate::face_coalesce::append_ids;
use crate::face_plan::{face_styles, listed, same_ids};
use crate::features::{
    component_is_two_manifold_with_host, edge_is_closed, edges_closed, is_two_manifold,
};
use crate::graph::{
    add_entry, find_record, find_typed, indexes, nth_entity_ref, nth_ref, record_at, typed_record,
};
use crate::instances::{items_and_context, representation_items_and_context};
use crate::sets::{ascending, leads, list_contains, sorted_of, sorted_set, table_step};
use crate::styles::{applied, applied_styles, faces_style, find_faces_style, styles_view};
use crate::text::same_text;

verus! {

broadcast use vstd::std_specs::hash::group_hash_axioms;

/// How often a group of faces has to repeat.
pub const MIN_GROUP: usize = 8;

/// How many faces a group may have.
pub const MAX_FEATURE_FACES: usize = 128;

/// What was measured of a group of faces that stands out of a host face: groups of one class
/// have the same shape up to quarter turns.
#[derive(Debug)]
pub struct FeatureMeasure {
    pub host: u64,
    pub faces: Vec<u64>,
    pub class: u64,
    pub quarter: u8,
}

#[verifier::ext_equal]
pub struct MeasureView {
    pub host: u64,
    pub faces: Seq<u64>,
    pub class: u64,
    pub quarter: u8,
}

impl View for FeatureMeasure {
    type V = MeasureView;

    open spec fn view(&self) -> MeasureView {
        MeasureView {
            host: self.host,
            faces: self.faces@,
            class: self.class,
            quarter: self.quarter,
        }
    }
}

pub open spec fn measures_view(measures: Seq<FeatureMeasure>) -> Seq<MeasureView> {
    Seq::new(measures.len(), |i: int| measures[i]@)
}

/// A shell in a representation, with what holds it.
#[derive(Debug, Clone, Copy, PartialEq, Eq, Structural)]
pub struct ShellContext {
    pub representation_id: u64,
    pub context_id: u64,
    pub container_id: u64,
    pub shell_id: u64,
}

/// The shells of an item of a representation.
pub open spec fn item_shells(entities: Seq<EntityView>, item: u64) -> Seq<u64> {
    match record_at(entities, item) {
        None => Seq::empty(),
        Some(record) => if record.name == "MANIFOLD_SOLID_BREP"@ {
            match nth_ref(record, 1) {
                Some(shell) => seq![shell],
                None => Seq::empty(),
            }
        } else if record.name == "SHELL_BASED_SURFACE_MODEL"@ {
            match listed_in(entities, item, 1) {
                Some(shells) => shells,
                None => Seq::empty(),
            }
        } else {
            Seq::empty()
        },
    }
}

/// Whether a shell is there in a representation already.
pub open spec fn same_place(a: ShellContext, b: ShellContext) -> bool {
    a.representation_id == b.representation_id && a.container_id == b.container_id && a.shell_id
        == b.shell_id
}

pub open spec fn is_known(contexts: Seq<ShellContext>, context: ShellContext) -> bool {
    exists|i: int| 0 <= i < contexts.len() && same_place(#[trigger] contexts[i], context)
}

/// Appends the closed shells of an item that are not there yet.
pub open spec fn with_shells(
    entities: Seq<EntityView>,
    contexts: Seq<ShellContext>,
    rep: u64,
    context: u64,
    item: u64,
    shells: Seq<u64>,
) -> Seq<ShellContext>
    decreases shells.len(),
{
    if shells.len() == 0 {
        contexts
    } else {
        let rest = with_shells(entities, contexts, rep, context, item, shells.drop_last());
        let new = ShellContext {
            representation_id: rep,
            context_id: context,
            container_id: item,
            shell_id: shells.last(),
        };
        if typed_record(entities, shells.last(), "CLOSED_SHELL"@) is Some && !is_known(rest, new) {
            rest.push(new)
        } else {
            rest
        }
    }
}

pub open spec fn with_items(
    entities: Seq<EntityView>,
    contexts: Seq<ShellContext>,
    rep: u64,
    context: u64,
    items: Seq<u64>,
) -> Seq<ShellContext>
    decreases items.len(),
{
    if items.len() == 0 {
        contexts
    } else {
        with_shells(
            entities,
            with_items(entities, contexts, rep, context, items.drop_last()),
            rep,
            context,
            items.last(),
            item_shells(entities, items.last()),
        )
    }
}

pub open spec fn is_shape_rep(entity: EntityView) -> bool {
    crate::graph::simple_record(entity) matches Some(record) && (record.name
        == "ADVANCED_BREP_SHAPE_REPRESENTATION"@ || record.name
        == "MANIFOLD_SURFACE_SHAPE_REPRESENTATION"@)
}

/// The closed shells of the representations among the first `n` entities.
pub open spec fn contexts(entities: Seq<EntityView>, n: nat) -> Seq<ShellContext>
    decreases n,
{
    if n == 0 {
        Seq::empty()
    } else {
        let rest = contexts(entities, (n - 1) as nat);
        let entity = entities[n - 1];
        match items_and_context(entity) {
            Some((items, context)) if is_shape_rep(entity) => with_items(
                entities,
                rest,
                entity.id(),
                context,
                items,
            ),
            _ => rest,
        }
    }
}

/// The faces among the first `n` that use an edge.
pub open spec fn attached(entities: Seq<EntityView>, faces: Seq<u64>, edge: u64, n: nat) -> Seq<u64>
    decreases n,
{
    if n == 0 {
        Seq::empty()
    } else {
        let rest = attached(entities, faces, edge, (n - 1) as nat);
        match face_edges(entities, faces[n - 1]) {
            Some(edges) if edges.contains(edge) => rest.push(faces[n - 1]),
            _ => rest,
        }
    }
}

pub open spec fn users(entities: Seq<EntityView>, faces: Seq<u64>, edge: u64) -> Seq<u64> {
    attached(entities, faces, edge, faces.len())
}

/// Whether two faces of a shell, none of them the host, share an edge.
pub open spec fn beside(
    entities: Seq<EntityView>,
    faces: Seq<u64>,
    host: u64,
) -> spec_fn(u64, u64) -> bool {
    |a: u64, b: u64|
        a != b && a != host && b != host && exists|edge: u64|
            #![trigger users(entities, faces, edge)]
            users(entities, faces, edge).contains(a) && users(entities, faces, edge).contains(b)
}

/// The faces without the host.
pub open spec fn others(faces: Seq<u64>, host: u64) -> Seq<u64>
    decreases faces.len(),
{
    if faces.len() == 0 {
        Seq::empty()
    } else {
        let rest = others(faces.drop_last(), host);
        if faces.last() == host {
            rest
        } else {
            rest.push(faces.last())
        }
    }
}

/// Whether each edge of a group of faces lies between two faces of the group, or between one
/// of them and the host.
pub open spec fn is_closed_off(
    entities: Seq<EntityView>,
    faces: Seq<u64>,
    group: Seq<u64>,
    host: u64,
) -> bool {
    forall|f: int| 0 <= f < group.len() ==> is_shut(entities, faces, group, host, #[trigger] group[f])
}

pub open spec fn is_shut(
    entities: Seq<EntityView>,
    faces: Seq<u64>,
    group: Seq<u64>,
    host: u64,
    face: u64,
) -> bool {
    &&& face_edges(entities, face) matches Some(edges)
    &&& forall|e: int|
        0 <= e < edges.len() ==> edge_is_closed(
            group,
            host,
            users(entities, faces, #[trigger] edges[e]),
        )
}

/// The edges of a list that the host uses too.
pub open spec fn host_edges(
    entities: Seq<EntityView>,
    faces: Seq<u64>,
    host: u64,
    edges: Seq<u64>,
) -> Seq<u64>
    decreases edges.len(),
{
    if edges.len() == 0 {
        Seq::empty()
    } else {
        let rest = host_edges(entities, faces, host, edges.drop_last());
        if users(entities, faces, edges.last()).contains(host) {
            rest.push(edges.last())
        } else {
            rest
        }
    }
}

/// The edges between a group of faces and the host.
pub open spec fn interface_edges(
    entities: Seq<EntityView>,
    faces: Seq<u64>,
    host: u64,
    group: Seq<u64>,
) -> Seq<u64>
    decreases group.len(),
{
    if group.len() == 0 {
        Seq::empty()
    } else {
        interface_edges(entities, faces, host, group.drop_last()) + host_edges(
            entities,
            faces,
            host,
            match face_edges(entities, group.last()) {
                Some(edges) => edges,
                None => Seq::empty(),
            },
        )
    }
}

/// An inner bound with its loop and its orientation.
#[derive(Debug, Clone, Copy, PartialEq, Eq, Structural)]
pub struct InnerBound {
    pub bound: u64,
    pub loop_id: u64,
    pub orientation: bool,
}

/// The inner bounds whose edges are given by a sorted list.
pub open spec fn bounds_with(entities: Seq<EntityView>, bounds: Seq<u64>, key: Seq<u64>) -> Seq<
    InnerBound,
>
    decreases bounds.len(),
{
    if bounds.len() == 0 {
        Seq::empty()
    } else {
        let rest = bounds_with(entities, bounds.drop_last(), key);
        let bound = bounds.last();
        match bound_loop(entities, bound) {
            Some((loop_id, edges, orientation)) if typed_record(
                entities,
                bound,
                "FACE_BOUND"@,
            ) is Some && sorted_of(edges) == key => rest.push(
                InnerBound { bound, loop_id, orientation },
            ),
            _ => rest,
        }
    }
}

/// What was measured of a group of faces.
pub open spec fn measured(measures: Seq<MeasureView>, host: u64, faces: Seq<u64>) -> Option<
    MeasureView,
>
    decreases measures.len(),
{
    if measures.len() == 0 {
        None
    } else if measures.last().host == host && measures.last().faces == faces {
        Some(measures.last())
    } else {
        measured(measures.drop_last(), host, faces)
    }
}

/// Where the look of a group of faces comes from.
#[verifier::ext_equal]
pub enum LookView {
    Face(Seq<u64>),
    Container,
    Plain,
}

pub open spec fn all_bare(origin: Seq<EntityView>, faces: Seq<u64>) -> bool {
    forall|i: int| 0 <= i < faces.len() ==> applied(origin, #[trigger] faces[i]).len() == 0
}

/// The look of a group of faces; nothing where the faces do not look the same.
pub open spec fn group_look(origin: Seq<EntityView>, container: u64, faces: Seq<u64>) -> Option<
    LookView,
> {
    if all_bare(origin, faces) {
        if applied(origin, container).len() > 0 {
            Some(LookView::Container)
        } else {
            Some(LookView::Plain)
        }
    } else {
        match faces_style(origin, faces) {
            Some(styles) => Some(LookView::Face(styles)),
            None => None,
        }
    }
}

/// A group of faces that stands out of a host face.
#[verifier::ext_equal]
pub struct FeatureView {
    pub faces: Seq<u64>,
    pub bound: InnerBound,
    pub class: u64,
    pub quarter: u8,
    pub look: LookView,
}

pub open spec fn is_claimed(claimed: Set<u64>, faces: Seq<u64>) -> bool {
    exists|i: int| 0 <= i < faces.len() && claimed.contains(#[trigger] faces[i])
}

/// What a part of a shell is, where it is a group of faces that may repeat.
pub open spec fn feature(
    origin: Seq<EntityView>,
    entities: Seq<EntityView>,
    measures: Seq<MeasureView>,
    container: u64,
    faces: Seq<u64>,
    host: u64,
    bounds: Seq<u64>,
    claimed_faces: Set<u64>,
    claimed_bounds: Set<u64>,
    part: Seq<u64>,
) -> Option<FeatureView> {
    let edges = interface_edges(entities, faces, host, part);
    let found = bounds_with(entities, bounds, sorted_of(edges));
    if part.len() > MAX_FEATURE_FACES || is_claimed(claimed_faces, part) || !is_closed_off(
        entities,
        faces,
        part,
        host,
    ) || edges.len() == 0 || found.len() != 1 || claimed_bounds.contains(found[0].bound) {
        None
    } else {
        match (measured(measures, host, part), group_look(origin, container, part)) {
            (Some(measure), Some(look)) => Some(
                FeatureView {
                    faces: part,
                    bound: found[0],
                    class: measure.class,
                    quarter: measure.quarter,
                    look,
                },
            ),
            _ => None,
        }
    }
}

/// The groups of faces among the first `n` parts of a shell.
pub open spec fn features(
    origin: Seq<EntityView>,
    entities: Seq<EntityView>,
    measures: Seq<MeasureView>,
    container: u64,
    faces: Seq<u64>,
    host: u64,
    bounds: Seq<u64>,
    claimed_faces: Set<u64>,
    claimed_bounds: Set<u64>,
    parts: Seq<Seq<u64>>,
    n: nat,
) -> Seq<FeatureView>
    decreases n,
{
    if n == 0 {
        Seq::empty()
    } else {
        let rest = features(
            origin,
            entities,
            measures,
            container,
            faces,
            host,
            bounds,
            claimed_faces,
            claimed_bounds,
            parts,
            (n - 1) as nat,
        );
        match feature(
            origin,
            entities,
            measures,
            container,
            faces,
            host,
            bounds,
            claimed_faces,
            claimed_bounds,
            parts[n - 1],
        ) {
            Some(feature) => rest.push(feature),
            None => rest,
        }
    }
}

/// Whether two groups of faces are instances of one.
pub open spec fn repeats(a: FeatureView, b: FeatureView) -> bool {
    a.class == b.class && a.bound.orientation == b.bound.orientation && a.look == b.look
}

/// The groups among the first `n` that are like one of them.
pub open spec fn family(features: Seq<FeatureView>, like: FeatureView, n: nat) -> Seq<FeatureView>
    decreases n,
{
    if n == 0 {
        Seq::empty()
    } else {
        let rest = family(features, like, (n - 1) as nat);
        if repeats(features[n - 1], like) {
            rest.push(features[n - 1])
        } else {
            rest
        }
    }
}

pub open spec fn leads_family(features: Seq<FeatureView>, i: int) -> bool {
    forall|j: int| 0 <= j < i ==> !repeats(#[trigger] features[j], features[i])
}

/// The families that begin among the first `n` and are large enough.
pub open spec fn families(features: Seq<FeatureView>, n: nat) -> Seq<Seq<FeatureView>>
    decreases n,
{
    if n == 0 {
        Seq::empty()
    } else {
        let rest = families(features, (n - 1) as nat);
        let group = family(features, features[n - 1], features.len());
        if leads_family(features, n - 1) && group.len() >= MIN_GROUP {
            rest.push(group)
        } else {
            rest
        }
    }
}

/// Whether a face of a shell can be a host: it is plane and has many bounds.
pub open spec fn is_host(entities: Seq<EntityView>, face: u64) -> bool {
    &&& surface_of(entities, face) matches Some(surface)
    &&& typed_record(entities, surface, "PLANE"@) is Some
    &&& listed_in(entities, face, 1) matches Some(bounds)
    &&& bounds.len() > MIN_GROUP
}

/// The hosts of a shell.
pub open spec fn hosts(entities: Seq<EntityView>, faces: Seq<u64>) -> Seq<u64>
    decreases faces.len(),
{
    if faces.len() == 0 {
        Seq::empty()
    } else {
        let rest = hosts(entities, faces.drop_last());
        if is_host(entities, faces.last()) {
            rest.push(faces.last())
        } else {
            rest
        }
    }
}

/// The shells of an item of a representation.
fn find_item_shells(
    item: u64,
    entities: &Vec<EntityInstance>,
    index: &HashMap<u64, usize>,
) -> (out: Vec<u64>)
    requires
        indexes(index@, entities_view(entities@)),
    ensures
        out@ == item_shells(entities_view(entities@), item),
{
    let mut out: Vec<u64> = Vec::new();
    if let Some(record) = find_record(entities, index, item) {
        if same_text(record.name.as_str(), "MANIFOLD_SOLID_BREP") {
            if let Some(shell) = nth_entity_ref(record, 1) {
                out.push(shell);
                assert(out@ =~= seq![shell]);
            }
        } else if same_text(record.name.as_str(), "SHELL_BASED_SURFACE_MODEL") {
            if let Some(shells) = ref_list_param(item, 1, entities, index) {
                return shells;
            }
        }
    }
    out
}

fn find_known(contexts: &Vec<ShellContext>, context: &ShellContext) -> (out: bool)
    ensures
        out == is_known(contexts@, *context),
{
    let mut i: usize = 0;
    while i < contexts.len()
        invariant
            i <= contexts.len(),
            forall|j: int| 0 <= j < i ==> !same_place(#[trigger] contexts@[j], *context),
        decreases contexts.len() - i,
    {
        if contexts[i].representation_id == context.representation_id && contexts[i].container_id
            == context.container_id && contexts[i].shell_id == context.shell_id {
            assert(same_place(contexts@[i as int], *context));
            return true;
        }
        i = i + 1;
    }
    false
}

/// Appends the closed shells of an item that are not there yet.
fn add_shells(
    out: &mut Vec<ShellContext>,
    rep: u64,
    context: u64,
    item: u64,
    shells: &Vec<u64>,
    entities: &Vec<EntityInstance>,
    index: &HashMap<u64, usize>,
)
    requires
        indexes(index@, entities_view(entities@)),
    ensures
        final(out)@ == with_shells(
            entities_view(entities@),
            old(out)@,
            rep,
            context,
            item,
            shells@,
        ),
{
    let ghost views = entities_view(entities@);
    let ghost before = out@;
    let mut i: usize = 0;
    assert(shells@.take(0) =~= Seq::empty());
    while i < shells.len()
        invariant
            i <= shells.len(),
            views == entities_view(entities@),
            indexes(index@, views),
            out@ == with_shells(views, before, rep, context, item, shells@.take(i as int)),
        decreases shells.len() - i,
    {
        let shell: u64 = shells[i];
        let new = ShellContext {
            representation_id: rep,
            context_id: context,
            container_id: item,
            shell_id: shell,
        };
        if find_typed(entities, index, shell, "CLOSED_SHELL").is_some() && !find_known(out, &new) {
            out.push(new);
        }
        i = i + 1;
        assert(shells@.take(i as int).drop_last() =~= shells@.take(i - 1));
    }
    assert(shells@.take(shells@.len() as int) =~= shells@);
}

/// The closed shells of all representations.
pub fn collect_shell_contexts(entities: &Vec<EntityInstance>, index: &HashMap<u64, usize>) -> (out:
    Vec<ShellContext>)
    requires
        indexes(index@, entities_view(entities@)),
    ensures
        out@ == contexts(entities_view(entities@), entities@.len()),
{
    let ghost views = entities_view(entities@);
    let mut out: Vec<ShellContext> = Vec::new();
    let mut i: usize = 0;
    while i < entities.len()
        invariant
            i <= entities.len(),
            views == entities_view(entities@),
            indexes(index@, views),
            out@ == contexts(views, i as nat),
        decreases entities.len() - i,
    {
        assert(views[i as int] == entities@[i as int]@);
        if let EntityInstance::Simple { id, record } = &entities[i] {
            let rep: u64 = *id;
            if same_text(record.name.as_str(), "ADVANCED_BREP_SHAPE_REPRESENTATION") || same_text(
                record.name.as_str(),
                "MANIFOLD_SURFACE_SHAPE_REPRESENTATION",
            ) {
                if let Some((items, context)) = representation_items_and_context(&entities[i]) {
                    let ghost before = out@;
                    let mut k: usize = 0;
                    assert(items@.take(0) =~= Seq::empty());
                    while k < items.len()
                        invariant
                            k <= items.len(),
                            views == entities_view(entities@),
                            indexes(index@, views),
                            out@ == with_items(views, before, rep, context, items@.take(k as int)),
                        decreases items.len() - k,
                    {
                        let shells = find_item_shells(items[k], entities, index);
                        add_shells(&mut out, rep, context, items[k], &shells, entities, index);
                        k = k + 1;
                        assert(items@.take(k as int).drop_last() =~= items@.take(k - 1));
                    }
                    assert(items@.take(items@.len() as int) =~= items@);
                }
            }
        }
        i = i + 1;
    }
    out
}

/// Whether a table gives the edges of the faces of a shell.
pub open spec fn gives_edges(
    table: Map<u64, Vec<u64>>,
    entities: Seq<EntityView>,
    faces: Seq<u64>,
) -> bool {
    forall|f: u64| #[trigger]
        table.contains_key(f) == (faces.contains(f) && face_edges(entities, f) is Some) && (
        table.contains_key(f) ==> face_edges(entities, f) == Some(table[f]@))
}

/// Whether a table gives the faces of a shell that use each edge.
pub open spec fn gives_users(
    table: Map<u64, Vec<u64>>,
    entities: Seq<EntityView>,
    faces: Seq<u64>,
) -> bool {
    forall|e: u64| #[trigger] listed(table, e) == users(entities, faces, e)
}

/// Tables of the edges of the faces of a shell, and of the faces that use each edge.
pub fn edge_tables(
    faces: &Vec<u64>,
    entities: &Vec<EntityInstance>,
    index: &HashMap<u64, usize>,
) -> (out: (HashMap<u64, Vec<u64>>, HashMap<u64, Vec<u64>>))
    requires
        indexes(index@, entities_view(entities@)),
    ensures
        gives_edges(out.0@, entities_view(entities@), faces@),
        gives_users(out.1@, entities_view(entities@), faces@),
{
    let ghost views = entities_view(entities@);
    let mut by_face: HashMap<u64, Vec<u64>> = HashMap::new();
    let mut by_edge: HashMap<u64, Vec<u64>> = HashMap::new();
    let mut i: usize = 0;
    assert forall|f: u64| #[trigger]
        by_face@.contains_key(f) == (faces@.take(0).contains(f) && face_edges(views, f) is Some) by {}
    while i < faces.len()
        invariant
            i <= faces.len(),
            views == entities_view(entities@),
            indexes(index@, views),
            gives_edges(by_face@, views, faces@.take(i as int)),
            forall|e: u64| #[trigger]
                listed(by_edge@, e) == attached(views, faces@, e, i as nat),
        decreases faces.len() - i,
    {
        let face: u64 = faces[i];
        let ghost front = faces@.take(i as int);
        let ghost upto = faces@.take(i + 1);
        proof {
            assert(upto =~= front.push(face));
            assert forall|f: u64| #[trigger] upto.contains(f) == (front.contains(f) || f == face) by {
                if front.contains(f) {
                    let k = choose|k: int| 0 <= k < front.len() && front[k] == f;
                    assert(upto[k] == f);
                }
                if f == face {
                    assert(upto[i as int] == f);
                }
                if upto.contains(f) && f != face {
                    let k = choose|k: int| 0 <= k < upto.len() && upto[k] == f;
                    assert(front[k] == f);
                }
            }
        }
        if let Some(edges) = face_edge_curves(face, entities, index) {
            let ghost start = by_edge@;
            add_to_all(&mut by_edge, &edges, face);
            let ghost known = by_face@;
            let ghost edge_views = edges@;
            by_face.insert(face, edges);
            proof {
                assert forall|f: u64| #[trigger]
                    by_face@.contains_key(f) == (upto.contains(f) && face_edges(views, f) is Some)
                    && (by_face@.contains_key(f) ==> face_edges(views, f) == Some(
                    by_face@[f]@,
                )) by {
                    assert(known.contains_key(f) == (front.contains(f) && face_edges(
                        views,
                        f,
                    ) is Some));
                    assert(upto.contains(f) == (front.contains(f) || f == face));
                }
                assert forall|e: u64| #[trigger]
                    listed(by_edge@, e) == attached(views, faces@, e, (i + 1) as nat) by {
                    assert(listed(start, e) == attached(views, faces@, e, i as nat));
                }
            }
        } else {
            proof {
                assert forall|f: u64| #[trigger]
                    by_face@.contains_key(f) == (upto.contains(f) && face_edges(views, f) is Some)
                    && (by_face@.contains_key(f) ==> face_edges(views, f) == Some(
                    by_face@[f]@,
                )) by {
                    assert(upto.contains(f) == (front.contains(f) || f == face));
                }
                assert forall|e: u64| #[trigger]
                    listed(by_edge@, e) == attached(views, faces@, e, (i + 1) as nat) by {}
            }
        }
        i = i + 1;
    }
    assert(faces@.take(faces@.len() as int) =~= faces@);
    (by_face, by_edge)
}

/// Adds an entry under each key of an ascending list.
fn add_to_all(table: &mut HashMap<u64, Vec<u64>>, keys: &Vec<u64>, value: u64)
    requires
        ascending(keys@),
    ensures
        forall|k: u64| #[trigger]
            listed(final(table)@, k) == if keys@.contains(k) {
                listed(old(table)@, k).push(value)
            } else {
                listed(old(table)@, k)
            },
{
    let ghost start = table@;
    let mut i: usize = 0;
    while i < keys.len()
        invariant
            i <= keys.len(),
            ascending(keys@),
            forall|k: u64| #[trigger]
                listed(table@, k) == if keys@.take(i as int).contains(k) {
                    listed(start, k).push(value)
                } else {
                    listed(start, k)
                },
        decreases keys.len() - i,
    {
        let key: u64 = keys[i];
        let ghost before = table@;
        let ghost front = keys@.take(i as int);
        let ghost upto = keys@.take(i + 1);
        add_entry(table, key, value);
        i = i + 1;
        proof {
            assert(upto =~= front.push(key));
            assert(!front.contains(key)) by {
                if front.contains(key) {
                    let k = choose|k: int| 0 <= k < front.len() && front[k] == key;
                    assert(keys@[k] < keys@[i - 1]);
                }
            }
            assert forall|k: u64| #[trigger]
                listed(table@, k) == if upto.contains(k) {
                    listed(start, k).push(value)
                } else {
                    listed(start, k)
                } by {
                assert(table@.dom().contains(k) == (k == key || before.dom().contains(k)));
                if k != key && before.contains_key(k) {
                    assert(table@[k] == before[k]);
                }
                assert(listed(before, k) == if front.contains(k) {
                    listed(start, k).push(value)
                } else {
                    listed(start, k)
                });
                assert(upto.contains(k) == (front.contains(k) || k == key)) by {
                    if front.contains(k) {
                        let m = choose|m: int| 0 <= m < front.len() && front[m] == k;
                        assert(upto[m] == k);
                    }
                    if k == key {
                        assert(upto[front.len() as int] == k);
                    }
                    if upto.contains(k) && k != key {
                        let m = choose|m: int| 0 <= m < upto.len() && upto[m] == k;
                        assert(front[m] == k);
                    }
                }
            }
        }
    }
    assert(keys@.take(keys@.len() as int) =~= keys@);
}

/// A face uses the edges that are its own.
proof fn lemma_attached(entities: Seq<EntityView>, faces: Seq<u64>, edge: u64, n: nat, face: u64)
    requires
        n <= faces.len(),
    ensures
        attached(entities, faces, edge, n).contains(face) == (faces.take(n as int).contains(face)
            && face_edges(entities, face) is Some && face_edges(entities, face)->Some_0.contains(
            edge,
        )),
    decreases n,
{
    let now = attached(entities, faces, edge, n);
    let upto = faces.take(n as int);
    if n > 0 {
        lemma_attached(entities, faces, edge, (n - 1) as nat, face);
        let rest = attached(entities, faces, edge, (n - 1) as nat);
        let front = faces.take(n - 1);
        let last = faces[n - 1];
        assert(upto =~= front.push(last));
        assert(upto.contains(face) == (front.contains(face) || face == last)) by {
            if front.contains(face) {
                let k = choose|k: int| 0 <= k < front.len() && front[k] == face;
                assert(upto[k] == face);
            }
            if face == last {
                assert(upto[n - 1] == face);
            }
            if upto.contains(face) && face != last {
                let k = choose|k: int| 0 <= k < upto.len() && upto[k] == face;
                assert(front[k] == face);
            }
        }
        if rest.contains(face) {
            let k = choose|k: int| 0 <= k < rest.len() && rest[k] == face;
            assert(now[k] == face);
        }
        if now.contains(face) {
            let k = choose|k: int| 0 <= k < now.len() && now[k] == face;
            if k < rest.len() {
                assert(rest[k] == face);
            }
        }
        if now.len() > rest.len() {
            assert(now[rest.len() as int] == last);
        }
    }
}

/// The faces without the host.
fn find_others(faces: &Vec<u64>, host: u64) -> (out: Vec<u64>)
    ensures
        out@ == others(faces@, host),
        forall|f: u64| #[trigger] out@.contains(f) == (faces@.contains(f) && f != host),
{
    let mut out: Vec<u64> = Vec::new();
    let mut i: usize = 0;
    assert(faces@.take(0) =~= Seq::empty());
    while i < faces.len()
        invariant
            i <= faces.len(),
            out@ == others(faces@.take(i as int), host),
            forall|f: u64| #[trigger] out@.contains(f) ==> faces@.contains(f) && f != host,
            forall|j: int| 0 <= j < i && #[trigger] faces@[j] != host ==> out@.contains(faces@[j]),
        decreases faces.len() - i,
    {
        let ghost before = out@;
        if faces[i] != host {
            out.push(faces[i]);
            assert(out@[before.len() as int] == faces@[i as int]);
            assert forall|f: u64| #[trigger] out@.contains(f) implies faces@.contains(f) && f
                != host by {
                let k = choose|k: int| 0 <= k < out@.len() && out@[k] == f;
                if k < before.len() {
                    assert(before[k] == f);
                    assert(before.contains(f));
                }
            }
            assert forall|j: int| 0 <= j < i + 1 && #[trigger] faces@[j] != host implies
                out@.contains(faces@[j]) by {
                if j < i {
                    let k = choose|k: int| 0 <= k < before.len() && before[k] == faces@[j];
                    assert(out@[k] == faces@[j]);
                }
            }
        }
        i = i + 1;
        assert(faces@.take(i as int).drop_last() =~= faces@.take(i - 1));
    }
    assert(faces@.take(faces@.len() as int) =~= faces@);
    out
}

/// Whether a table leads from a face through one of some edges to another.
spec fn through(
    entities: Seq<EntityView>,
    faces: Seq<u64>,
    host: u64,
    edges: Seq<u64>,
    a: u64,
    b: u64,
) -> bool {
    a != b && b != host && exists|i: int|
        0 <= i < edges.len() && users(entities, faces, #[trigger] edges[i]).contains(b)
}

/// Adds the faces that a face shares an edge with.
fn add_beside(
    table: &mut HashMap<u64, Vec<u64>>,
    face: u64,
    host: u64,
    edges: &Vec<u64>,
    by_edge: &HashMap<u64, Vec<u64>>,
    Ghost(entities): Ghost<Seq<EntityView>>,
    Ghost(faces): Ghost<Seq<u64>>,
)
    requires
        gives_users(by_edge@, entities, faces),
    ensures
        forall|x: u64, y: u64| #[trigger]
            leads(final(table)@, x, y) == (leads(old(table)@, x, y) || (x == face && through(
                entities,
                faces,
                host,
                edges@,
                x,
                y,
            ))),
{
    let ghost start = table@;
    let mut i: usize = 0;
    assert(edges@.take(0) =~= Seq::empty());
    while i < edges.len()
        invariant
            i <= edges.len(),
            gives_users(by_edge@, entities, faces),
            forall|x: u64, y: u64| #[trigger]
                leads(table@, x, y) == (leads(start, x, y) || (x == face && through(
                    entities,
                    faces,
                    host,
                    edges@.take(i as int),
                    x,
                    y,
                ))),
        decreases edges.len() - i,
    {
        let edge: u64 = edges[i];
        let ghost front = edges@.take(i as int);
        let ghost upto = edges@.take(i + 1);
        let ghost before = table@;
        let ghost those = users(entities, faces, edge);
        assert(listed(by_edge@, edge) == those);
        if let Some(list) = by_edge.get(&edge) {
            let mut k: usize = 0;
            while k < list.len()
                invariant
                    k <= list.len(),
                    list@ == those,
                    forall|x: u64, y: u64| #[trigger]
                        leads(table@, x, y) == (leads(before, x, y) || (x == face && x != y && y
                            != host && list@.take(k as int).contains(y))),
                decreases list.len() - k,
            {
                let other: u64 = list[k];
                let ghost mid = table@;
                let ghost a = list@.take(k as int);
                let ghost b = list@.take(k + 1);
                assert forall|y: u64| #[trigger] b.contains(y) == (a.contains(y) || y == other) by {
                    if a.contains(y) {
                        let m = choose|m: int| 0 <= m < a.len() && a[m] == y;
                        assert(b[m] == y);
                    }
                    if y == other {
                        assert(b[k as int] == y);
                    }
                    if b.contains(y) && y != other {
                        let m = choose|m: int| 0 <= m < b.len() && b[m] == y;
                        assert(a[m] == y);
                    }
                }
                if other != host && other != face {
                    add_entry(table, face, other);
                    proof {
                        crate::face_groups::lemma_entry_added(mid, table@, face, other);
                    }
                }
                k = k + 1;
            }
            assert(list@.take(list@.len() as int) =~= list@);
        }
        proof {
            assert forall|x: u64, y: u64| #[trigger]
                leads(table@, x, y) == (leads(start, x, y) || (x == face && through(
                    entities,
                    faces,
                    host,
                    upto,
                    x,
                    y,
                ))) by {
                assert(leads(table@, x, y) == (leads(before, x, y) || (x == face && x != y && y
                    != host && those.contains(y))));
                if through(entities, faces, host, front, x, y) {
                    let m = choose|m: int|
                        0 <= m < front.len() && users(entities, faces, #[trigger] front[m]).contains(
                            y,
                        );
                    assert(upto[m] == front[m]);
                }
                if through(entities, faces, host, upto, x, y) {
                    let m = choose|m: int|
                        0 <= m < upto.len() && users(entities, faces, #[trigger] upto[m]).contains(
                            y,
                        );
                    if m < front.len() {
                        assert(upto[m] == front[m]);
                    }
                }
                assert(upto[i as int] == edge);
            }
        }
        i = i + 1;
    }
    assert(edges@.take(edges@.len() as int) =~= edges@);
}

/// Finds the parts that a shell falls into without a host.
pub fn feature_groups(
    entities: &Vec<EntityInstance>,
    index: &HashMap<u64, usize>,
    faces: &Vec<u64>,
    host: u64,
) -> (out: Vec<Vec<u64>>)
    requires
        indexes(index@, entities_view(entities@)),
    ensures
        all_components(
            beside(entities_view(entities@), faces@, host),
            others(faces@, host),
            lists_view(out@),
        ),
{
    let (by_face, by_edge) = edge_tables(faces, entities, index);
    face_components_without_host(
        faces,
        host,
        &by_face,
        &by_edge,
        Ghost(entities_view(entities@)),
    )
}

/// The parts that a shell falls into without a host.
pub(crate) fn face_components_without_host(
    faces: &Vec<u64>,
    host: u64,
    by_face: &HashMap<u64, Vec<u64>>,
    by_edge: &HashMap<u64, Vec<u64>>,
    Ghost(entities): Ghost<Seq<EntityView>>,
) -> (out: Vec<Vec<u64>>)
    requires
        gives_edges(by_face@, entities, faces@),
        gives_users(by_edge@, entities, faces@),
    ensures
        all_components(
            beside(entities, faces@, host),
            others(faces@, host),
            lists_view(out@),
        ),
{
    let nodes = find_others(faces, host);
    let ghost step = beside(entities, faces@, host);
    let mut table: HashMap<u64, Vec<u64>> = HashMap::new();
    let mut i: usize = 0;
    while i < nodes.len()
        invariant
            i <= nodes.len(),
            gives_edges(by_face@, entities, faces@),
            gives_users(by_edge@, entities, faces@),
            step == beside(entities, faces@, host),
            forall|f: u64| #[trigger] nodes@.contains(f) == (faces@.contains(f) && f != host),
            forall|x: u64, y: u64| #[trigger] leads(table@, x, y) ==> step(x, y),
            forall|j: int, y: int|
                #![trigger nodes@[j], nodes@[y]]
                0 <= j < i && 0 <= y < nodes@.len() && step(nodes@[j], nodes@[y]) ==> leads(
                    table@,
                    nodes@[j],
                    nodes@[y],
                ),
        decreases nodes.len() - i,
    {
        let face: u64 = nodes[i];
        let ghost before = table@;
        assert(nodes@.contains(face));
        assert(by_face@.contains_key(face) == (faces@.contains(face) && face_edges(
            entities,
            face,
        ) is Some));
        if let Some(edges) = by_face.get(&face) {
            add_beside(&mut table, face, host, edges, by_edge, Ghost(entities), Ghost(faces@));
            proof {
                assert forall|x: u64, y: u64| #[trigger] leads(table@, x, y) implies step(x, y) by {
                    if !leads(before, x, y) {
                        let m = choose|m: int|
                            0 <= m < edges@.len() && users(
                                entities,
                                faces@,
                                #[trigger] edges@[m],
                            ).contains(y);
                        assert(faces@.take(faces@.len() as int) =~= faces@);
                        lemma_attached(entities, faces@, edges@[m], faces@.len(), x);
                        assert(edges@.contains(edges@[m]));
                        assert(users(entities, faces@, edges@[m]).contains(x));
                    }
                }
            }
        }
        proof {
            assert forall|j: int, y: int|
                #![trigger nodes@[j], nodes@[y]]
                0 <= j < i + 1 && 0 <= y < nodes@.len() && step(nodes@[j], nodes@[y]) implies leads(
                table@,
                nodes@[j],
                nodes@[y],
            ) by {
                if j < i {
                    assert(leads(before, nodes@[j], nodes@[y]));
                } else {
                    let b = nodes@[y];
                    let edge = choose|edge: u64|
                        #![trigger users(entities, faces@, edge)]
                        users(entities, faces@, edge).contains(face) && users(
                            entities,
                            faces@,
                            edge,
                        ).contains(b);
                    assert(faces@.take(faces@.len() as int) =~= faces@);
                    lemma_attached(entities, faces@, edge, faces@.len(), face);
                    let edges = by_face@[face]@;
                    assert(edges.contains(edge));
                    let m = choose|m: int| 0 <= m < edges.len() && edges[m] == edge;
                    assert(users(entities, faces@, edges[m]).contains(b));
                    assert(through(entities, faces@, host, edges, face, b));
                }
            }
        }
        i = i + 1;
    }
    proof {
        assert forall|x: u64, y: u64| #[trigger] step(x, y) implies nodes@.contains(x)
            && nodes@.contains(y) && step(y, x) by {
            let edge = choose|edge: u64|
                #![trigger users(entities, faces@, edge)]
                users(entities, faces@, edge).contains(x) && users(entities, faces@, edge).contains(
                    y,
                );
            assert(faces@.take(faces@.len() as int) =~= faces@);
            lemma_attached(entities, faces@, edge, faces@.len(), x);
            lemma_attached(entities, faces@, edge, faces@.len(), y);
            assert(users(entities, faces@, edge).contains(y));
        }
        assert(table_step(table@) =~= step) by {
            assert forall|x: u64, y: u64| #[trigger] table_step(table@)(x, y) == step(x, y) by {
                if step(x, y) {
                    let j = choose|j: int| 0 <= j < nodes@.len() && nodes@[j] == x;
                    let k = choose|k: int| 0 <= k < nodes@.len() && nodes@[k] == y;
                    assert(leads(table@, nodes@[j], nodes@[k]));
                }
            }
        }
        assert forall|x: u64, y: u64| #[trigger] leads(table@, x, y) implies nodes@.to_set().contains(
            y,
        ) by {
            assert(step(x, y));
        }
    }
    find_components(&table, &nodes)
}

/// Whether each edge of a group lies between two of its faces, or between one and the host.
fn find_closed_off(
    group: &Vec<u64>,
    host: u64,
    by_face: &HashMap<u64, Vec<u64>>,
    by_edge: &HashMap<u64, Vec<u64>>,
    Ghost(entities): Ghost<Seq<EntityView>>,
    Ghost(faces): Ghost<Seq<u64>>,
) -> (out: bool)
    requires
        gives_edges(by_face@, entities, faces),
        gives_users(by_edge@, entities, faces),
        forall|i: int| 0 <= i < group@.len() ==> faces.contains(#[trigger] group@[i]),
    ensures
        out == is_closed_off(entities, faces, group@, host),
{
    let out = component_is_two_manifold_with_host(group, host, by_face, by_edge);
    proof {
        let a = is_two_manifold(group@, host, by_face@, by_edge@);
        let b = is_closed_off(entities, faces, group@, host);
        if a {
            assert forall|f: int| 0 <= f < group@.len() implies is_shut(
                entities,
                faces,
                group@,
                host,
                #[trigger] group@[f],
            ) by {
                let face = group@[f];
                assert(by_face@.contains_key(face));
                let edges = by_face@[face]@;
                assert(edges_closed(group@, host, edges, by_edge@));
                assert forall|e: int| 0 <= e < edges.len() implies edge_is_closed(
                    group@,
                    host,
                    users(entities, faces, #[trigger] edges[e]),
                ) by {
                    assert(listed(by_edge@, edges[e]) == users(entities, faces, edges[e]));
                    assert(by_edge@.contains_key(edges[e]));
                }
            }
        }
        if b {
            assert forall|f: int| 0 <= f < group@.len() implies by_face@.contains_key(
                #[trigger] group@[f],
            ) && edges_closed(group@, host, by_face@[group@[f]]@, by_edge@) by {
                let face = group@[f];
                assert(is_shut(entities, faces, group@, host, face));
                assert(faces.contains(face));
                assert(by_face@.contains_key(face));
                let edges = by_face@[face]@;
                assert forall|e: int| 0 <= e < edges.len() implies by_edge@.contains_key(
                    #[trigger] edges[e],
                ) && edge_is_closed(group@, host, by_edge@[edges[e]]@) by {
                    assert(listed(by_edge@, edges[e]) == users(entities, faces, edges[e]));
                    assert(edge_is_closed(group@, host, users(entities, faces, edges[e])));
                }
            }
        }
    }
    out
}

/// The edges between a group of faces and the host.
pub(crate) fn component_interface_edges(
    group: &Vec<u64>,
    host: u64,
    by_face: &HashMap<u64, Vec<u64>>,
    by_edge: &HashMap<u64, Vec<u64>>,
    Ghost(entities): Ghost<Seq<EntityView>>,
    Ghost(faces): Ghost<Seq<u64>>,
) -> (out: Vec<u64>)
    requires
        gives_edges(by_face@, entities, faces),
        gives_users(by_edge@, entities, faces),
        forall|i: int| 0 <= i < group@.len() ==> faces.contains(#[trigger] group@[i]),
    ensures
        out@ == interface_edges(entities, faces, host, group@),
{
    let mut out: Vec<u64> = Vec::new();
    let mut i: usize = 0;
    assert(group@.take(0) =~= Seq::empty());
    while i < group.len()
        invariant
            i <= group.len(),
            gives_edges(by_face@, entities, faces),
            gives_users(by_edge@, entities, faces),
            forall|k: int| 0 <= k < group@.len() ==> faces.contains(#[trigger] group@[k]),
            out@ == interface_edges(entities, faces, host, group@.take(i as int)),
        decreases group.len() - i,
    {
        let face: u64 = group[i];
        let ghost before = out@;
        assert(faces.contains(group@[i as int]));
        assert(by_face@.contains_key(face) == (face_edges(entities, face) is Some));
        assert(before + host_edges(entities, faces, host, Seq::empty()) =~= before);
        if let Some(edges) = by_face.get(&face) {
            let mut k: usize = 0;
            assert(edges@.take(0) =~= Seq::empty());
            while k < edges.len()
                invariant
                    k <= edges.len(),
                    gives_users(by_edge@, entities, faces),
                    out@ == before + host_edges(entities, faces, host, edges@.take(k as int)),
                decreases edges.len() - k,
            {
                let edge: u64 = edges[k];
                assert(listed(by_edge@, edge) == users(entities, faces, edge));
                let ghost some = host_edges(entities, faces, host, edges@.take(k as int));
                let at_host = match by_edge.get(&edge) {
                    Some(list) => list_contains(list, host),
                    None => false,
                };
                if at_host {
                    out.push(edge);
                    assert(out@ =~= before + some.push(edge));
                }
                k = k + 1;
                assert(edges@.take(k as int).drop_last() =~= edges@.take(k - 1));
            }
            assert(edges@.take(edges@.len() as int) =~= edges@);
        }
        i = i + 1;
        assert(group@.take(i as int).drop_last() =~= group@.take(i - 1));
    }
    assert(group@.take(group@.len() as int) =~= group@);
    out
}

/// The inner bounds whose edges are given by a sorted list.
fn find_bounds_with(
    bounds: &Vec<u64>,
    key: &Vec<u64>,
    entities: &Vec<EntityInstance>,
    index: &HashMap<u64, usize>,
) -> (out: Vec<InnerBound>)
    requires
        indexes(index@, entities_view(entities@)),
    ensures
        out@ == bounds_with(entities_view(entities@), bounds@, key@),
{
    let ghost views = entities_view(entities@);
    let mut out: Vec<InnerBound> = Vec::new();
    let mut i: usize = 0;
    assert(bounds@.take(0) =~= Seq::empty());
    while i < bounds.len()
        invariant
            i <= bounds.len(),
            views == entities_view(entities@),
            indexes(index@, views),
            out@ == bounds_with(views, bounds@.take(i as int), key@),
        decreases bounds.len() - i,
    {
        let bound: u64 = bounds[i];
        if find_typed(entities, index, bound, "FACE_BOUND").is_some() {
            if let Some((loop_id, edges, orientation)) = bound_loop_edges(bound, entities, index) {
                let sorted = sorted_set(&edges);
                if same_ids(&sorted, key) {
                    out.push(InnerBound { bound, loop_id, orientation });
                }
            }
        }
        i = i + 1;
        assert(bounds@.take(i as int).drop_last() =~= bounds@.take(i - 1));
    }
    assert(bounds@.take(bounds@.len() as int) =~= bounds@);
    out
}

/// What was measured of a group of faces.
fn find_measured(measures: &Vec<FeatureMeasure>, host: u64, faces: &Vec<u64>) -> (out: Option<
    (u64, u8),
>)
    ensures
        out is Some == measured(measures_view(measures@), host, faces@) is Some,
        out matches Some(found) ==> measured(measures_view(measures@), host, faces@) matches Some(
            measure,
        ) && measure.class == found.0 && measure.quarter == found.1,
{
    let ghost views = measures_view(measures@);
    let mut i: usize = measures.len();
    assert(views.take(views.len() as int) =~= views);
    while i > 0
        invariant
            i <= measures.len(),
            views == measures_view(measures@),
            measured(views, host, faces@) == measured(views.take(i as int), host, faces@),
        decreases i,
    {
        i = i - 1;
        assert(views.take(i + 1).drop_last() =~= views.take(i as int));
        assert(views[i as int] == measures@[i as int]@);
        if measures[i].host == host && same_ids(&measures[i].faces, faces) {
            return Some((measures[i].class, measures[i].quarter));
        }
    }
    None
}

/// Where the look of a group of faces comes from.
#[derive(Debug)]
pub enum StyleKey {
    Face(Vec<u64>),
    Container,
    Plain,
}

impl View for StyleKey {
    type V = LookView;

    open spec fn view(&self) -> LookView {
        match self {
            StyleKey::Face(styles) => LookView::Face(styles@),
            StyleKey::Container => LookView::Container,
            StyleKey::Plain => LookView::Plain,
        }
    }
}

fn same_look(a: &StyleKey, b: &StyleKey) -> (out: bool)
    ensures
        out == (a@ == b@),
{
    match (a, b) {
        (StyleKey::Face(x), StyleKey::Face(y)) => same_ids(x, y),
        (StyleKey::Container, StyleKey::Container) => true,
        (StyleKey::Plain, StyleKey::Plain) => true,
        _ => false,
    }
}

fn find_all_bare(
    origin: &Vec<EntityInstance>,
    table: &HashMap<u64, Vec<u64>>,
    faces: &Vec<u64>,
) -> (out: bool)
    requires
        forall|t: u64| #[trigger]
            listed(table@, t) == face_styles(entities_view(origin@), t),
    ensures
        out == all_bare(entities_view(origin@), faces@),
{
    let ghost views = entities_view(origin@);
    let mut i: usize = 0;
    while i < faces.len()
        invariant
            i <= faces.len(),
            views == entities_view(origin@),
            forall|t: u64| #[trigger] listed(table@, t) == face_styles(views, t),
            forall|j: int| 0 <= j < i ==> applied(views, #[trigger] faces@[j]).len() == 0,
        decreases faces.len() - i,
    {
        let styles = applied_styles(origin, table, faces[i]);
        assert(styles_view(styles@).len() == styles@.len());
        if styles.len() > 0 {
            assert(applied(views, faces@[i as int]).len() > 0);
            return false;
        }
        i = i + 1;
    }
    true
}

/// The look of a group of faces.
pub fn feature_style(
    origin: &Vec<EntityInstance>,
    table: &HashMap<u64, Vec<u64>>,
    container: u64,
    faces: &Vec<u64>,
) -> (out: Option<StyleKey>)
    requires
        forall|t: u64| #[trigger]
            listed(table@, t) == face_styles(entities_view(origin@), t),
    ensures
        out is Some == group_look(entities_view(origin@), container, faces@) is Some,
        out matches Some(look) ==> group_look(entities_view(origin@), container, faces@) == Some(
            look@,
        ),
{
    if find_all_bare(origin, table, faces) {
        let styles = applied_styles(origin, table, container);
        assert(styles_view(styles@).len() == styles@.len());
        if styles.len() > 0 {
            Some(StyleKey::Container)
        } else {
            Some(StyleKey::Plain)
        }
    } else {
        match find_faces_style(origin, table, faces) {
            Some(styles) => Some(StyleKey::Face(styles)),
            None => None,
        }
    }
}

/// A group of faces that stands out of a host face.
#[derive(Debug)]
pub struct Feature {
    pub faces: Vec<u64>,
    pub bound: InnerBound,
    pub class: u64,
    pub quarter: u8,
    pub look: StyleKey,
}

impl View for Feature {
    type V = FeatureView;

    open spec fn view(&self) -> FeatureView {
        FeatureView {
            faces: self.faces@,
            bound: self.bound,
            class: self.class,
            quarter: self.quarter,
            look: self.look@,
        }
    }
}

pub open spec fn features_view(features: Seq<Feature>) -> Seq<FeatureView> {
    Seq::new(features.len(), |i: int| features[i]@)
}

fn find_claimed(claimed: &HashSet<u64>, faces: &Vec<u64>) -> (out: bool)
    ensures
        out == is_claimed(claimed@, faces@),
{
    let mut i: usize = 0;
    while i < faces.len()
        invariant
            i <= faces.len(),
            forall|j: int| 0 <= j < i ==> !claimed@.contains(#[trigger] faces@[j]),
        decreases faces.len() - i,
    {
        if claimed.contains(&faces[i]) {
            assert(claimed@.contains(faces@[i as int]));
            return true;
        }
        i = i + 1;
    }
    false
}

/// What a shell looks like from one of its hosts.
pub struct HostScene<'a> {
    pub origin: &'a Vec<EntityInstance>,
    pub table: &'a HashMap<u64, Vec<u64>>,
    pub entities: &'a Vec<EntityInstance>,
    pub index: &'a HashMap<u64, usize>,
    pub measures: &'a Vec<FeatureMeasure>,
    pub container: u64,
    pub faces: &'a Vec<u64>,
    pub by_face: &'a HashMap<u64, Vec<u64>>,
    pub by_edge: &'a HashMap<u64, Vec<u64>>,
    pub claimed_faces: &'a HashSet<u64>,
    pub claimed_bounds: &'a HashSet<u64>,
}

impl<'a> HostScene<'a> {
    pub open spec fn is_valid(&self) -> bool {
        &&& forall|t: u64| #[trigger]
            listed(self.table@, t) == face_styles(entities_view(self.origin@), t)
        &&& indexes(self.index@, entities_view(self.entities@))
        &&& gives_edges(self.by_face@, entities_view(self.entities@), self.faces@)
        &&& gives_users(self.by_edge@, entities_view(self.entities@), self.faces@)
    }

    /// What a part of the shell is.
    pub open spec fn feature(&self, host: u64, bounds: Seq<u64>, part: Seq<u64>) -> Option<
        FeatureView,
    > {
        feature(
            entities_view(self.origin@),
            entities_view(self.entities@),
            measures_view(self.measures@),
            self.container,
            self.faces@,
            host,
            bounds,
            self.claimed_faces@,
            self.claimed_bounds@,
            part,
        )
    }

    pub open spec fn features(
        &self,
        host: u64,
        bounds: Seq<u64>,
        parts: Seq<Seq<u64>>,
        n: nat,
    ) -> Seq<FeatureView> {
        features(
            entities_view(self.origin@),
            entities_view(self.entities@),
            measures_view(self.measures@),
            self.container,
            self.faces@,
            host,
            bounds,
            self.claimed_faces@,
            self.claimed_bounds@,
            parts,
            n,
        )
    }

    fn find_feature(&self, host: u64, bounds: &Vec<u64>, part: &Vec<u64>) -> (out: Option<Feature>)
        requires
            self.is_valid(),
            forall|i: int| 0 <= i < part@.len() ==> self.faces@.contains(#[trigger] part@[i]),
        ensures
            out is Some == self.feature(host, bounds@, part@) is Some,
            out matches Some(found) ==> self.feature(host, bounds@, part@) == Some(found@)
                && found.faces@ == part@,
    {
        let ghost views = entities_view(self.entities@);
        if part.len() > MAX_FEATURE_FACES {
            return None;
        }
        if find_claimed(self.claimed_faces, part) {
            return None;
        }
        if !find_closed_off(
            part,
            host,
            self.by_face,
            self.by_edge,
            Ghost(views),
            Ghost(self.faces@),
        ) {
            return None;
        }
        let edges = component_interface_edges(
            part,
            host,
            self.by_face,
            self.by_edge,
            Ghost(views),
            Ghost(self.faces@),
        );
        if edges.len() == 0 {
            return None;
        }
        let key = sorted_set(&edges);
        let found = find_bounds_with(bounds, &key, self.entities, self.index);
        if found.len() != 1 {
            return None;
        }
        let bound = found[0];
        if self.claimed_bounds.contains(&bound.bound) {
            return None;
        }
        let (class, quarter): (u64, u8) = match find_measured(self.measures, host, part) {
            Some(found) => found,
            None => {
                return None;
            },
        };
        match feature_style(self.origin, self.table, self.container, part) {
            Some(look) => {
                let mut faces: Vec<u64> = Vec::new();
                append_ids(&mut faces, part);
                assert(faces@ =~= part@);
                Some(Feature { faces, bound, class, quarter, look })
            },
            None => None,
        }
    }

    /// The groups of faces that stand out of a host.
    pub(crate) fn find_features(
        &self,
        host: u64,
        bounds: &Vec<u64>,
        parts: &Vec<Vec<u64>>,
    ) -> (out: Vec<Feature>)
        requires
            self.is_valid(),
            all_components(
                beside(entities_view(self.entities@), self.faces@, host),
                others(self.faces@, host),
                lists_view(parts@),
            ),
        ensures
            features_view(out@) == self.features(host, bounds@, lists_view(parts@), parts@.len()),
            forall|k: int| 0 <= k < out@.len() ==> (#[trigger] out@[k]).faces@.len() > 0,
    {
        let ghost views = entities_view(self.entities@);
        let ghost part_views = lists_view(parts@);
        let mut out: Vec<Feature> = Vec::new();
        let mut i: usize = 0;
        assert(features_view(out@) =~= Seq::empty());
        while i < parts.len()
            invariant
                i <= parts.len(),
                self.is_valid(),
                views == entities_view(self.entities@),
                part_views == lists_view(parts@),
                all_components(
                    beside(views, self.faces@, host),
                    others(self.faces@, host),
                    part_views,
                ),
                features_view(out@) == self.features(host, bounds@, part_views, i as nat),
                forall|k: int| 0 <= k < out@.len() ==> (#[trigger] out@[k]).faces@.len() > 0,
            decreases parts.len() - i,
        {
            proof {
                assert(part_views[i as int] == parts@[i as int]@);
                assert(part_views.contains(part_views[i as int]));
                lemma_part_faces(views, self.faces@, host, part_views, i as int);
            }
            let ghost before = out@;
            if let Some(found) = self.find_feature(host, bounds, &parts[i]) {
                out.push(found);
                assert(features_view(out@) =~= features_view(before).push(found@));
            }
            i = i + 1;
        }
        out
    }
}

/// The parts of a shell are made of its faces.
proof fn lemma_part_faces(
    entities: Seq<EntityView>,
    faces: Seq<u64>,
    host: u64,
    parts: Seq<Seq<u64>>,
    i: int,
)
    requires
        all_components(beside(entities, faces, host), others(faces, host), parts),
        0 <= i < parts.len(),
    ensures
        forall|k: int| 0 <= k < parts[i].len() ==> faces.contains(#[trigger] parts[i][k]),
{
    let step = beside(entities, faces, host);
    let part = parts[i];
    assert(parts.contains(part));
    lemma_others(faces, host);
    assert forall|k: int| 0 <= k < part.len() implies faces.contains(#[trigger] part[k]) by {
        assert(part.contains(part[k]));
        let path = choose|path: Seq<u64>| #[trigger]
            crate::sets::is_path(step, path) && path[0] == part[0] && path.last() == part[k];
        let last = path.len() - 1;
        if last > 0 {
            assert(step(path[last - 1], path[last - 1 + 1]));
            let edge = choose|edge: u64|
                #![trigger users(entities, faces, edge)]
                users(entities, faces, edge).contains(path[last - 1]) && users(
                    entities,
                    faces,
                    edge,
                ).contains(path[last]);
            assert(faces.take(faces.len() as int) =~= faces);
            lemma_attached(entities, faces, edge, faces.len(), path[last]);
        }
    }
}

proof fn lemma_others(faces: Seq<u64>, host: u64)
    ensures
        forall|f: u64| #[trigger] others(faces, host).contains(f) ==> faces.contains(f),
    decreases faces.len(),
{
    if faces.len() > 0 {
        lemma_others(faces.drop_last(), host);
        let rest = others(faces.drop_last(), host);
        let all = others(faces, host);
        assert forall|f: u64| #[trigger] all.contains(f) implies faces.contains(f) by {
            let k = choose|k: int| 0 <= k < all.len() && all[k] == f;
            if k < rest.len() {
                assert(rest[k] == f);
                assert(rest.contains(f));
                let m = choose|m: int|
                    0 <= m < faces.drop_last().len() && faces.drop_last()[m] == f;
                assert(faces[m] == f);
            } else {
                assert(faces[faces.len() - 1] == f);
            }
        }
    }
}

fn find_repeats(a: &Feature, b: &Feature) -> (out: bool)
    ensures
        out == repeats(a@, b@),
{
    a.class == b.class && a.bound.orientation == b.bound.orientation && same_look(&a.look, &b.look)
}

/// The groups at some places.
pub open spec fn picked(features: Seq<FeatureView>, at: Seq<usize>) -> Seq<FeatureView> {
    Seq::new(at.len(), |i: int| features[at[i] as int])
}

pub open spec fn all_picked(features: Seq<FeatureView>, at: Seq<Vec<usize>>) -> Seq<
    Seq<FeatureView>,
> {
    Seq::new(at.len(), |i: int| picked(features, at[i]@))
}

/// The places of the groups that are like one of them.
fn find_family(features: &Vec<Feature>, i: usize) -> (out: Vec<usize>)
    requires
        i < features.len(),
    ensures
        picked(features_view(features@), out@) == family(
            features_view(features@),
            features_view(features@)[i as int],
            features@.len(),
        ),
        forall|k: int| 0 <= k < out@.len() ==> #[trigger] out@[k] < features@.len(),
{
    let ghost views = features_view(features@);
    let mut out: Vec<usize> = Vec::new();
    let mut k: usize = 0;
    assert(picked(views, out@) =~= Seq::empty());
    while k < features.len()
        invariant
            k <= features.len(),
            i < features.len(),
            views == features_view(features@),
            picked(views, out@) == family(views, views[i as int], k as nat),
            forall|m: int| 0 <= m < out@.len() ==> #[trigger] out@[m] < features@.len(),
        decreases features.len() - k,
    {
        assert(views[k as int] == features@[k as int]@);
        assert(views[i as int] == features@[i as int]@);
        let ghost before = out@;
        if find_repeats(&features[k], &features[i]) {
            out.push(k);
            assert(picked(views, out@) =~= picked(views, before).push(views[k as int]));
        }
        k = k + 1;
    }
    out
}

fn find_leads(features: &Vec<Feature>, i: usize) -> (out: bool)
    requires
        i < features.len(),
    ensures
        out == leads_family(features_view(features@), i as int),
{
    let ghost views = features_view(features@);
    let mut j: usize = 0;
    while j < i
        invariant
            j <= i < features.len(),
            views == features_view(features@),
            forall|k: int| 0 <= k < j ==> !repeats(#[trigger] views[k], views[i as int]),
        decreases i - j,
    {
        assert(views[j as int] == features@[j as int]@);
        assert(views[i as int] == features@[i as int]@);
        if find_repeats(&features[j], &features[i]) {
            return false;
        }
        j = j + 1;
    }
    true
}

/// The places of the groups of each family that is large enough.
pub fn find_families(features: &Vec<Feature>) -> (out: Vec<Vec<usize>>)
    ensures
        all_picked(features_view(features@), out@) == families(
            features_view(features@),
            features@.len(),
        ),
        forall|g: int, k: int|
            0 <= g < out@.len() && 0 <= k < out@[g]@.len() ==> #[trigger] out@[g]@[k]
                < features@.len(),
        forall|g: int| 0 <= g < out@.len() ==> (#[trigger] out@[g])@.len() >= MIN_GROUP,
{
    let ghost views = features_view(features@);
    let mut out: Vec<Vec<usize>> = Vec::new();
    let mut i: usize = 0;
    assert(all_picked(views, out@) =~= Seq::empty());
    while i < features.len()
        invariant
            i <= features.len(),
            views == features_view(features@),
            all_picked(views, out@) == families(views, i as nat),
            forall|g: int, k: int|
                0 <= g < out@.len() && 0 <= k < out@[g]@.len() ==> #[trigger] out@[g]@[k]
                    < features@.len(),
            forall|g: int| 0 <= g < out@.len() ==> (#[trigger] out@[g])@.len() >= MIN_GROUP,
        decreases features.len() - i,
    {
        let ghost before = out@;
        if find_leads(features, i) {
            let group = find_family(features, i);
            assert(picked(views, group@).len() == group@.len());
            if group.len() >= MIN_GROUP {
                let ghost those = group@;
                out.push(group);
                assert(all_picked(views, out@) =~= all_picked(views, before).push(
                    picked(views, those),
                ));
            }
        }
        i = i + 1;
    }
    out
}

/// The hosts of a shell.
pub fn find_hosts(
    faces: &Vec<u64>,
    entities: &Vec<EntityInstance>,
    index: &HashMap<u64, usize>,
) -> (out: Vec<u64>)
    requires
        indexes(index@, entities_view(entities@)),
    ensures
        out@ == hosts(entities_view(entities@), faces@),
{
    let ghost views = entities_view(entities@);
    let mut out: Vec<u64> = Vec::new();
    let mut i: usize = 0;
    assert(faces@.take(0) =~= Seq::empty());
    while i < faces.len()
        invariant
            i <= faces.len(),
            views == entities_view(entities@),
            indexes(index@, views),
            out@ == hosts(views, faces@.take(i as int)),
        decreases faces.len() - i,
    {
        let face: u64 = faces[i];
        let plane = match face_surface(face, entities, index) {
            Some(surface) => find_typed(entities, index, surface, "PLANE").is_some(),
            None => false,
        };
        if plane {
            if let Some(bounds) = ref_list_param(face, 1, entities, index) {
                if bounds.len() > MIN_GROUP {
                    out.push(face);
                }
            }
        }
        i = i + 1;
        assert(faces@.take(i as int).drop_last() =~= faces@.take(i - 1));
    }
    assert(faces@.take(faces@.len() as int) =~= faces@);
    out
}

} // verus!
