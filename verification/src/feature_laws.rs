//! What groups of faces, solids, edges and instances have in common.

use vstd::prelude::*;

use crate::ast::{EntityView, ParamView, RecordView};
use crate::bound_laws::law_kept_items_stay_in_order;
use crate::brep::{bound_loop, face_edges};
use crate::chain_laws::lemma_inserted;
use crate::compatibility::{
    any_record, assembly_type, audits, mapped_type, replica_type, risk_total, risk_type,
    CompatibilityAudit,
};
use crate::face_coalesce::ref_params;
use crate::face_info::edge_vertices_of;
use crate::graph::{nth, nth_ref, ref_value, simple_record};
use crate::instance_groups::{groups_of, key_of, put_instance, GroupKeyView, GroupView};
use crate::instances::{members, patched, InfoView};
use crate::partition_joins::{edge_with, end_joins, matched};
use crate::planar_plan::{
    bounds_with, families, family, feature, host_edges, interface_edges, measured, users,
    FeatureView, MeasureView, MIN_GROUP,
};
use crate::resize_laws::law_sorted_keeps_ids;
use crate::sets::sorted_of;

verus! {

/// Whether two groups of faces are of one class, look the same, and have bounds that are taken
/// in the same way.
pub open spec fn are_of_one_kind(a: FeatureView, b: FeatureView) -> bool {
    &&& a.class == b.class
    &&& a.look == b.look
    &&& a.bound.orientation == b.bound.orientation
}

proof fn lemma_family(all: Seq<FeatureView>, like: FeatureView, n: nat)
    requires
        n <= all.len(),
    ensures
        family(all, like, n) == all.take(n as int).filter(
            |f: FeatureView| are_of_one_kind(f, like),
        ),
    decreases n,
{
    reveal(Seq::filter);
    let kind = |f: FeatureView| are_of_one_kind(f, like);
    let part = all.take(n as int);
    if n > 0 {
        let m = (n - 1) as nat;
        lemma_family(all, like, m);
        assert(part.drop_last() =~= all.take(m as int));
        assert(part.last() == all[n - 1]);
    }
}

/// A family has all groups of faces of one kind, in their order, and is large enough.
pub proof fn law_family_has_all_of_one_kind(all: Seq<FeatureView>, n: nat, k: int)
    requires
        n <= all.len(),
        0 <= k < families(all, n).len(),
    ensures
        families(all, n)[k].len() >= MIN_GROUP,
        exists|i: int|
            0 <= i < n && families(all, n)[k] == all.filter(
                |f: FeatureView| are_of_one_kind(f, #[trigger] all[i]),
            ),
    decreases n,
{
    let rest = families(all, (n - 1) as nat);
    if k < rest.len() {
        law_family_has_all_of_one_kind(all, (n - 1) as nat, k);
        assert(families(all, n)[k] == rest[k]);
    } else {
        lemma_family(all, all[n - 1], all.len());
        assert(all.take(all.len() as int) =~= all);
        let like = all[n - 1];
        assert(families(all, n)[k] == all.filter(
            |f: FeatureView| are_of_one_kind(f, all[n - 1]),
        ));
    }
}

proof fn lemma_measured(measures: Seq<MeasureView>, host: u64, faces: Seq<u64>)
    ensures
        measured(measures, host, faces) matches Some(found) ==> measures.contains(found)
            && found.host == host && found.faces == faces,
    decreases measures.len(),
{
    if measures.len() > 0 {
        let front = measures.drop_last();
        lemma_measured(front, host, faces);
        assert(measures[measures.len() - 1] == measures.last());
        if let Some(found) = measured(front, host, faces) {
            if front.contains(found) {
                let k = choose|k: int| 0 <= k < front.len() && front[k] == found;
                assert(measures[k] == found);
            }
        }
    }
}

proof fn lemma_bounds_with(
    entities: Seq<EntityView>,
    bounds: Seq<u64>,
    key: Seq<u64>,
    i: int,
)
    requires
        0 <= i < bounds_with(entities, bounds, key).len(),
    ensures
        ({
            let found = bounds_with(entities, bounds, key)[i];
            &&& bounds.contains(found.bound)
            &&& bound_loop(entities, found.bound) matches Some(
                (loop_id, edges, orientation),
            )
            &&& loop_id == found.loop_id
            &&& orientation == found.orientation
            &&& sorted_of(edges) == key
        }),
    decreases bounds.len(),
{
    if bounds.len() > 0 {
        let front = bounds.drop_last();
        let rest = bounds_with(entities, front, key);
        let found = bounds_with(entities, bounds, key)[i];
        if i < rest.len() {
            lemma_bounds_with(entities, front, key, i);
            assert(found == rest[i]);
            let k = choose|k: int| 0 <= k < front.len() && front[k] == found.bound;
            assert(bounds[k] == found.bound);
        } else {
            assert(bounds[bounds.len() - 1] == found.bound);
        }
    }
}

/// Whether an edge lies between a face of a group and the host.
pub open spec fn lies_between(
    entities: Seq<EntityView>,
    faces: Seq<u64>,
    host: u64,
    part: Seq<u64>,
    edge: u64,
) -> bool {
    &&& users(entities, faces, edge).contains(host)
    &&& exists|i: int|
        0 <= i < part.len() && (face_edges(entities, #[trigger] part[i]) matches Some(edges)
            && edges.contains(edge))
}

proof fn lemma_host_edges(
    entities: Seq<EntityView>,
    faces: Seq<u64>,
    host: u64,
    edges: Seq<u64>,
    edge: u64,
)
    ensures
        host_edges(entities, faces, host, edges).contains(edge) == (edges.contains(edge) && users(
            entities,
            faces,
            edge,
        ).contains(host)),
    decreases edges.len(),
{
    if edges.len() > 0 {
        let front = edges.drop_last();
        let rest = host_edges(entities, faces, host, front);
        let all = host_edges(entities, faces, host, edges);
        lemma_host_edges(entities, faces, host, front, edge);
        assert(edges[edges.len() - 1] == edges.last());
        if front.contains(edge) {
            let k = choose|k: int| 0 <= k < front.len() && front[k] == edge;
            assert(edges[k] == edge);
        }
        if edges.contains(edge) {
            let k = choose|k: int| 0 <= k < edges.len() && edges[k] == edge;
            if k < front.len() {
                assert(front[k] == edge);
            }
        }
        if rest.contains(edge) {
            let k = choose|k: int| 0 <= k < rest.len() && rest[k] == edge;
            assert(all[k] == edge);
        }
        if all.contains(edge) {
            let k = choose|k: int| 0 <= k < all.len() && all[k] == edge;
            if k < rest.len() {
                assert(rest[k] == edge);
            }
        }
        if users(entities, faces, edges.last()).contains(host) {
            assert(all[rest.len() as int] == edges.last());
        }
    }
}

proof fn lemma_interface(
    entities: Seq<EntityView>,
    faces: Seq<u64>,
    host: u64,
    part: Seq<u64>,
    edge: u64,
)
    ensures
        interface_edges(entities, faces, host, part).contains(edge) == lies_between(
            entities,
            faces,
            host,
            part,
            edge,
        ),
    decreases part.len(),
{
    if part.len() > 0 {
        let front = part.drop_last();
        lemma_interface(entities, faces, host, front, edge);
        let edges = match face_edges(entities, part.last()) {
            Some(edges) => edges,
            None => Seq::empty(),
        };
        lemma_host_edges(entities, faces, host, edges, edge);
        let a = interface_edges(entities, faces, host, front);
        let b = host_edges(entities, faces, host, edges);
        let all = interface_edges(entities, faces, host, part);
        assert(all == a + b);
        assert(part[part.len() - 1] == part.last());
        if a.contains(edge) {
            let k = choose|k: int| 0 <= k < a.len() && a[k] == edge;
            assert(all[k] == edge);
            let i = choose|i: int|
                0 <= i < front.len() && (face_edges(entities, #[trigger] front[i]) matches Some(
                    edges,
                ) && edges.contains(edge));
            assert(part[i] == front[i]);
        }
        if b.contains(edge) {
            let k = choose|k: int| 0 <= k < b.len() && b[k] == edge;
            assert(all[a.len() + k] == edge);
        }
        if all.contains(edge) {
            let k = choose|k: int| 0 <= k < all.len() && all[k] == edge;
            if k < a.len() {
                assert(a[k] == edge);
            } else {
                assert(b[k - a.len()] == edge);
            }
        }
        if lies_between(entities, faces, host, part, edge) {
            let i = choose|i: int|
                0 <= i < part.len() && (face_edges(entities, #[trigger] part[i]) matches Some(edges)
                    && edges.contains(edge));
            if i < front.len() {
                assert(front[i] == part[i]);
            }
        }
    }
}

/// A group of faces that may repeat is bounded, on its host, by a bound of the host whose loop
/// has just the edges between the group and the host. Its class and its turn are those that were
/// measured of these faces on this host.
pub proof fn law_group_is_bounded_by_its_edges(
    origin: Seq<EntityView>,
    entities: Seq<EntityView>,
    measures: Seq<MeasureView>,
    container: u64,
    faces: Seq<u64>,
    host: u64,
    bounds: Seq<u64>,
    claimed_faces: Set<u64>,
    claimed_bounds: Set<u64>,
    part: Seq<u64>,
    edge: u64,
)
    ensures
        feature(
            origin,
            entities,
            measures,
            container,
            faces,
            host,
            bounds,
            claimed_faces,
            claimed_bounds,
            part,
        ) matches Some(found) ==> {
            &&& found.faces == part
            &&& bounds.contains(found.bound.bound)
            &&& !claimed_bounds.contains(found.bound.bound)
            &&& bound_loop(entities, found.bound.bound) matches Some(
                (loop_id, edges, orientation),
            )
            &&& loop_id == found.bound.loop_id
            &&& orientation == found.bound.orientation
            &&& edges.contains(edge) == lies_between(entities, faces, host, part, edge)
            &&& exists|k: int|
                0 <= k < measures.len() && (#[trigger] measures[k]).host == host
                    && measures[k].faces == part && measures[k].class == found.class
                    && measures[k].quarter == found.quarter
        },
{
    if let Some(found) = feature(
        origin,
        entities,
        measures,
        container,
        faces,
        host,
        bounds,
        claimed_faces,
        claimed_bounds,
        part,
    ) {
        let edges = interface_edges(entities, faces, host, part);
        lemma_bounds_with(entities, bounds, sorted_of(edges), 0);
        lemma_interface(entities, faces, host, part, edge);
        let around = bound_loop(entities, found.bound.bound)->Some_0.1;
        law_sorted_keeps_ids(edges);
        law_sorted_keeps_ids(around);
        assert(sorted_of(edges).contains(edge) == edges.contains(edge));
        assert(sorted_of(around).contains(edge) == around.contains(edge));
        lemma_measured(measures, host, part);
        let measure = measured(measures, host, part)->Some_0;
        let k = choose|k: int| 0 <= k < measures.len() && measures[k] == measure;
        assert(measures[k].host == host);
    }
}

/// The solids of a group are those of one class with one style, in their order.
pub proof fn law_members_are_of_one_class(infos: Seq<InfoView>, like: InfoView, n: nat)
    requires
        n <= infos.len(),
    ensures
        members(infos, like, n) == infos.take(n as int).filter(
            |info: InfoView| info.class == like.class && info.style == like.style,
        ).map_values(|info: InfoView| info.root),
    decreases n,
{
    reveal(Seq::filter);
    let kind = |info: InfoView| info.class == like.class && info.style == like.style;
    let root = |info: InfoView| info.root;
    let part = infos.take(n as int);
    if n > 0 {
        let m = (n - 1) as nat;
        law_members_are_of_one_class(infos, like, m);
        let front = infos.take(m as int);
        assert(part.drop_last() =~= front);
        assert(part.last() == infos[n - 1]);
        assert(front.filter(kind).push(infos[n - 1]).map_values(root) =~= front.filter(
            kind,
        ).map_values(root).push(infos[n - 1].root));
    }
    assert(members(infos, like, n) =~= part.filter(kind).map_values(root));
}

proof fn lemma_edge_with(keyed: Seq<(u64, u64)>, class: u64)
    ensures
        edge_with(keyed, class) matches Some(edge) ==> keyed.contains((class, edge)),
    decreases keyed.len(),
{
    if keyed.len() > 0 {
        let front = keyed.drop_last();
        lemma_edge_with(front, class);
        assert(keyed[keyed.len() - 1] == keyed.last());
        if let Some(edge) = edge_with(front, class) {
            let k = choose|k: int| 0 <= k < front.len() && front[k] == (class, edge);
            assert(keyed[k] == (class, edge));
        }
    }
}

/// Every edge of one face is joined with an edge of the other face that is of its class, in the
/// order of the first.
pub proof fn law_matched_edges_are_of_one_class(a: Seq<(u64, u64)>, b: Seq<(u64, u64)>, i: int)
    requires
        matched(a, b) is Some,
        0 <= i < a.len(),
    ensures
        ({
            let joined = matched(a, b)->Some_0;
            &&& joined.len() == a.len()
            &&& joined[i].0 == a[i].1
            &&& b.contains((a[i].0, joined[i].1))
        }),
    decreases a.len(),
{
    let front = a.drop_last();
    lemma_edge_with(b, a.last().0);
    if i < front.len() {
        law_matched_edges_are_of_one_class(front, b, i);
        assert(front[i] == a[i]);
    } else if front.len() > 0 {
        law_matched_edges_are_of_one_class(front, b, 0);
    }
}

/// Vertices that are joined are ends of the two edges and lie at one point. Where the ends of
/// the first edge lie at two points, both are joined.
pub proof fn law_joined_ends_lie_at_one_point(
    entities: Seq<EntityView>,
    point: Map<u64, u64>,
    a_edge: u64,
    b_edge: u64,
    i: int,
)
    requires
        end_joins(entities, point, a_edge, b_edge) is Some,
        0 <= i < end_joins(entities, point, a_edge, b_edge)->Some_0.len(),
    ensures
        ({
            let joined = end_joins(entities, point, a_edge, b_edge)->Some_0;
            let a = edge_vertices_of(entities, a_edge)->Some_0;
            let b = edge_vertices_of(entities, b_edge)->Some_0;
            &&& joined[i].0 == a.0 || joined[i].0 == a.1
            &&& joined[i].1 == b.0 || joined[i].1 == b.1
            &&& point[joined[i].0] == point[joined[i].1]
            &&& point[a.0] != point[a.1] ==> joined.len() == 2 && joined[0].0 == a.0 && joined[1].0
                == a.1 && joined[0].1 != joined[1].1
        }),
{
}

/// Whether an instance has the key of a group: it maps the shape of the group, is turned as the
/// group is, and one representation alone lists it.
pub open spec fn has_key(
    entities: Seq<EntityView>,
    orientation: Map<u64, u64>,
    item: u64,
    key: GroupKeyView,
) -> bool {
    exists|i: int|
        {
            let entity = #[trigger] entities[i];
            &&& 0 <= i < entities.len()
            &&& entity.id() == item
            &&& key_of(entities, orientation, entity) == Some(key)
            &&& simple_record(entity) matches Some(record)
            &&& record.name == "MAPPED_ITEM"@
            &&& nth_ref(record, 1) == Some(key.map)
            &&& orientation[item] == key.orientation
        }
}

/// Whether all instances of groups have the keys of their groups.
pub open spec fn all_have_keys(
    entities: Seq<EntityView>,
    orientation: Map<u64, u64>,
    groups: Seq<GroupView>,
) -> bool {
    forall|g: int, item: u64|
        0 <= g < groups.len() && #[trigger] groups[g].items.contains(item) ==> has_key(
            entities,
            orientation,
            item,
            groups[g].key,
        )
}

proof fn lemma_put_instance(
    entities: Seq<EntityView>,
    orientation: Map<u64, u64>,
    groups: Seq<GroupView>,
    key: GroupKeyView,
    own: u64,
)
    requires
        all_have_keys(entities, orientation, groups),
        has_key(entities, orientation, own, key),
    ensures
        all_have_keys(entities, orientation, put_instance(groups, key, own)),
    decreases groups.len(),
{
    let out = put_instance(groups, key, own);
    assert forall|g: int, item: u64|
        0 <= g < out.len() && #[trigger] out[g].items.contains(item) implies has_key(
        entities,
        orientation,
        item,
        out[g].key,
    ) by {
        if groups.len() == 0 {
            assert(item == own);
        } else {
            let front = groups.drop_last();
            let last = groups.last();
            assert(groups[groups.len() - 1] == last);
            if last.key == key {
                if g < front.len() {
                    assert(out[g] == groups[g]);
                    assert(groups[g].items.contains(item));
                } else {
                    lemma_inserted(last.items, own, item);
                    if last.items.contains(item) {
                        assert(groups[groups.len() - 1].items.contains(item));
                    }
                }
            } else if !crate::instance_groups::key_before(key, last.key) {
                if g < groups.len() {
                    assert(groups[g].items.contains(item));
                } else {
                    assert(item == own);
                }
            } else {
                assert forall|h: int, other: u64|
                    0 <= h < front.len() && #[trigger] front[h].items.contains(other) implies has_key(
                    entities,
                    orientation,
                    other,
                    front[h].key,
                ) by {
                    assert(groups[h].items.contains(other));
                }
                lemma_put_instance(entities, orientation, front, key, own);
                let rest = put_instance(front, key, own);
                if g < rest.len() {
                    assert(rest[g].items.contains(item));
                } else {
                    assert(groups[groups.len() - 1].items.contains(item));
                }
            }
        }
    }
}

/// All instances of a group map one shape, and are turned alike.
pub proof fn law_groups_have_one_shape(
    entities: Seq<EntityView>,
    orientation: Map<u64, u64>,
    n: nat,
)
    requires
        n <= entities.len(),
    ensures
        all_have_keys(entities, orientation, groups_of(entities, orientation, n)),
    decreases n,
{
    if n > 0 {
        law_groups_have_one_shape(entities, orientation, (n - 1) as nat);
        if let Some(key) = key_of(entities, orientation, entities[n - 1]) {
            assert(has_key(entities, orientation, entities[n - 1].id(), key));
            lemma_put_instance(
                entities,
                orientation,
                groups_of(entities, orientation, (n - 1) as nat),
                key,
                entities[n - 1].id(),
            );
        }
    }
}

/// A presentation root in which items are replaced keeps its type and its other parameters, and
/// lists the items that stay, in their order, and then the new ones.
pub proof fn law_patched_root_keeps_the_rest(
    entity: EntityView,
    remove: Set<u64>,
    new: Seq<u64>,
)
    ensures
        patched(entity, remove, new).id() == entity.id(),
        patched(entity, remove, new) == entity || {
            &&& simple_record(entity) matches Some(before)
            &&& simple_record(patched(entity, remove, new)) matches Some(after)
            &&& after.name == before.name
            &&& exists|n: int|
                {
                    &&& #[trigger] nth(before, n) matches Some(ParamView::List(items))
                    &&& nth(after, n) == Some(
                        ParamView::List(
                            items.filter(
                                |p: ParamView| !(ref_value(p) matches Some(id) && remove.contains(id)),
                            ) + ref_params(new),
                        ),
                    )
                    &&& forall|k: int| k != n ==> #[trigger] nth(after, k) == nth(before, k)
                }
        },
{
    let after = patched(entity, remove, new);
    if after != entity {
        let record = simple_record(entity)->Some_0;
        let n = crate::instances::presented(record.name)->Some_0;
        let items = record.parameter->List_0[n]->List_0;
        law_kept_items_stay_in_order(items, remove);
        assert(nth(record, n) == Some(ParamView::List(items)));
    }
}

proof fn lemma_risks(records: Seq<RecordView>)
    ensures
        (risk_total(records) == 0) == !any_record(records, |name: Seq<char>| risk_type(name)),
    decreases records.len(),
{
    let f = |name: Seq<char>| risk_type(name);
    if records.len() > 0 {
        let front = records.drop_last();
        lemma_risks(front);
        assert(records[records.len() - 1] == records.last());
        if any_record(front, f) {
            let k = choose|k: int| 0 <= k < front.len() && f(#[trigger] front[k].name);
            assert(records[k] == front[k]);
            assert(f(records[k].name));
        }
        if any_record(records, f) {
            let k = choose|k: int| 0 <= k < records.len() && f(#[trigger] records[k].name);
            if k < front.len() {
                assert(front[k] == records[k]);
                assert(f(front[k].name));
            }
        }
        if risk_type(records.last().name) {
            assert(f(records[records.len() - 1].name));
        }
    }
}

/// An audit calls a structure conservative just where it has found no mapped items, no replicas
/// and no assemblies, and that is where it has counted nothing.
pub proof fn law_audit_agrees_with_itself(audit: CompatibilityAudit, records: Seq<RecordView>)
    requires
        audits(audit, records),
    ensures
        audit.conservative_structure == !(audit.has_mapped_items
            || audit.has_curve_or_surface_replicas || audit.has_assembly_relationships),
        audit.conservative_structure == (audit.structural_risk_total == 0),
{
    lemma_risks(records);
    let any = |name: Seq<char>| risk_type(name);
    let mapped = |name: Seq<char>| mapped_type(name);
    let replica = |name: Seq<char>| replica_type(name);
    let assembly = |name: Seq<char>| assembly_type(name);
    if any_record(records, any) {
        let k = choose|k: int| 0 <= k < records.len() && any(#[trigger] records[k].name);
        assert(mapped(records[k].name) || replica(records[k].name) || assembly(records[k].name));
    }
    if any_record(records, mapped) {
        let k = choose|k: int| 0 <= k < records.len() && mapped(#[trigger] records[k].name);
        assert(any(records[k].name));
    }
    if any_record(records, replica) {
        let k = choose|k: int| 0 <= k < records.len() && replica(#[trigger] records[k].name);
        assert(any(records[k].name));
    }
    if any_record(records, assembly) {
        let k = choose|k: int| 0 <= k < records.len() && assembly(#[trigger] records[k].name);
        assert(any(records[k].name));
    }
}

} // verus!
