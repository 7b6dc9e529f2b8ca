//! Groups of faces that continue each other on one surface.

use std::collections::HashMap;
use vstd::prelude::*;

use crate::ast::{entities_view, EntityInstance, EntityView};
use crate::face_info::{face_info, parse_face_info, FaceInfo};
use crate::graph::{add_entry, indexes, lemma_position, position};
use crate::sets::{ascending, leads, sorted_ids};
use crate::text::same_text;

verus! {

broadcast use vstd::std_specs::hash::group_hash_axioms;

/// Whether a face that can be read uses an edge.
pub open spec fn uses(entities: Seq<EntityView>, face: u64, edge: u64) -> bool {
    match face_info(entities, face) {
        Some(info) => exists|k: int| 0 <= k < info.oes.len() && (#[trigger] info.oes[k]).1 == edge,
        None => false,
    }
}

/// Whether two faces are the only ones that use an edge.
pub open spec fn only_users(entities: Seq<EntityView>, edge: u64, a: u64, b: u64) -> bool {
    &&& uses(entities, a, edge)
    &&& uses(entities, b, edge)
    &&& forall|f: u64| #[trigger] uses(entities, f, edge) ==> f == a || f == b
}

/// Whether two faces lie on the same surface with the same sense.
pub open spec fn same_support(entities: Seq<EntityView>, a: u64, b: u64) -> bool {
    match (face_info(entities, a), face_info(entities, b)) {
        (Some(x), Some(y)) => x.support == y.support && x.sense == y.sense,
        _ => false,
    }
}

/// Whether two faces continue each other: they lie on the same surface with the same sense,
/// and share an edge that no other face uses.
pub open spec fn adjacent(entities: Seq<EntityView>, a: u64, b: u64) -> bool {
    &&& a != b
    &&& same_support(entities, a, b)
    &&& exists|edge: u64| #[trigger] only_users(entities, edge, a, b)
}

pub open spec fn adjacency(entities: Seq<EntityView>) -> spec_fn(u64, u64) -> bool {
    |a: u64, b: u64| adjacent(entities, a, b)
}

/// The faces that can be read, with what was read.
pub open spec fn reads_faces(infos: Map<u64, FaceInfo>, entities: Seq<EntityView>) -> bool {
    forall|face: u64| #[trigger]
        infos.contains_key(face) == (face_info(entities, face) is Some) && (infos.contains_key(face)
            ==> face_info(entities, face) == Some(infos[face]@))
}

/// A table of the faces that use each edge, in ascending order.
pub open spec fn lists_users(table: Map<u64, Vec<u64>>, entities: Seq<EntityView>) -> bool {
    &&& forall|edge: u64, face: u64| #[trigger]
        leads(table, edge, face) == uses(entities, face, edge)
    &&& forall|edge: u64| #[trigger] table.contains_key(edge) ==> ascending(table[edge]@)
}

/// Reads all faces.
pub fn read_faces(entities: &Vec<EntityInstance>, index: &HashMap<u64, usize>) -> (out: (
    Vec<u64>,
    HashMap<u64, FaceInfo>,
))
    requires
        indexes(index@, entities_view(entities@)),
    ensures
        ascending(out.0@),
        forall|face: u64| #[trigger]
            out.0@.contains(face) == (face_info(entities_view(entities@), face) is Some),
        reads_faces(out.1@, entities_view(entities@)),
{
    let ghost views = entities_view(entities@);
    let mut found: Vec<u64> = Vec::new();
    let mut i: usize = 0;
    while i < entities.len()
        invariant
            i <= entities.len(),
            views == entities_view(entities@),
            forall|j: int|
                0 <= j < i && (#[trigger] views[j] matches EntityView::Simple { record, .. }
                    && record.name == "ADVANCED_FACE"@) ==> found@.contains(views[j].id()),
        decreases entities.len() - i,
    {
        assert(views[i as int] == entities@[i as int]@);
        let ghost before = found@;
        if let EntityInstance::Simple { id, record } = &entities[i] {
            if same_text(record.name.as_str(), "ADVANCED_FACE") {
                found.push(*id);
                assert(found@[before.len() as int] == id);
            }
        }
        proof {
            assert forall|id: u64| before.contains(id) implies #[trigger] found@.contains(id) by {
                let k = choose|k: int| 0 <= k < before.len() && before[k] == id;
                assert(found@[k] == id);
            }
        }
        i = i + 1;
    }
    let sorted = sorted_ids(&found);
    let mut faces: Vec<u64> = Vec::new();
    let mut infos: HashMap<u64, FaceInfo> = HashMap::new();
    let mut k: usize = 0;
    while k < sorted.len()
        invariant
            k <= sorted.len(),
            views == entities_view(entities@),
            indexes(index@, views),
            ascending(sorted@),
            ascending(faces@),
            forall|j: int|
                0 <= j < faces@.len() ==> face_info(views, #[trigger] faces@[j]) is Some,
            forall|j: int, m: int|
                #![trigger faces@[j], sorted@[m]]
                0 <= j < faces@.len() && k <= m < sorted@.len() ==> faces@[j] < sorted@[m],
            forall|j: int|
                0 <= j < k && face_info(views, #[trigger] sorted@[j]) is Some ==> faces@.contains(
                    sorted@[j],
                ),
            forall|face: u64| #[trigger]
                infos@.contains_key(face) == faces@.contains(face) && (infos@.contains_key(face)
                    ==> face_info(views, face) == Some(infos@[face]@)),
        decreases sorted.len() - k,
    {
        let face: u64 = sorted[k];
        let ghost before = faces@;
        if let Some(info) = parse_face_info(face, entities, index) {
            faces.push(face);
            infos.insert(face, info);
            proof {
                assert(faces@[before.len() as int] == face);
                assert forall|f: u64| #[trigger] faces@.contains(f) == (f == face
                    || before.contains(f)) by {
                    if before.contains(f) {
                        let j = choose|j: int| 0 <= j < before.len() && before[j] == f;
                        assert(faces@[j] == f);
                    }
                }
            }
        }
        k = k + 1;
    }
    proof {
        assert forall|face: u64| #[trigger] faces@.contains(face) == (face_info(
            views,
            face,
        ) is Some) by {
            if face_info(views, face) is Some {
                lemma_position(views, face);
                let at = position(views, face)->Some_0;
                assert(views[at] matches EntityView::Simple { record, .. } && record.name
                    == "ADVANCED_FACE"@);
                assert(found@.contains(views[at].id()));
                assert(sorted@.contains(face));
                let j = choose|j: int| 0 <= j < sorted@.len() && sorted@[j] == face;
                assert(face_info(views, sorted@[j]) is Some);
            }
        }
        assert(reads_faces(infos@, views));
    }
    (faces, infos)
}

/// The faces that use each edge.
pub(crate) fn edge_users(
    Ghost(views): Ghost<Seq<EntityView>>,
    faces: &Vec<u64>,
    infos: &HashMap<u64, FaceInfo>,
) -> (out: HashMap<u64, Vec<u64>>)
    requires
        ascending(faces@),
        forall|face: u64| #[trigger] faces@.contains(face) == (face_info(views, face) is Some),
        reads_faces(infos@, views),
    ensures
        lists_users(out@, views),
{
    let mut out: HashMap<u64, Vec<u64>> = HashMap::new();
    let mut i: usize = 0;
    while i < faces.len()
        invariant
            i <= faces.len(),
            ascending(faces@),
            forall|face: u64| #[trigger] faces@.contains(face) == (face_info(views, face) is Some),
            reads_faces(infos@, views),
            forall|edge: u64, face: u64| #[trigger]
                leads(out@, edge, face) ==> uses(views, face, edge),
            forall|edge: u64, j: int|
                0 <= j < i && uses(views, #[trigger] faces@[j], edge) ==> #[trigger] leads(
                    out@,
                    edge,
                    faces@[j],
                ),
            forall|edge: u64| #[trigger] out@.contains_key(edge) ==> ascending(out@[edge]@),
            forall|edge: u64, j: int, m: int|
                #![trigger out@[edge]@[j], faces@[m]]
                out@.contains_key(edge) && 0 <= j < out@[edge]@.len() && i <= m < faces@.len()
                    ==> out@[edge]@[j] < faces@[m],
        decreases faces.len() - i,
    {
        let face: u64 = faces[i];
        assert(faces@.contains(face));
        let ghost start = out@;
        if let Some(info) = infos.get(&face) {
            let mut k: usize = 0;
            while k < info.oes.len()
                invariant
                    k <= info.oes.len(),
                    i < faces.len(),
                    face == faces@[i as int],
                    ascending(faces@),
                    face_info(views, face) == Some(info@),
                    forall|edge: u64, f: u64| #[trigger]
                        leads(out@, edge, f) ==> uses(views, f, edge),
                    forall|edge: u64, f: u64| #[trigger]
                        leads(start, edge, f) ==> leads(out@, edge, f),
                    forall|j: int|
                        0 <= j < k ==> leads(out@, (#[trigger] info.oes@[j]).1, face),
                    forall|edge: u64| #[trigger]
                        out@.contains_key(edge) ==> ascending(out@[edge]@),
                    forall|edge: u64, j: int, m: int|
                        #![trigger out@[edge]@[j], faces@[m]]
                        out@.contains_key(edge) && 0 <= j < out@[edge]@.len() && i < m
                            < faces@.len() ==> out@[edge]@[j] < faces@[m],
                    forall|edge: u64, j: int|
                        #![trigger out@[edge]@[j]]
                        out@.contains_key(edge) && 0 <= j < out@[edge]@.len() ==> out@[edge]@[j]
                            <= face,
                decreases info.oes.len() - k,
            {
                let edge: u64 = info.oes[k].1;
                let listed = match out.get(&edge) {
                    Some(list) => list.len() > 0 && list[list.len() - 1] == face,
                    None => false,
                };
                let ghost before = out@;
                assert(uses(views, face, edge)) by {
                    let known = face_info(views, face)->Some_0;
                    assert(known.oes[k as int] == info.oes@[k as int]);
                    assert(known.oes[k as int].1 == edge);
                }
                if !listed {
                    add_entry(&mut out, edge, face);
                    proof {
                        let old_list = if before.contains_key(edge) {
                            before[edge]@
                        } else {
                            Seq::empty()
                        };
                        assert(out@[edge]@[old_list.len() as int] == face);
                        assert(out@.dom().contains(edge));
                        assert forall|e: u64, f: u64| #[trigger]
                            leads(before, e, f) implies leads(out@, e, f) by {
                            let j = choose|j: int| 0 <= j < before[e]@.len() && before[e]@[j] == f;
                            assert(out@.dom().contains(e));
                            if e == edge {
                                assert(out@[e]@[j] == f);
                            } else {
                                assert(out@[e] == before[e]);
                            }
                        }
                        assert forall|e: u64, f: u64| #[trigger]
                            leads(out@, e, f) implies uses(views, f, e) by {
                            let j = choose|j: int| 0 <= j < out@[e]@.len() && out@[e]@[j] == f;
                            assert(out@.dom().contains(e));
                            if e == edge {
                                if j < old_list.len() {
                                    assert(before[e]@[j] == f);
                                    assert(leads(before, e, f));
                                }
                            } else {
                                assert(before.contains_key(e));
                                assert(out@[e] == before[e]);
                                assert(leads(before, e, f));
                            }
                        }
                        assert forall|e: u64| #[trigger] out@.contains_key(e) implies ascending(
                            out@[e]@,
                        ) by {
                            assert(out@.dom().contains(e));
                            if e == edge {
                                if before.contains_key(edge) {
                                    assert forall|a: int, b: int|
                                        #![trigger out@[e]@[a], out@[e]@[b]]
                                        0 <= a < b < out@[e]@.len() implies out@[e]@[a]
                                        < out@[e]@[b] by {
                                        assert(before[edge]@[a] == out@[e]@[a]);
                                        let last = old_list.len() - 1;
                                        assert(before[edge]@[last] <= face);
                                        assert(before[edge]@[last] != face);
                                        if b < old_list.len() {
                                            assert(before[edge]@[b] == out@[e]@[b]);
                                        } else if a < last {
                                            assert(before[edge]@[a] < before[edge]@[last]);
                                        }
                                    }
                                }
                            } else {
                                assert(before.contains_key(e));
                                assert(out@[e] == before[e]);
                            }
                        }
                        assert forall|e: u64, j: int|
                            #![trigger out@[e]@[j]]
                            out@.contains_key(e) && 0 <= j < out@[e]@.len() implies out@[e]@[j]
                            <= face by {
                            assert(out@.dom().contains(e));
                            if e == edge {
                                if j < old_list.len() {
                                    assert(before[e]@[j] == out@[e]@[j]);
                                }
                            } else {
                                assert(before.contains_key(e));
                                assert(out@[e] == before[e]);
                                assert(before[e]@[j] <= face);
                            }
                        }
                        assert forall|e: u64, j: int, m: int|
                            #![trigger out@[e]@[j], faces@[m]]
                            out@.contains_key(e) && 0 <= j < out@[e]@.len() && i < m
                                < faces@.len() implies out@[e]@[j] < faces@[m] by {
                            assert(faces@[i as int] < faces@[m]);
                        }
                    }
                } else {
                    proof {
                        let list = out@[edge]@;
                        assert(list[list.len() - 1] == face);
                        assert(leads(out@, edge, face));
                    }
                }
                k = k + 1;
            }
            assert forall|edge: u64, j: int|
                0 <= j < i + 1 && uses(views, #[trigger] faces@[j], edge) implies #[trigger] leads(
                out@,
                edge,
                faces@[j],
            ) by {
                if j == i {
                    let m = choose|m: int|
                        0 <= m < info@.oes.len() && (#[trigger] info@.oes[m]).1 == edge;
                    assert(leads(out@, info.oes@[m].1, face));
                } else {
                    assert(leads(start, edge, faces@[j]));
                }
            }
        }
        i = i + 1;
    }
    assert forall|edge: u64, face: u64| #[trigger]
        leads(out@, edge, face) == uses(views, face, edge) by {
        if uses(views, face, edge) {
            assert(faces@.contains(face));
            let j = choose|j: int| 0 <= j < faces@.len() && faces@[j] == face;
            assert(uses(views, faces@[j], edge));
        }
    }
    out
}

/// The only two users of an edge are the ones that its list holds.
proof fn lemma_two_users(entities: Seq<EntityView>, list: Seq<u64>, edge: u64, a: u64, b: u64)
    requires
        ascending(list),
        forall|face: u64| #[trigger] list.contains(face) == uses(entities, face, edge),
        only_users(entities, edge, a, b),
        a < b,
    ensures
        list == seq![a, b],
{
    let pair = seq![a, b];
    assert(pair[0] == a && pair[1] == b);
    assert forall|id: u64| #[trigger] list.contains(id) == pair.contains(id) by {
        if pair.contains(id) {
            assert(id == a || id == b);
        }
        if list.contains(id) {
            assert(uses(entities, id, edge));
            assert(pair.contains(pair[0]) && pair.contains(pair[1]));
        }
    }
    crate::sets::lemma_ascending_determined(list, pair);
}

pub proof fn lemma_entry_added(
    before: Map<u64, Vec<u64>>,
    after: Map<u64, Vec<u64>>,
    key: u64,
    value: u64,
)
    requires
        after.dom() == before.dom().insert(key),
        forall|k: u64| k != key && before.contains_key(k) ==> #[trigger] after[k] == before[k],
        after[key]@ == (if before.contains_key(key) {
            before[key]@
        } else {
            Seq::empty()
        }).push(value),
    ensures
        forall|x: u64, y: u64| #[trigger]
            leads(after, x, y) == (leads(before, x, y) || (x == key && y == value)),
{
    let list = if before.contains_key(key) {
        before[key]@
    } else {
        Seq::empty()
    };
    assert forall|x: u64, y: u64| #[trigger]
        leads(after, x, y) == (leads(before, x, y) || (x == key && y == value)) by {
        assert(after.dom().contains(x) == (x == key || before.dom().contains(x)));
        if x == key {
            assert(after[key]@[list.len() as int] == value);
            if leads(before, x, y) {
                let j = choose|j: int| 0 <= j < list.len() && list[j] == y;
                assert(after[key]@[j] == y);
            }
            if leads(after, x, y) {
                let j = choose|j: int| 0 <= j < after[key]@.len() && after[key]@[j] == y;
                if j < list.len() {
                    assert(list[j] == y);
                }
            }
        } else if before.contains_key(x) {
            assert(after[x] == before[x]);
        }
    }
}

/// Which faces continue each other.
pub(crate) fn adjacency_table(
    Ghost(views): Ghost<Seq<EntityView>>,
    faces: &Vec<u64>,
    infos: &HashMap<u64, FaceInfo>,
    users: &HashMap<u64, Vec<u64>>,
) -> (out: HashMap<u64, Vec<u64>>)
    requires
        forall|face: u64| #[trigger] faces@.contains(face) == (face_info(views, face) is Some),
        reads_faces(infos@, views),
        lists_users(users@, views),
    ensures
        forall|a: u64, b: u64| #[trigger] leads(out@, a, b) == adjacent(views, a, b),
{
    let mut out: HashMap<u64, Vec<u64>> = HashMap::new();
    let mut i: usize = 0;
    while i < faces.len()
        invariant
            i <= faces.len(),
            forall|face: u64| #[trigger] faces@.contains(face) == (face_info(views, face) is Some),
            reads_faces(infos@, views),
            lists_users(users@, views),
            forall|a: u64, b: u64| #[trigger] leads(out@, a, b) ==> adjacent(views, a, b),
            forall|j: int, b: u64|
                #![trigger adjacent(views, faces@[j], b)]
                0 <= j < i && faces@[j] < b && adjacent(views, faces@[j], b) ==> leads(
                    out@,
                    faces@[j],
                    b,
                ) && leads(out@, b, faces@[j]),
        decreases faces.len() - i,
    {
        let face: u64 = faces[i];
        assert(faces@.contains(face));
        let ghost start = out@;
        if let Some(info) = infos.get(&face) {
            let mut k: usize = 0;
            while k < info.oes.len()
                invariant
                    k <= info.oes.len(),
                    reads_faces(infos@, views),
                    lists_users(users@, views),
                    face_info(views, face) == Some(info@),
                    forall|a: u64, b: u64| #[trigger]
                        leads(out@, a, b) ==> adjacent(views, a, b),
                    forall|a: u64, b: u64| #[trigger] leads(start, a, b) ==> leads(out@, a, b),
                    forall|j: int, b: u64|
                        #![trigger only_users(views, info.oes@[j].1, face, b)]
                        0 <= j < k && face < b && same_support(views, face, b) && only_users(
                            views,
                            info.oes@[j].1,
                            face,
                            b,
                        ) ==> leads(out@, face, b) && leads(out@, b, face),
                decreases info.oes.len() - k,
            {
                let edge: u64 = info.oes[k].1;
                let ghost before = out@;
                let mut other: Option<u64> = None;
                if let Some(list) = users.get(&edge) {
                    if list.len() == 2 && list[0] == face {
                        other = Some(list[1]);
                        proof {
                            let b = list@[1];
                            assert(list@.contains(list@[0]) && list@.contains(list@[1]));
                            assert(leads(users@, edge, face) && leads(users@, edge, b));
                            assert forall|f: u64| #[trigger] uses(views, f, edge) implies f == face
                                || f == b by {
                                assert(leads(users@, edge, f));
                                let j = choose|j: int| 0 <= j < list@.len() && list@[j] == f;
                            }
                            assert(only_users(views, edge, face, b));
                        }
                    }
                }
                proof {
                    assert forall|b: u64| face < b && #[trigger] only_users(views, edge, face, b) implies
                        other == Some(b) by {
                        assert(leads(users@, edge, face));
                        let list = users@[edge]@;
                        assert forall|f: u64| #[trigger] list.contains(f) == uses(views, f, edge) by {
                            assert(leads(users@, edge, f) == uses(views, f, edge));
                        }
                        lemma_two_users(views, list, edge, face, b);
                        assert(list[0] == face && list[1] == b);
                    }
                }
                if let Some(b) = other {
                    if let Some(second) = infos.get(&b) {
                        if info.support == second.support && info.sense == second.sense {
                            assert(adjacent(views, face, b)) by {
                                assert(only_users(views, edge, face, b));
                                assert(users@[edge]@[0] < users@[edge]@[1]);
                            }
                            assert(adjacent(views, b, face)) by {
                                assert(only_users(views, edge, b, face));
                            }
                            add_entry(&mut out, face, b);
                            proof {
                                lemma_entry_added(before, out@, face, b);
                            }
                            let ghost middle = out@;
                            add_entry(&mut out, b, face);
                            proof {
                                lemma_entry_added(middle, out@, b, face);
                                assert(leads(out@, face, b) && leads(out@, b, face));
                            }
                        }
                    }
                }
                k = k + 1;
                assert forall|j: int, b: u64|
                    #![trigger only_users(views, info.oes@[j].1, face, b)]
                    0 <= j < k && face < b && same_support(views, face, b) && only_users(
                        views,
                        info.oes@[j].1,
                        face,
                        b,
                    ) implies leads(out@, face, b) && leads(out@, b, face) by {
                    if j < k - 1 {
                        assert(leads(before, face, b) && leads(before, b, face));
                        assert(leads(out@, face, b) == leads(out@, face, b));
                    }
                }
            }
            assert forall|j: int, b: u64|
                #![trigger adjacent(views, faces@[j], b)]
                0 <= j < i + 1 && faces@[j] < b && adjacent(views, faces@[j], b) implies leads(
                out@,
                faces@[j],
                b,
            ) && leads(out@, b, faces@[j]) by {
                if j == i {
                    let edge = choose|edge: u64| #[trigger] only_users(views, edge, face, b);
                    assert(uses(views, face, edge));
                    let known = face_info(views, face)->Some_0;
                    let m = choose|m: int|
                        0 <= m < known.oes.len() && (#[trigger] known.oes[m]).1 == edge;
                    assert(info.oes@[m].1 == edge);
                    assert(only_users(views, info.oes@[m].1, face, b));
                } else {
                    assert(leads(start, faces@[j], b) && leads(start, b, faces@[j]));
                }
            }
        }
        i = i + 1;
    }
    assert forall|a: u64, b: u64| #[trigger] leads(out@, a, b) == adjacent(views, a, b) by {
        if adjacent(views, a, b) {
            let edge = choose|edge: u64| #[trigger] only_users(views, edge, a, b);
            assert(only_users(views, edge, b, a));
            assert(adjacent(views, b, a));
            assert(faces@.contains(a) && faces@.contains(b));
            if a < b {
                let j = choose|j: int| 0 <= j < faces@.len() && faces@[j] == a;
                assert(adjacent(views, faces@[j], b));
            } else {
                let j = choose|j: int| 0 <= j < faces@.len() && faces@[j] == b;
                assert(adjacent(views, faces@[j], a));
            }
        }
    }
    out
}

} // verus!
