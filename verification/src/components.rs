//! The parts that a relation between ids falls into.

use std::collections::{HashMap, HashSet};
use vstd::prelude::*;

use crate::sets::{
    ascending, connected, connected_ids, lemma_ascending_determined, lemma_connected_back,
    lemma_connected_self, lemma_connected_trans, set_of, sorted_ids, table_step, targets,
};

verus! {

broadcast use vstd::std_specs::hash::group_hash_axioms;

/// Whether ids in ascending order are all that a relation connects with the first of them.
pub open spec fn is_component(
    step: spec_fn(u64, u64) -> bool,
    nodes: Seq<u64>,
    part: Seq<u64>,
) -> bool {
    &&& part.len() > 0
    &&& nodes.contains(part[0])
    &&& ascending(part)
    &&& forall|id: u64| #[trigger] part.contains(id) == connected(step, part[0], id)
}

/// The parts that a relation falls into, by their smallest ids.
pub open spec fn all_components(
    step: spec_fn(u64, u64) -> bool,
    nodes: Seq<u64>,
    parts: Seq<Seq<u64>>,
) -> bool {
    &&& forall|i: int, j: int|
        #![trigger parts[i], parts[j]]
        0 <= i < j < parts.len() ==> parts[i][0] < parts[j][0]
    &&& forall|part: Seq<u64>| #[trigger]
        parts.contains(part) == is_component(step, nodes, part)
}

/// The lists of ids that lists hold.
pub open spec fn lists_view(lists: Seq<Vec<u64>>) -> Seq<Seq<u64>> {
    Seq::new(lists.len(), |i: int| lists[i]@)
}

/// Two parts share no id.
pub proof fn law_components_are_apart(
    step: spec_fn(u64, u64) -> bool,
    nodes: Seq<u64>,
    parts: Seq<Seq<u64>>,
    a: int,
    b: int,
    id: u64,
)
    requires
        all_components(step, nodes, parts),
        forall|x: u64, y: u64| #[trigger] step(x, y) ==> step(y, x),
        0 <= a < parts.len(),
        0 <= b < parts.len(),
        parts[a].contains(id),
        parts[b].contains(id),
    ensures
        a == b,
{
    let x = parts[a];
    let y = parts[b];
    assert(parts.contains(x) && parts.contains(y));
    lemma_connected_back(step, x[0], id);
    lemma_connected_trans(step, y[0], id, x[0]);
    lemma_connected_back(step, y[0], id);
    lemma_connected_trans(step, x[0], id, y[0]);
    assert(y.contains(x[0]));
    assert(x.contains(y[0]));
    let i = choose|i: int| 0 <= i < y.len() && y[i] == x[0];
    let j = choose|j: int| 0 <= j < x.len() && x[j] == y[0];
    assert(y[0] <= y[i] && x[0] <= x[j]);
}

/// The parts that a table of ids falls into.
pub fn find_components(table: &HashMap<u64, Vec<u64>>, nodes: &Vec<u64>) -> (out: Vec<Vec<u64>>)
    requires
        targets(table@, nodes@.to_set()),
        forall|x: u64, y: u64| #[trigger]
            table_step(table@)(x, y) ==> table_step(table@)(y, x),
    ensures
        all_components(table_step(table@), nodes@, lists_view(out@)),
{
    let ghost step = table_step(table@);
    let all = set_of(nodes);
    let order = sorted_ids(nodes);
    let mut parts: Vec<Vec<u64>> = Vec::new();
    let mut seen: HashSet<u64> = HashSet::new();
    let mut i: usize = 0;
    proof {
        vstd::seq_lib::seq_to_set_is_finite(nodes@);
    }
    while i < order.len()
        invariant
            i <= order.len(),
            step == table_step(table@),
            targets(table@, all@),
            all@ == nodes@.to_set(),
            all@.finite(),
            ascending(order@),
            forall|id: u64| #[trigger] order@.contains(id) == nodes@.contains(id),
            forall|x: u64, y: u64| #[trigger] step(x, y) ==> step(y, x),
            forall|x: u64| #[trigger]
                seen@.contains(x) ==> exists|y: u64| y < x && #[trigger] connected(step, x, y),
            forall|k: int|
                0 <= k < parts@.len() ==> is_component(step, nodes@, (#[trigger] parts@[k])@),
            forall|j: int, k: int|
                #![trigger parts@[j], parts@[k]]
                0 <= j < k < parts@.len() ==> parts@[j]@[0] < parts@[k]@[0],
            forall|k: int, m: int|
                #![trigger parts@[k], order@[m]]
                0 <= k < parts@.len() && i <= m < order@.len() ==> parts@[k]@[0] < order@[m],
            forall|part: Seq<u64>, m: int|
                #![trigger is_component(step, nodes@, part), order@[m]]
                is_component(step, nodes@, part) && 0 <= m < i && part[0] == order@[m]
                    ==> lists_view(parts@).contains(part),
        decreases order.len() - i,
    {
        let id: u64 = order[i];
        let ghost before = parts@;
        assert(order@.contains(id));
        if !seen.contains(&id) {
            let found = connected_ids(table, id, &all);
            let group = sorted_ids(&found);
            proof {
                lemma_connected_self(step, id);
                assert(found@.contains(id));
                assert(group@.contains(id));
            }
            let mut k: usize = 0;
            while k < group.len()
                invariant
                    k <= group.len(),
                    step == table_step(table@),
                    forall|x: u64, y: u64| #[trigger] step(x, y) ==> step(y, x),
                    ascending(group@),
                    group@.contains(id),
                    forall|x: u64| #[trigger] group@.contains(x) ==> connected(step, id, x),
                    forall|x: u64| #[trigger]
                        seen@.contains(x) ==> exists|y: u64|
                            y < x && #[trigger] connected(step, x, y),
                decreases group.len() - k,
            {
                let member: u64 = group[k];
                if member > id {
                    proof {
                        assert(group@.contains(member));
                        lemma_connected_back(step, id, member);
                        assert(id < member && connected(step, member, id));
                    }
                    seen.insert(member);
                }
                k = k + 1;
            }
            if group[0] == id {
                proof {
                    assert forall|x: u64| #[trigger] group@.contains(x) == connected(
                        step,
                        group@[0],
                        x,
                    ) by {
                        assert(group@.contains(x) == found@.contains(x));
                    }
                    assert(is_component(step, nodes@, group@));
                }
                parts.push(group);
                assert(parts@[before.len() as int]@ == group@);
            }
            proof {
                assert forall|part: Seq<u64>| #[trigger]
                    is_component(step, nodes@, part) && part[0] == id implies lists_view(
                    parts@,
                ).contains(part) by {
                    assert forall|x: u64| #[trigger] part.contains(x) == group@.contains(x) by {
                        assert(group@.contains(x) == found@.contains(x));
                    }
                    lemma_ascending_determined(part, group@);
                    assert(part == group@);
                    assert(group@[0] == id);
                    assert(lists_view(parts@)[before.len() as int] == part);
                }
            }
        } else {
            proof {
                assert forall|part: Seq<u64>| #[trigger]
                    is_component(step, nodes@, part) && part[0] == id implies lists_view(
                    parts@,
                ).contains(part) by {
                    let y = choose|y: u64| y < id && #[trigger] connected(step, id, y);
                    assert(part.contains(y));
                    let m = choose|m: int| 0 <= m < part.len() && part[m] == y;
                    assert(part[0] <= part[m]);
                    assert(false);
                }
            }
        }
        proof {
            assert forall|part: Seq<u64>, m: int|
                #![trigger is_component(step, nodes@, part), order@[m]]
                is_component(step, nodes@, part) && 0 <= m < i + 1 && part[0] == order@[m] implies
                lists_view(parts@).contains(part) by {
                if m < i {
                    assert(lists_view(before).contains(part));
                    let k = choose|k: int|
                        0 <= k < lists_view(before).len() && lists_view(before)[k] == part;
                    assert(lists_view(parts@)[k] == part);
                }
            }
        }
        i = i + 1;
    }
    proof {
        assert forall|part: Seq<u64>| #[trigger] lists_view(parts@).contains(part) == is_component(
            step,
            nodes@,
            part,
        ) by {
            if lists_view(parts@).contains(part) {
                let k = choose|k: int|
                    0 <= k < lists_view(parts@).len() && lists_view(parts@)[k] == part;
                assert(is_component(step, nodes@, parts@[k]@));
            }
            if is_component(step, nodes@, part) {
                assert(order@.contains(part[0]));
                let m = choose|m: int| 0 <= m < order@.len() && order@[m] == part[0];
                assert(order@[m] == part[0]);
            }
        }
    }
    parts
}

/// What a table connects with one of its targets is a target too.
pub proof fn lemma_reached(table: Map<u64, Vec<u64>>, all: Set<u64>, from: u64, to: u64)
    requires
        targets(table, all),
        all.contains(from),
        connected(table_step(table), from, to),
    ensures
        all.contains(to),
{
    let step = table_step(table);
    let path = choose|path: Seq<u64>| #[trigger]
        crate::sets::is_path(step, path) && path[0] == from && path.last() == to;
    let last = path.len() - 1;
    if last > 0 {
        assert(step(path[last - 1], path[last - 1 + 1]));
        assert(crate::sets::leads(table, path[last - 1], path[last]));
    }
}

/// There is one way to list the parts.
pub proof fn lemma_components_determined(
    step: spec_fn(u64, u64) -> bool,
    nodes: Seq<u64>,
    a: Seq<Seq<u64>>,
    b: Seq<Seq<u64>>,
)
    requires
        all_components(step, nodes, a),
        all_components(step, nodes, b),
    ensures
        a == b,
{
    assert forall|part: Seq<u64>| #[trigger] a.contains(part) == b.contains(part) by {
        assert(a.contains(part) == is_component(step, nodes, part));
        assert(b.contains(part) == is_component(step, nodes, part));
    }
    lemma_by_first_determined(a, b);
}

proof fn lemma_by_first_determined(a: Seq<Seq<u64>>, b: Seq<Seq<u64>>)
    requires
        forall|i: int, j: int|
            #![trigger a[i], a[j]]
            0 <= i < j < a.len() ==> a[i][0] < a[j][0],
        forall|i: int, j: int|
            #![trigger b[i], b[j]]
            0 <= i < j < b.len() ==> b[i][0] < b[j][0],
        forall|part: Seq<u64>| #[trigger] a.contains(part) == b.contains(part),
    ensures
        a == b,
    decreases a.len(),
{
    if a.len() == 0 {
        if b.len() > 0 {
            assert(b.contains(b[0]));
            assert(a.contains(b[0]));
        }
        assert(a =~= b);
    } else if b.len() == 0 {
        assert(a.contains(a[0]));
        assert(b.contains(a[0]));
    } else {
        let last_a = a.len() - 1;
        let last_b = b.len() - 1;
        assert(a.contains(a[last_a]) && b.contains(b[last_b]));
        assert(b.contains(a[last_a]) && a.contains(b[last_b]));
        let i = choose|i: int| 0 <= i < b.len() && b[i] == a[last_a];
        let j = choose|j: int| 0 <= j < a.len() && a[j] == b[last_b];
        if i < last_b {
            assert(b[i][0] < b[last_b][0]);
            if j < last_a {
                assert(a[j][0] < a[last_a][0]);
            }
        }
        assert(a[last_a] == b[last_b]);
        let sa = a.drop_last();
        let sb = b.drop_last();
        assert forall|part: Seq<u64>| #[trigger] sa.contains(part) == sb.contains(part) by {
            if sa.contains(part) {
                let k = choose|k: int| 0 <= k < sa.len() && sa[k] == part;
                assert(a[k] == part);
                assert(a.contains(part));
                let m = choose|m: int| 0 <= m < b.len() && b[m] == part;
                assert(a[k][0] < a[last_a][0]);
                if m == last_b {
                    assert(a[k] == a[last_a]);
                }
                assert(sb[m] == part);
            }
            if sb.contains(part) {
                let k = choose|k: int| 0 <= k < sb.len() && sb[k] == part;
                assert(b[k] == part);
                assert(b.contains(part));
                assert(a.contains(part));
                let m = choose|m: int| 0 <= m < a.len() && a[m] == part;
                assert(b[k][0] < b[last_b][0]);
                if m == last_a {
                    assert(b[k] == b[last_b]);
                }
                assert(sa[m] == part);
            }
        }
        assert forall|x: int, y: int|
            #![trigger sa[x], sa[y]]
            0 <= x < y < sa.len() implies sa[x][0] < sa[y][0] by {
            assert(sa[x] == a[x] && sa[y] == a[y]);
        }
        assert forall|x: int, y: int|
            #![trigger sb[x], sb[y]]
            0 <= x < y < sb.len() implies sb[x][0] < sb[y][0] by {
            assert(sb[x] == b[x] && sb[y] == b[y]);
        }
        lemma_by_first_determined(sa, sb);
        assert(a =~= sa.push(a.last()));
        assert(b =~= sb.push(b.last()));
    }
}

} // verus!
