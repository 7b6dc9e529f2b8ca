//! Sets of ids as sorted lists, and walks through tables of ids.

use std::collections::{HashMap, HashSet};
use vstd::prelude::*;

verus! {

broadcast use vstd::std_specs::hash::group_hash_axioms;

/// Each id is larger than the one before.
pub open spec fn ascending(s: Seq<u64>) -> bool {
    forall|i: int, j: int| #![trigger s[i], s[j]] 0 <= i < j < s.len() ==> s[i] < s[j]
}

/// The same ids in ascending order, each once.
pub open spec fn sorts(sorted: Seq<u64>, ids: Seq<u64>) -> bool {
    &&& ascending(sorted)
    &&& forall|id: u64| #[trigger] sorted.contains(id) == ids.contains(id)
}

/// Two ascending lists of the same ids are the same.
pub proof fn lemma_ascending_determined(a: Seq<u64>, b: Seq<u64>)
    requires
        ascending(a),
        ascending(b),
        forall|id: u64| #[trigger] a.contains(id) == b.contains(id),
    ensures
        a == b,
    decreases a.len(),
{
    if a.len() == 0 {
        if b.len() > 0 {
            assert(b.contains(b[0]));
            assert(a.contains(b[0]));
        }
        assert(a =~= b);
    } else if b.len() == 0 {
        assert(a.contains(a[0]));
    } else {
        assert(a.contains(a.last()));
        assert(b.contains(b.last()));
        assert(a.contains(b.last()));
        let i = choose|i: int| 0 <= i < b.len() && b[i] == a.last();
        let j = choose|j: int| 0 <= j < a.len() && a[j] == b.last();
        assert(b[i] <= b.last());
        assert(a[j] <= a.last());
        assert(a.last() == b.last());
        let sa = a.drop_last();
        let sb = b.drop_last();
        assert forall|id: u64| #[trigger] sa.contains(id) == sb.contains(id) by {
            if sa.contains(id) {
                let k = choose|k: int| 0 <= k < sa.len() && sa[k] == id;
                assert(a[k] == id);
                assert(a.contains(id));
                let m = choose|m: int| 0 <= m < b.len() && b[m] == id;
                assert(a[k] < a.last());
                assert(sb[m] == id);
            }
            if sb.contains(id) {
                let k = choose|k: int| 0 <= k < sb.len() && sb[k] == id;
                assert(b[k] == id);
                assert(b.contains(id));
                assert(a.contains(id));
                let m = choose|m: int| 0 <= m < a.len() && a[m] == id;
                assert(b[k] < b.last());
                assert(sa[m] == id);
            }
        }
        lemma_ascending_determined(sa, sb);
        assert(a =~= sa.push(a.last()));
        assert(b =~= sb.push(b.last()));
    }
}

fn merge_sorted(a: &Vec<u64>, b: &Vec<u64>) -> (out: Vec<u64>)
    requires
        ascending(a@),
        ascending(b@),
    ensures
        ascending(out@),
        forall|id: u64| #[trigger] out@.contains(id) == (a@.contains(id) || b@.contains(id)),
{
    let mut out: Vec<u64> = Vec::new();
    let mut i: usize = 0;
    let mut j: usize = 0;
    while i < a.len() || j < b.len()
        invariant
            i <= a.len(),
            j <= b.len(),
            ascending(a@),
            ascending(b@),
            ascending(out@),
            forall|k: int| 0 <= k < out@.len() ==> a@.contains(#[trigger] out@[k]) || b@.contains(
                out@[k],
            ),
            forall|k: int| 0 <= k < i ==> out@.contains(#[trigger] a@[k]),
            forall|k: int| 0 <= k < j ==> out@.contains(#[trigger] b@[k]),
            forall|k: int, m: int|
                #![trigger out@[k], a@[m]]
                0 <= k < out@.len() && i <= m < a@.len() ==> out@[k] < a@[m],
            forall|k: int, m: int|
                #![trigger out@[k], b@[m]]
                0 <= k < out@.len() && j <= m < b@.len() ==> out@[k] < b@[m],
        decreases a.len() - i + b.len() - j,
    {
        let ghost before = out@;
        let next: u64;
        if j >= b.len() {
            next = a[i];
            i = i + 1;
        } else if i >= a.len() {
            next = b[j];
            j = j + 1;
        } else if a[i] < b[j] {
            next = a[i];
            i = i + 1;
        } else if b[j] < a[i] {
            next = b[j];
            j = j + 1;
        } else {
            next = a[i];
            i = i + 1;
            j = j + 1;
        }
        out.push(next);
        proof {
            assert(out@[before.len() as int] == next);
            assert forall|id: u64| before.contains(id) implies #[trigger] out@.contains(id) by {
                let k = choose|k: int| 0 <= k < before.len() && before[k] == id;
                assert(out@[k] == id);
            }
        }
    }
    assert forall|id: u64| #[trigger] out@.contains(id) == (a@.contains(id) || b@.contains(id)) by {
        if a@.contains(id) {
            let k = choose|k: int| 0 <= k < a@.len() && a@[k] == id;
            assert(out@.contains(a@[k]));
        }
        if b@.contains(id) {
            let k = choose|k: int| 0 <= k < b@.len() && b@[k] == id;
            assert(out@.contains(b@[k]));
        }
    }
    out
}

fn sort_range(ids: &Vec<u64>, from: usize, to: usize) -> (out: Vec<u64>)
    requires
        from <= to <= ids.len(),
    ensures
        sorts(out@, ids@.subrange(from as int, to as int)),
    decreases to - from,
{
    let ghost part = ids@.subrange(from as int, to as int);
    if from == to {
        let out: Vec<u64> = Vec::new();
        return out;
    }
    if to - from == 1 {
        let mut out: Vec<u64> = Vec::new();
        out.push(ids[from]);
        assert(out@ =~= part);
        return out;
    }
    let mid: usize = from + (to - from) / 2;
    let left = sort_range(ids, from, mid);
    let right = sort_range(ids, mid, to);
    let out = merge_sorted(&left, &right);
    proof {
        let a = ids@.subrange(from as int, mid as int);
        let b = ids@.subrange(mid as int, to as int);
        assert(part =~= a + b);
        assert forall|id: u64| #[trigger] out@.contains(id) == part.contains(id) by {
            if part.contains(id) {
                let k = choose|k: int| 0 <= k < part.len() && part[k] == id;
                if k < a.len() {
                    assert(a[k] == id);
                    assert(a.contains(id));
                } else {
                    assert(b[k - a.len()] == id);
                    assert(b.contains(id));
                }
            }
            if a.contains(id) {
                let k = choose|k: int| 0 <= k < a.len() && a[k] == id;
                assert(part[k] == id);
            }
            if b.contains(id) {
                let k = choose|k: int| 0 <= k < b.len() && b[k] == id;
                assert(part[a.len() + k] == id);
            }
            assert(left@.contains(id) == a.contains(id));
            assert(right@.contains(id) == b.contains(id));
        }
    }
    out
}

/// The same ids in ascending order, each once.
pub fn sorted_ids(ids: &Vec<u64>) -> (out: Vec<u64>)
    ensures
        sorts(out@, ids@),
{
    let out = sort_range(ids, 0, ids.len());
    assert(ids@.subrange(0, ids@.len() as int) =~= ids@);
    out
}

/// The ids of a list in ascending order, each once.
pub open spec fn sorted_of(ids: Seq<u64>) -> Seq<u64> {
    choose|sorted: Seq<u64>| sorts(sorted, ids)
}

/// The ids of a list in ascending order, each once.
pub fn sorted_set(ids: &Vec<u64>) -> (out: Vec<u64>)
    ensures
        out@ == sorted_of(ids@),
        sorts(out@, ids@),
{
    let out = sorted_ids(ids);
    proof {
        let chosen = sorted_of(ids@);
        assert(sorts(chosen, ids@));
        assert forall|id: u64| #[trigger] out@.contains(id) == chosen.contains(id) by {
            assert(out@.contains(id) == ids@.contains(id));
        }
        lemma_ascending_determined(out@, chosen);
    }
    out
}

/// Whether a list holds an id.
pub fn list_contains(ids: &Vec<u64>, id: u64) -> (out: bool)
    ensures
        out == ids@.contains(id),
{
    let mut i: usize = 0;
    while i < ids.len()
        invariant
            i <= ids.len(),
            forall|j: int| 0 <= j < i ==> #[trigger] ids@[j] != id,
        decreases ids.len() - i,
    {
        if ids[i] == id {
            assert(ids@[i as int] == id);
            return true;
        }
        i = i + 1;
    }
    false
}

/// The ids of a list as a set.
pub fn set_of(ids: &Vec<u64>) -> (out: HashSet<u64>)
    ensures
        out@ == ids@.to_set(),
{
    let mut out: HashSet<u64> = HashSet::new();
    let mut i: usize = 0;
    while i < ids.len()
        invariant
            i <= ids.len(),
            forall|id: u64| #[trigger] out@.contains(id) ==> ids@.contains(id),
            forall|j: int| 0 <= j < i ==> out@.contains(#[trigger] ids@[j]),
        decreases ids.len() - i,
    {
        out.insert(ids[i]);
        i = i + 1;
    }
    assert(out@ =~= ids@.to_set());
    out
}

/// Whether a table leads from one id to another.
pub open spec fn leads(table: Map<u64, Vec<u64>>, from: u64, to: u64) -> bool {
    table.contains_key(from) && table[from]@.contains(to)
}

/// A walk through a relation between ids.
pub open spec fn is_path(step: spec_fn(u64, u64) -> bool, path: Seq<u64>) -> bool {
    &&& path.len() > 0
    &&& forall|i: int| 0 <= i < path.len() - 1 ==> step(#[trigger] path[i], path[i + 1])
}

/// Whether a walk leads from one id to another.
pub open spec fn connected(step: spec_fn(u64, u64) -> bool, from: u64, to: u64) -> bool {
    exists|path: Seq<u64>| #[trigger]
        is_path(step, path) && path[0] == from && path.last() == to
}

pub proof fn lemma_connected_self(step: spec_fn(u64, u64) -> bool, id: u64)
    ensures
        connected(step, id, id),
{
    assert(is_path(step, seq![id]));
    assert(seq![id].last() == id);
}

pub proof fn lemma_connected_step(step: spec_fn(u64, u64) -> bool, a: u64, b: u64, c: u64)
    requires
        connected(step, a, b),
        step(b, c),
    ensures
        connected(step, a, c),
{
    let path = choose|path: Seq<u64>| #[trigger]
        is_path(step, path) && path[0] == a && path.last() == b;
    let longer = path.push(c);
    assert forall|i: int| 0 <= i < longer.len() - 1 implies step(#[trigger] longer[i], longer[i + 1]) by {
        if i < path.len() - 1 {
            assert(path[i] == longer[i]);
        }
    }
    assert(is_path(step, longer));
    assert(longer[0] == a);
}

pub proof fn lemma_connected_trans(step: spec_fn(u64, u64) -> bool, a: u64, b: u64, c: u64)
    requires
        connected(step, a, b),
        connected(step, b, c),
    ensures
        connected(step, a, c),
{
    let p = choose|path: Seq<u64>| #[trigger]
        is_path(step, path) && path[0] == a && path.last() == b;
    let q = choose|path: Seq<u64>| #[trigger]
        is_path(step, path) && path[0] == b && path.last() == c;
    let whole = p + q.drop_first();
    assert forall|i: int| 0 <= i < whole.len() - 1 implies step(#[trigger] whole[i], whole[i + 1]) by {
        if i < p.len() - 1 {
            assert(p[i] == whole[i]);
        } else {
            assert(whole[i] == q[i - (p.len() - 1)]);
            assert(whole[i + 1] == q[i - (p.len() - 1) + 1]);
        }
    }
    assert(is_path(step, whole));
    assert(whole[0] == a);
    assert(whole.last() == c);
}

pub proof fn lemma_connected_back(step: spec_fn(u64, u64) -> bool, a: u64, b: u64)
    requires
        connected(step, a, b),
        forall|x: u64, y: u64| #[trigger] step(x, y) ==> step(y, x),
    ensures
        connected(step, b, a),
{
    let path = choose|path: Seq<u64>| #[trigger]
        is_path(step, path) && path[0] == a && path.last() == b;
    let back = Seq::new(path.len(), |i: int| path[path.len() - 1 - i]);
    assert forall|i: int| 0 <= i < back.len() - 1 implies step(#[trigger] back[i], back[i + 1]) by {
        let k = path.len() - 2 - i;
        assert(step(path[k], path[k + 1]));
    }
    assert(is_path(step, back));
    assert(back[0] == b);
    assert(back.last() == a);
}

/// What is closed under a relation and holds the start of a walk holds its end.
pub proof fn lemma_path_stays(
    step: spec_fn(u64, u64) -> bool,
    path: Seq<u64>,
    closed: Set<u64>,
    n: int,
)
    requires
        is_path(step, path),
        closed.contains(path[0]),
        forall|x: u64, y: u64| closed.contains(x) && #[trigger] step(x, y) ==> closed.contains(y),
        0 <= n < path.len(),
    ensures
        closed.contains(path[n]),
    decreases n,
{
    if n > 0 {
        lemma_path_stays(step, path, closed, n - 1);
        assert(step(path[n - 1], path[n - 1 + 1]));
    }
}

/// The relation that a table describes.
pub open spec fn table_step(table: Map<u64, Vec<u64>>) -> spec_fn(u64, u64) -> bool {
    |x: u64, y: u64| leads(table, x, y)
}

/// All ids that a table leads to.
pub open spec fn targets(table: Map<u64, Vec<u64>>, all: Set<u64>) -> bool {
    forall|x: u64, y: u64| #[trigger] leads(table, x, y) ==> all.contains(y)
}

/// The ids that a table connects with a start, each once. `all` bounds where it leads.
pub fn connected_ids(
    table: &HashMap<u64, Vec<u64>>,
    start: u64,
    all: &HashSet<u64>,
) -> (out: Vec<u64>)
    requires
        targets(table@, all@),
        all@.contains(start),
        all@.finite(),
    ensures
        forall|id: u64| #[trigger]
            out@.contains(id) == connected(table_step(table@), start, id),
        out@.no_duplicates(),
{
    let ghost step = table_step(table@);
    let mut seen: HashSet<u64> = HashSet::new();
    let mut order: Vec<u64> = Vec::new();
    let mut stack: Vec<u64> = Vec::new();
    stack.push(start);
    proof {
        lemma_connected_self(step, start);
        assert(stack@[0] == start);
    }
    while stack.len() > 0
        invariant
            step == table_step(table@),
            targets(table@, all@),
            all@.finite(),
            seen@.subset_of(all@),
            forall|i: int| 0 <= i < stack@.len() ==> all@.contains(#[trigger] stack@[i]),
            forall|i: int| 0 <= i < stack@.len() ==> connected(step, start, #[trigger] stack@[i]),
            forall|id: u64| #[trigger] seen@.contains(id) == order@.contains(id),
            order@.no_duplicates(),
            forall|id: u64| #[trigger] seen@.contains(id) ==> connected(step, start, id),
            seen@.contains(start) || stack@.contains(start),
            forall|x: u64, y: u64|
                seen@.contains(x) && #[trigger] leads(table@, x, y) ==> seen@.contains(y)
                    || stack@.contains(y),
        decreases all@.difference(seen@).len(), stack.len(),
    {
        let ghost before_stack = stack@;
        let ghost before_seen = seen@;
        let id: u64 = stack.pop().unwrap();
        assert(before_stack.last() == id);
        assert(stack@ =~= before_stack.drop_last());
        assert forall|x: u64| before_stack.contains(x) implies x == id || #[trigger] stack@.contains(
            x,
        ) by {
            let j = choose|j: int| 0 <= j < before_stack.len() && before_stack[j] == x;
            if j < stack@.len() {
                assert(stack@[j] == x);
            }
        }
        if !seen.contains(&id) {
            let ghost before_order = order@;
            seen.insert(id);
            order.push(id);
            proof {
                assert(order@[before_order.len() as int] == id);
                assert forall|x: u64| #[trigger] order@.contains(x) == (x == id
                    || before_order.contains(x)) by {
                    if before_order.contains(x) {
                        let j = choose|j: int|
                            0 <= j < before_order.len() && before_order[j] == x;
                        assert(order@[j] == x);
                    }
                }
                assert(all@.difference(seen@) =~= all@.difference(before_seen).remove(id));
                assert(all@.difference(before_seen).contains(id));
            }
            let ghost base = stack@;
            let ghost mut next: Seq<u64> = Seq::empty();
            if let Some(list) = table.get(&id) {
                proof {
                    next = list@;
                }
                let mut k: usize = 0;
                assert(list@.take(0) =~= Seq::empty());
                while k < list.len()
                    invariant
                        k <= list.len(),
                        stack@ == base + list@.take(k as int),
                    decreases list.len() - k,
                {
                    stack.push(list[k]);
                    k = k + 1;
                    assert(list@.take(k as int) =~= list@.take(k - 1).push(list@[k - 1]));
                }
                assert(list@.take(list@.len() as int) =~= list@);
            }
            assert(stack@ =~= base + next);
            proof {
                assert forall|i: int| 0 <= i < stack@.len() implies all@.contains(
                    #[trigger] stack@[i],
                ) && connected(step, start, stack@[i]) by {
                    if i < base.len() {
                        assert(stack@[i] == before_stack[i]);
                    } else {
                        let y = stack@[i];
                        assert(next[i - base.len()] == y);
                        assert(leads(table@, id, y));
                        assert(step(id, y));
                        lemma_connected_step(step, start, id, y);
                    }
                }
                assert forall|x: u64| base.contains(x) implies #[trigger] stack@.contains(x) by {
                    let j = choose|j: int| 0 <= j < base.len() && base[j] == x;
                    assert(stack@[j] == x);
                }
                assert forall|x: u64, y: u64|
                    seen@.contains(x) && #[trigger] leads(table@, x, y) implies seen@.contains(y)
                    || stack@.contains(y) by {
                    if x == id {
                        let j = choose|j: int| 0 <= j < next.len() && next[j] == y;
                        assert(stack@[base.len() + j] == y);
                    } else {
                        assert(before_seen.contains(x));
                    }
                }
            }
        }
    }
    proof {
        assert forall|id: u64| #[trigger] order@.contains(id) == connected(step, start, id) by {
            if connected(step, start, id) {
                let path = choose|path: Seq<u64>| #[trigger]
                    is_path(step, path) && path[0] == start && path.last() == id;
                assert forall|x: u64, y: u64|
                    seen@.contains(x) && #[trigger] step(x, y) implies seen@.contains(y) by {
                    assert(leads(table@, x, y));
                }
                lemma_path_stays(step, path, seen@, path.len() - 1);
                assert(seen@.contains(id));
            }
            if order@.contains(id) {
                assert(seen@.contains(id));
            }
        }
    }
    order
}

} // verus!
