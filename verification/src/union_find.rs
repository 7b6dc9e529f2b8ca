//! Sets of numbers that grow together. Each set is known by its smallest number.

use std::collections::HashMap;
use vstd::prelude::*;

use crate::sets::{
    connected, is_path, lemma_connected_self, lemma_connected_step, lemma_connected_trans,
    lemma_path_stays,
};

verus! {

/// Which number each number was last known to stand behind.
#[derive(Debug)]
pub struct UnionFind {
    pub parent: HashMap<u64, u64>,
}

/// The number that a set is known by: where the way from a number to smaller ones ends.
pub open spec fn root(parent: Map<u64, u64>, id: u64) -> u64
    decreases id,
{
    if parent.contains_key(id) && parent[id] < id {
        root(parent, parent[id])
    } else {
        id
    }
}

proof fn lemma_root_is_smallest(parent: Map<u64, u64>, id: u64)
    ensures
        root(parent, id) <= id,
        root(parent, root(parent, id)) == root(parent, id),
    decreases id,
{
    if parent.contains_key(id) && parent[id] < id {
        lemma_root_is_smallest(parent, parent[id]);
    }
}

/// A shorter way leads to the same end.
proof fn lemma_shortened(parent: Map<u64, u64>, id: u64, x: u64)
    ensures
        root(parent.insert(id, root(parent, id)), x) == root(parent, x),
    decreases x,
{
    lemma_root_is_smallest(parent, id);
    let shorter = parent.insert(id, root(parent, id));
    if x == id {
        if root(parent, id) < id {
            lemma_shortened(parent, id, root(parent, id));
        }
    } else if parent.contains_key(x) && parent[x] < x {
        lemma_shortened(parent, id, parent[x]);
    }
}

/// Two ways become one where an end leads on to a smaller one.
proof fn lemma_joined(parent: Map<u64, u64>, low: u64, high: u64, x: u64)
    requires
        low < high,
        root(parent, low) == low,
        root(parent, high) == high,
    ensures
        root(parent.insert(high, low), x) == if root(parent, x) == high {
            low
        } else {
            root(parent, x)
        },
    decreases x,
{
    let joined = parent.insert(high, low);
    if x == high {
        lemma_joined(parent, low, high, low);
    } else if parent.contains_key(x) && parent[x] < x {
        lemma_joined(parent, low, high, parent[x]);
    }
}

/// What the sets of two numbers are known by once they are one.
pub open spec fn joined_root(a: u64, b: u64, r: u64) -> u64 {
    let low = if a < b {
        a
    } else {
        b
    };
    if r == a || r == b {
        low
    } else {
        r
    }
}

/// What a number is known by once the numbers of pairs were joined, one pair after the other.
pub open spec fn root_after(pairs: Seq<(u64, u64)>, id: u64) -> u64
    decreases pairs.len(),
{
    if pairs.len() == 0 {
        id
    } else {
        let before = pairs.drop_last();
        let (a, b) = pairs.last();
        joined_root(root_after(before, a), root_after(before, b), root_after(before, id))
    }
}

/// Whether sets are what joining pairs makes of single numbers.
pub open spec fn are_joined(sets: UnionFind, pairs: Seq<(u64, u64)>) -> bool {
    forall|id: u64| #[trigger] sets.root_of(id) == root_after(pairs, id)
}

/// Whether two numbers are a pair.
pub open spec fn are_paired(pairs: Seq<(u64, u64)>, a: u64, b: u64) -> bool {
    pairs.contains((a, b)) || pairs.contains((b, a))
}

pub open spec fn pair_step(pairs: Seq<(u64, u64)>) -> spec_fn(u64, u64) -> bool {
    |a: u64, b: u64| are_paired(pairs, a, b)
}

/// Whether a chain of pairs links two numbers.
pub open spec fn are_linked(pairs: Seq<(u64, u64)>, a: u64, b: u64) -> bool {
    connected(pair_step(pairs), a, b)
}

/// The numbers of a pair that was joined are in one set.
proof fn lemma_pair_is_joined(pairs: Seq<(u64, u64)>, k: int)
    requires
        0 <= k < pairs.len(),
    ensures
        root_after(pairs, pairs[k].0) == root_after(pairs, pairs[k].1),
    decreases pairs.len(),
{
    if k < pairs.len() - 1 {
        lemma_pair_is_joined(pairs.drop_last(), k);
        assert(pairs.drop_last()[k] == pairs[k]);
    }
}

/// Another pair keeps linked what was linked.
proof fn lemma_linked_longer(pairs: Seq<(u64, u64)>, a: u64, b: u64)
    requires
        pairs.len() > 0,
        are_linked(pairs.drop_last(), a, b),
    ensures
        are_linked(pairs, a, b),
{
    let front = pairs.drop_last();
    let path = choose|path: Seq<u64>| #[trigger]
        is_path(pair_step(front), path) && path[0] == a && path.last() == b;
    assert forall|i: int| 0 <= i < path.len() - 1 implies pair_step(pairs)(
        #[trigger] path[i],
        path[i + 1],
    ) by {
        assert(pair_step(front)(path[i], path[i + 1]));
        let (x, y) = (path[i], path[i + 1]);
        if front.contains((x, y)) {
            let k = choose|k: int| 0 <= k < front.len() && front[k] == (x, y);
            assert(pairs[k] == (x, y));
        } else {
            let k = choose|k: int| 0 <= k < front.len() && front[k] == (y, x);
            assert(pairs[k] == (y, x));
        }
    }
    assert(is_path(pair_step(pairs), path));
}

/// Numbers of one set are linked.
proof fn lemma_same_root_linked(pairs: Seq<(u64, u64)>, x: u64, y: u64)
    requires
        root_after(pairs, x) == root_after(pairs, y),
    ensures
        are_linked(pairs, x, y),
    decreases pairs.len(),
{
    let step = pair_step(pairs);
    if pairs.len() == 0 {
        lemma_connected_self(step, x);
    } else {
        let front = pairs.drop_last();
        let (a, b) = pairs.last();
        let rx = root_after(front, x);
        let ry = root_after(front, y);
        let ra = root_after(front, a);
        assert(pairs[pairs.len() - 1] == (a, b));
        assert(pairs.contains((a, b)));
        if rx == ry {
            lemma_same_root_linked(front, x, y);
            lemma_linked_longer(pairs, x, y);
        } else {
            let (u, v) = if rx == ra {
                (a, b)
            } else {
                (b, a)
            };
            lemma_same_root_linked(front, x, u);
            lemma_linked_longer(pairs, x, u);
            lemma_same_root_linked(front, v, y);
            lemma_linked_longer(pairs, v, y);
            assert(step(u, v));
            lemma_connected_step(step, x, u, v);
            lemma_connected_trans(step, x, v, y);
        }
    }
}

/// Two numbers are in one set where a chain of joined pairs links them, and only there, and a
/// set is known by the smallest number in it, whatever the order of the pairs and of the numbers
/// in them.
pub proof fn law_one_set_is_linked(sets: UnionFind, pairs: Seq<(u64, u64)>, x: u64, y: u64)
    requires
        are_joined(sets, pairs),
    ensures
        (sets.root_of(x) == sets.root_of(y)) == are_linked(pairs, x, y),
        are_linked(pairs, x, sets.root_of(x)),
        are_linked(pairs, x, y) ==> sets.root_of(x) <= y,
{
    let step = pair_step(pairs);
    if are_linked(pairs, x, y) {
        let path = choose|path: Seq<u64>| #[trigger]
            is_path(step, path) && path[0] == x && path.last() == y;
        let same = Set::new(|z: u64| sets.root_of(z) == sets.root_of(x));
        assert forall|u: u64, v: u64| same.contains(u) && #[trigger] step(u, v) implies same.contains(
            v,
        ) by {
            if pairs.contains((u, v)) {
                let k = choose|k: int| 0 <= k < pairs.len() && pairs[k] == (u, v);
                lemma_pair_is_joined(pairs, k);
            } else {
                let k = choose|k: int| 0 <= k < pairs.len() && pairs[k] == (v, u);
                lemma_pair_is_joined(pairs, k);
            }
            assert(sets.root_of(u) == sets.root_of(v));
        }
        lemma_path_stays(step, path, same, path.len() - 1);
        assert(same.contains(y));
        law_smallest_root(sets, x, y);
    }
    if sets.root_of(x) == sets.root_of(y) {
        lemma_same_root_linked(pairs, x, y);
    }
    law_smallest_root(sets, x, x);
    lemma_same_root_linked(pairs, x, sets.root_of(x));
}

/// Joining one more pair.
proof fn lemma_one_more_pair(before: UnionFind, after: UnionFind, a: u64, b: u64)
    requires
        forall|x: u64| #[trigger]
            after.root_of(x) == joined_root(before.root_of(a), before.root_of(b), before.root_of(x)),
    ensures
        forall|pairs: Seq<(u64, u64)>| #[trigger]
            are_joined(before, pairs) ==> are_joined(after, pairs.push((a, b))),
{
    assert forall|pairs: Seq<(u64, u64)>| #[trigger] are_joined(before, pairs) implies are_joined(
        after,
        pairs.push((a, b)),
    ) by {
        let longer = pairs.push((a, b));
        assert(longer.drop_last() =~= pairs);
        assert forall|id: u64| #[trigger] after.root_of(id) == root_after(longer, id) by {
            assert(before.root_of(a) == root_after(pairs, a));
            assert(before.root_of(b) == root_after(pairs, b));
            assert(before.root_of(id) == root_after(pairs, id));
        }
    }
}

impl UnionFind {
    /// The number that the set of a number is known by.
    pub open spec fn root_of(&self, id: u64) -> u64 {
        root(self.parent@, id)
    }

    /// Every number in a set of its own.
    pub fn new() -> (out: UnionFind)
        ensures
            out.parent@ == Map::<u64, u64>::empty(),
            forall|x: u64| #[trigger] out.root_of(x) == x,
            are_joined(out, Seq::empty()),
    {
        UnionFind { parent: HashMap::new() }
    }

    /// The number that the set of a number is known by. The ways to it become shorter.
    pub fn find(&mut self, id: u64) -> (out: u64)
        ensures
            out == old(self).root_of(id),
            forall|x: u64| #[trigger] final(self).root_of(x) == old(self).root_of(x),
            forall|pairs: Seq<(u64, u64)>| #[trigger]
                are_joined(*old(self), pairs) ==> are_joined(*final(self), pairs),
        decreases id,
    {
        broadcast use vstd::std_specs::hash::group_hash_axioms;

        let known: Option<u64> = match self.parent.get(&id) {
            Some(p) => Some(*p),
            None => None,
        };
        match known {
            None => {
                let ghost before = self.parent@;
                self.parent.insert(id, id);
                proof {
                    assert(root(before, id) == id);
                    assert forall|x: u64| #[trigger] self.root_of(x) == old(self).root_of(x) by {
                        lemma_shortened(before, id, x);
                    }
                }
                id
            },
            Some(p) => {
                if p >= id {
                    return id;
                }
                let out: u64 = self.find(p);
                let ghost mid = *self;
                self.parent.insert(id, out);
                proof {
                    assert(mid.root_of(id) == old(self).root_of(id));
                    assert forall|x: u64| #[trigger] self.root_of(x) == old(self).root_of(x) by {
                        lemma_shortened(mid.parent@, id, x);
                        assert(mid.root_of(x) == old(self).root_of(x));
                    }
                }
                out
            },
        }
    }

    /// Makes the sets of two numbers one.
    pub fn union(&mut self, a: u64, b: u64)
        ensures
            forall|x: u64| #[trigger]
                final(self).root_of(x) == joined_root(
                    old(self).root_of(a),
                    old(self).root_of(b),
                    old(self).root_of(x),
                ),
            forall|pairs: Seq<(u64, u64)>| #[trigger]
                are_joined(*old(self), pairs) ==> are_joined(*final(self), pairs.push((a, b))),
    {
        broadcast use vstd::std_specs::hash::group_hash_axioms;

        let a_root: u64 = self.find(a);
        let ghost mid = *self;
        let b_root: u64 = self.find(b);
        let ghost found = *self;
        proof {
            assert(mid.root_of(b) == old(self).root_of(b));
            assert forall|x: u64| #[trigger] found.root_of(x) == old(self).root_of(x) by {
                assert(mid.root_of(x) == old(self).root_of(x));
            }
        }
        if a_root == b_root {
            proof {
                assert forall|x: u64| #[trigger]
                    self.root_of(x) == joined_root(a_root, b_root, old(self).root_of(x)) by {
                    assert(found.root_of(x) == old(self).root_of(x));
                }
                lemma_one_more_pair(*old(self), *self, a, b);
            }
            return;
        }
        let low: u64 = if b_root < a_root {
            b_root
        } else {
            a_root
        };
        let high: u64 = if b_root < a_root {
            a_root
        } else {
            b_root
        };
        proof {
            lemma_root_is_smallest(old(self).parent@, a);
            lemma_root_is_smallest(old(self).parent@, b);
            assert(found.root_of(low) == low);
            assert(found.root_of(high) == high);
        }
        self.parent.insert(high, low);
        proof {
            assert forall|x: u64| #[trigger]
                self.root_of(x) == joined_root(a_root, b_root, old(self).root_of(x)) by {
                lemma_joined(found.parent@, low, high, x);
                assert(found.root_of(x) == old(self).root_of(x));
            }
            lemma_one_more_pair(*old(self), *self, a, b);
        }
    }

    /// The number that the set of a number is known by.
    pub fn mapped(&mut self, id: u64) -> (out: u64)
        ensures
            out == old(self).root_of(id),
            forall|x: u64| #[trigger] final(self).root_of(x) == old(self).root_of(x),
            forall|pairs: Seq<(u64, u64)>| #[trigger]
                are_joined(*old(self), pairs) ==> are_joined(*final(self), pairs),
    {
        broadcast use vstd::std_specs::hash::group_hash_axioms;

        if self.parent.contains_key(&id) {
            self.find(id)
        } else {
            id
        }
    }
}

/// A set is known by its smallest number: what it is known by is in it, and no number in it is
/// smaller.
pub proof fn law_smallest_root(sets: UnionFind, id: u64, other: u64)
    requires
        sets.root_of(id) == sets.root_of(other),
    ensures
        sets.root_of(sets.root_of(id)) == sets.root_of(id),
        sets.root_of(id) <= other,
{
    lemma_root_is_smallest(sets.parent@, id);
    lemma_root_is_smallest(sets.parent@, other);
}

impl Default for UnionFind {
    fn default() -> (out: Self)
        ensures
            are_joined(out, Seq::empty()),
    {
        UnionFind::new()
    }
}

} // verus!
