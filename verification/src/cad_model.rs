//! Models as graphs of nodes: which are sound, and what they cost.

use std::collections::HashMap;
use vstd::prelude::*;

use crate::cad_ir::{bounded, CadNode, NodeId, ProofStatus, Provenance};

verus! {

/// A graph of nodes, with those that are the solids of the model.
#[derive(Debug)]
pub struct CadModel {
    pub nodes: Vec<CadNode>,
    pub roots: Vec<NodeId>,
    pub provenance: HashMap<u64, Provenance>,
}

/// Why a model is not sound.
#[derive(Debug, Clone, Copy, PartialEq, Eq, Structural)]
pub enum ModelError {
    /// A node that does not exist is named.
    OutOfRange,
    /// A node holds up to a tolerance, but not up to which.
    MissingResidual,
    /// A node is made of itself.
    Cycle,
}

/// Whether a node is made of another one.
pub open spec fn edge(nodes: Seq<CadNode>, a: int, b: int) -> bool {
    0 <= a < nodes.len() && 0 <= b <= usize::MAX && nodes[a].parts().contains(NodeId(b as usize))
}

/// Whether each of some nodes is made of the next one.
pub open spec fn is_walk(nodes: Seq<CadNode>, walk: Seq<int>) -> bool {
    &&& walk.len() > 0
    &&& forall|i: int| 0 <= i < walk.len() ==> 0 <= #[trigger] walk[i] < nodes.len()
    &&& forall|i: int| 1 <= i < walk.len() ==> edge(nodes, walk[i - 1], #[trigger] walk[i])
}

/// Whether a node is made of itself, directly or through others.
pub open spec fn is_cyclic(nodes: Seq<CadNode>) -> bool {
    exists|walk: Seq<int>|
        #[trigger] is_walk(nodes, walk) && walk.len() >= 2 && walk[0] == walk.last()
}

/// Whether one node is another one or made of it, directly or through others.
pub open spec fn reaches(nodes: Seq<CadNode>, from: int, to: int) -> bool {
    exists|walk: Seq<int>|
        #[trigger] is_walk(nodes, walk) && walk[0] == from && walk.last() == to
}

/// Whether all nodes of a list exist.
pub open spec fn all_exist(list: Seq<NodeId>, n: nat) -> bool {
    forall|i: int| 0 <= i < list.len() ==> (#[trigger] list[i]).0 < n
}

/// Whether a node holds up to a tolerance that is not known.
pub open spec fn lacks_residual(provenance: Map<u64, Provenance>, id: int) -> bool {
    &&& provenance.contains_key(id as u64)
    &&& provenance[id as u64].proof == ProofStatus::WithinTolerance
    &&& provenance[id as u64].max_residual is None
}

/// The first fault of the first `n` nodes, taken by themselves.
pub open spec fn node_fault(
    nodes: Seq<CadNode>,
    provenance: Map<u64, Provenance>,
    n: int,
) -> Option<ModelError>
    decreases n,
{
    if n <= 0 {
        None
    } else if node_fault(nodes, provenance, n - 1) is Some {
        node_fault(nodes, provenance, n - 1)
    } else if !all_exist(nodes[n - 1].parts(), nodes.len()) {
        Some(ModelError::OutOfRange)
    } else if lacks_residual(provenance, n - 1) {
        Some(ModelError::MissingResidual)
    } else {
        None
    }
}

impl CadModel {
    /// Why the model is not sound, if it is not.
    pub open spec fn fault(&self) -> Option<ModelError> {
        if !all_exist(self.roots@, self.nodes@.len()) {
            Some(ModelError::OutOfRange)
        } else if node_fault(self.nodes@, self.provenance@, self.nodes@.len() as int) is Some {
            node_fault(self.nodes@, self.provenance@, self.nodes@.len() as int)
        } else if is_cyclic(self.nodes@) {
            Some(ModelError::Cycle)
        } else {
            None
        }
    }
}

/// How many of some flags are set.
pub open spec fn flag_count(flags: Seq<bool>) -> nat
    decreases flags.len(),
{
    if flags.len() == 0 {
        0
    } else {
        flag_count(flags.drop_last()) + if flags.last() {
            1nat
        } else {
            0
        }
    }
}

/// With fewer flags set, their number is not larger, and smaller where one was taken away.
proof fn lemma_fewer_flags(a: Seq<bool>, b: Seq<bool>)
    requires
        a.len() == b.len(),
        forall|i: int| 0 <= i < a.len() && #[trigger] a[i] ==> b[i],
    ensures
        flag_count(a) <= flag_count(b),
        (exists|i: int| 0 <= i < a.len() && !#[trigger] a[i] && b[i]) ==> flag_count(a)
            < flag_count(b),
    decreases a.len(),
{
    if a.len() > 0 {
        assert forall|i: int|
            0 <= i < a.len() - 1 && #[trigger] a.drop_last()[i] implies b.drop_last()[i] by {
            assert(a[i]);
        }
        lemma_fewer_flags(a.drop_last(), b.drop_last());
        assert(a.last() ==> b.last());
        if exists|i: int| 0 <= i < a.len() && !#[trigger] a[i] && b[i] {
            let i = choose|i: int| 0 <= i < a.len() && !#[trigger] a[i] && b[i];
            if i < a.len() - 1 {
                assert(!a.drop_last()[i] && b.drop_last()[i]);
            }
        }
    }
}

/// The nodes that have not been looked at.
spec fn white(state: Seq<u8>) -> Seq<bool> {
    Seq::new(state.len(), |i: int| state[i] == 0)
}

/// Whether each node of a list comes after all that it is made of.
spec fn is_order(nodes: Seq<CadNode>, order: Seq<int>) -> bool {
    &&& forall|j: int| 0 <= j < order.len() ==> 0 <= #[trigger] order[j] < nodes.len()
    &&& forall|j: int, b: int|
        #![trigger edge(nodes, order[j], b)]
        0 <= j < order.len() && edge(nodes, order[j], b) ==> order.take(j).contains(b)
}

/// What holds while the nodes are looked at: those on the path are open, those in the order
/// are done.
spec fn is_coloring(nodes: Seq<CadNode>, state: Seq<u8>, path: Seq<int>, order: Seq<int>) -> bool {
    &&& state.len() == nodes.len()
    &&& is_order(nodes, order)
    &&& forall|i: int| 0 <= i < state.len() ==> (#[trigger] state[i] == 1) == path.contains(i)
    &&& forall|i: int| 0 <= i < state.len() ==> (#[trigger] state[i] == 2) == order.contains(i)
    &&& forall|i: int| 0 <= i < state.len() ==> #[trigger] state[i] <= 2
}

/// Whether a node is not built from more than `height` levels.
pub open spec fn is_low(nodes: Seq<CadNode>, id: int, height: nat) -> bool
    decreases height,
{
    &&& height > 0
    &&& forall|b: int| #[trigger] edge(nodes, id, b) ==> is_low(nodes, b, (height - 1) as nat)
}

proof fn lemma_low_grows(nodes: Seq<CadNode>, id: int, low: nat, high: nat)
    requires
        is_low(nodes, id, low),
        low <= high,
    ensures
        is_low(nodes, id, high),
    decreases low,
{
    assert forall|b: int| #[trigger] edge(nodes, id, b) implies is_low(
        nodes,
        b,
        (high - 1) as nat,
    ) by {
        lemma_low_grows(nodes, b, (low - 1) as nat, (high - 1) as nat);
    }
}

proof fn lemma_order_is_low(nodes: Seq<CadNode>, order: Seq<int>, j: int)
    requires
        is_order(nodes, order),
        0 <= j < order.len(),
    ensures
        is_low(nodes, order[j], (j + 1) as nat),
    decreases j,
{
    assert forall|b: int| #[trigger] edge(nodes, order[j], b) implies is_low(
        nodes,
        b,
        j as nat,
    ) by {
        assert(order.take(j).contains(b));
        let k = choose|k: int| 0 <= k < j && order.take(j)[k] == b;
        assert(order[k] == b);
        lemma_order_is_low(nodes, order, k);
        lemma_low_grows(nodes, b, (k + 1) as nat, j as nat);
    }
}

/// A walk from a low node is short.
proof fn lemma_low_walk(nodes: Seq<CadNode>, walk: Seq<int>, height: nat)
    requires
        is_walk(nodes, walk),
        is_low(nodes, walk[0], height),
    ensures
        walk.len() <= height,
    decreases walk.len(),
{
    if walk.len() > 1 {
        assert(edge(nodes, walk[1 - 1], walk[1]));
        let rest = walk.skip(1);
        assert forall|i: int| 1 <= i < rest.len() implies edge(
            nodes,
            rest[i - 1],
            #[trigger] rest[i],
        ) by {
            assert(edge(nodes, walk[i + 1 - 1], walk[i + 1]));
        }
        assert forall|i: int| 0 <= i < rest.len() implies 0 <= #[trigger] rest[i]
            < nodes.len() by {
            assert(rest[i] == walk[i + 1]);
        }
        lemma_low_walk(nodes, rest, (height - 1) as nat);
    }
}

/// A cycle can be walked round again.
proof fn lemma_longer_cycle(nodes: Seq<CadNode>, walk: Seq<int>, times: nat) -> (long: Seq<int>)
    requires
        is_walk(nodes, walk),
        walk.len() >= 2,
        walk[0] == walk.last(),
    ensures
        is_walk(nodes, long),
        long[0] == walk[0],
        long.last() == walk[0],
        long.len() > times,
    decreases times,
{
    if times == 0 {
        walk
    } else {
        let shorter = lemma_longer_cycle(nodes, walk, (times - 1) as nat);
        let long = shorter + walk.skip(1);
        assert(long.last() == walk.last());
        assert forall|i: int| 1 <= i < long.len() implies edge(
            nodes,
            long[i - 1],
            #[trigger] long[i],
        ) by {
            if i < shorter.len() {
                assert(edge(nodes, shorter[i - 1], shorter[i]));
            } else {
                let k = i - shorter.len() + 1;
                assert(long[i] == walk[k]);
                assert(edge(nodes, walk[k - 1], walk[k]));
                if i > shorter.len() {
                    assert(long[i - 1] == walk[k - 1]);
                } else {
                    assert(long[i - 1] == shorter.last());
                }
            }
        }
        assert forall|i: int| 0 <= i < long.len() implies 0 <= #[trigger] long[i]
            < nodes.len() by {
            if i < shorter.len() {
                assert(long[i] == shorter[i]);
            } else {
                assert(long[i] == walk[i - shorter.len() + 1]);
            }
        }
        long
    }
}

/// A model in which no node is made of more levels than there are nodes has no cycle.
pub proof fn law_low_is_acyclic(nodes: Seq<CadNode>)
    requires
        forall|i: int| 0 <= i < nodes.len() ==> #[trigger] is_low(nodes, i, nodes.len()),
    ensures
        !is_cyclic(nodes),
{
    if is_cyclic(nodes) {
        let walk = choose|walk: Seq<int>|
            #[trigger] is_walk(nodes, walk) && walk.len() >= 2 && walk[0] == walk.last();
        let long = lemma_longer_cycle(nodes, walk, nodes.len());
        assert(is_low(nodes, walk[0], nodes.len()));
        lemma_low_walk(nodes, long, nodes.len());
    }
}

impl CadModel {
    /// A model without nodes.
    pub fn new() -> (out: CadModel)
        ensures
            out.nodes@ == Seq::<CadNode>::empty(),
            out.roots@ == Seq::<NodeId>::empty(),
            out.provenance@ == Map::<u64, Provenance>::empty(),
    {
        CadModel { nodes: Vec::new(), roots: Vec::new(), provenance: HashMap::new() }
    }

    /// Adds a node behind the others.
    pub fn add_node(&mut self, node: CadNode) -> (out: NodeId)
        ensures
            out.0 == old(self).nodes@.len(),
            final(self).nodes@ == old(self).nodes@.push(node),
            final(self).roots@ == old(self).roots@,
            final(self).provenance@ == old(self).provenance@,
    {
        let id = NodeId(self.nodes.len());
        self.nodes.push(node);
        id
    }

    fn require_node(&self, id: NodeId) -> (out: Result<(), ModelError>)
        ensures
            out is Ok == (id.0 < self.nodes@.len()),
            out matches Err(error) ==> error == ModelError::OutOfRange,
    {
        if id.0 >= self.nodes.len() {
            Err(ModelError::OutOfRange)
        } else {
            Ok(())
        }
    }

    /// Makes a node a solid of the model.
    pub fn add_root(&mut self, id: NodeId) -> (out: Result<(), ModelError>)
        ensures
            out is Ok == (id.0 < old(self).nodes@.len()),
            out matches Err(error) ==> error == ModelError::OutOfRange && *final(self) == *old(
                self,
            ),
            out is Ok ==> final(self).roots@ == old(self).roots@.push(id),
            final(self).nodes@ == old(self).nodes@,
            final(self).provenance@ == old(self).provenance@,
    {
        match self.require_node(id) {
            Err(error) => Err(error),
            Ok(()) => {
                self.roots.push(id);
                Ok(())
            },
        }
    }

    /// Says where a node comes from.
    pub fn set_provenance(&mut self, id: NodeId, provenance: Provenance) -> (out: Result<
        (),
        ModelError,
    >)
        ensures
            out is Ok == (id.0 < old(self).nodes@.len()),
            out matches Err(error) ==> error == ModelError::OutOfRange && *final(self) == *old(
                self,
            ),
            out is Ok ==> final(self).provenance@ == old(self).provenance@.insert(
                id.0 as u64,
                provenance,
            ),
            final(self).nodes@ == old(self).nodes@,
            final(self).roots@ == old(self).roots@,
    {
        broadcast use vstd::std_specs::hash::group_hash_axioms;

        match self.require_node(id) {
            Err(error) => Err(error),
            Ok(()) => {
                self.provenance.insert(id.0 as u64, provenance);
                Ok(())
            },
        }
    }

    /// The node with a number.
    pub fn node(&self, id: NodeId) -> (out: Result<&CadNode, ModelError>)
        ensures
            match out {
                Ok(node) => id.0 < self.nodes@.len() && *node == self.nodes@[id.0 as int],
                Err(error) => id.0 >= self.nodes@.len() && error == ModelError::OutOfRange,
            },
    {
        if id.0 < self.nodes.len() {
            Ok(&self.nodes[id.0])
        } else {
            Err(ModelError::OutOfRange)
        }
    }

    /// Whether the nodes below a node are free of cycles, given those that are done.
    fn validate_acyclic(
        &self,
        id: usize,
        state: &mut Vec<u8>,
        Ghost(path): Ghost<Seq<int>>,
        Ghost(order): Ghost<Seq<int>>,
    ) -> (out: (bool, Ghost<Seq<int>>))
        requires
            id < self.nodes@.len(),
            forall|i: int|
                0 <= i < self.nodes@.len() ==> all_exist(
                    (#[trigger] self.nodes@[i]).parts(),
                    self.nodes@.len(),
                ),
            is_walk(self.nodes@, path.push(id as int)),
            is_coloring(self.nodes@, old(state)@, path, order),
        ensures
            out.0 ==> {
                &&& is_coloring(self.nodes@, final(state)@, path, out.1@)
                &&& final(state)@[id as int] == 2
                &&& forall|i: int|
                    0 <= i < final(state)@.len() && old(state)@[i] != 0 ==> #[trigger] final(state)@[i]
                        == old(state)@[i]
            },
            !out.0 ==> is_cyclic(self.nodes@),
        decreases flag_count(white(old(state)@)), 1nat,
    {
        if state[id] == 2 {
            return (true, Ghost(order));
        }
        if state[id] == 1 {
            proof {
                assert(path.contains(id as int));
                let k = choose|k: int| 0 <= k < path.len() && path[k] == id;
                let whole = path.push(id as int);
                let walk = whole.skip(k);
                assert(walk[0] == id && walk.last() == id);
                assert forall|i: int| 1 <= i < walk.len() implies edge(
                    self.nodes@,
                    walk[i - 1],
                    #[trigger] walk[i],
                ) by {
                    assert(edge(self.nodes@, whole[k + i - 1], whole[k + i]));
                }
                assert forall|i: int| 0 <= i < walk.len() implies 0 <= #[trigger] walk[i]
                    < self.nodes@.len() by {
                    assert(walk[i] == whole[k + i]);
                }
                assert(is_walk(self.nodes@, walk));
            }
            return (false, Ghost(order));
        }
        let ghost before = state@;
        state.set(id, 1);
        let ghost longer = path.push(id as int);
        proof {
            assert forall|i: int| 0 <= i < state@.len() implies (#[trigger] state@[i] == 1)
                == longer.contains(i) by {
                assert((before[i] == 1) == path.contains(i));
                if i == id {
                    assert(longer[path.len() as int] == i);
                }
                if path.contains(i) {
                    let k = choose|k: int| 0 <= k < path.len() && path[k] == i;
                    assert(longer[k] == i);
                }
                if longer.contains(i) && i != id {
                    let k = choose|k: int| 0 <= k < longer.len() && longer[k] == i;
                    assert(path[k] == i);
                }
            }
            assert forall|i: int| 0 <= i < state@.len() implies (#[trigger] state@[i] == 2)
                == order.contains(i) by {
                assert((before[i] == 2) == order.contains(i));
                assert(before[id as int] == 0);
            }
            assert forall|i: int| 0 <= i < state@.len() implies #[trigger] state@[i] <= 2 by {
                assert(before[i] <= 2);
            }
            assert(white(before)[id as int] && !white(state@)[id as int]);
            lemma_fewer_flags(white(state@), white(before));
        }
        let children = self.nodes[id].children();
        let ghost opened = state@;
        let mut done: Ghost<Seq<int>> = Ghost(order);
        let mut c: usize = 0;
        while c < children.len()
            invariant
                c <= children@.len(),
                id < self.nodes@.len(),
                children@ == self.nodes@[id as int].parts(),
                forall|i: int|
                    0 <= i < self.nodes@.len() ==> all_exist(
                        (#[trigger] self.nodes@[i]).parts(),
                        self.nodes@.len(),
                    ),
                longer == path.push(id as int),
                is_walk(self.nodes@, longer),
                is_coloring(self.nodes@, state@, longer, done@),
                before.len() == opened.len() == state@.len(),
                opened == before.update(id as int, 1),
                before[id as int] == 0,
                flag_count(white(opened)) < flag_count(white(before)),
                forall|i: int|
                    0 <= i < state@.len() && opened[i] != 0 ==> #[trigger] state@[i] == opened[i],
                forall|k: int| 0 <= k < c ==> state@[(#[trigger] children@[k]).0 as int] == 2,
                flag_count(white(before)) == flag_count(white(old(state)@)),
            decreases children.len() - c,
        {
            let child: usize = children[c].0;
            proof {
                assert(all_exist(self.nodes@[id as int].parts(), self.nodes@.len()));
                assert(children@[c as int].0 < self.nodes@.len());
                let next = longer.push(child as int);
                assert(self.nodes@[id as int].parts().contains(NodeId(child)));
                assert(edge(self.nodes@, id as int, child as int));
                assert forall|i: int| 1 <= i < next.len() implies edge(
                    self.nodes@,
                    next[i - 1],
                    #[trigger] next[i],
                ) by {
                    if i < longer.len() {
                        assert(edge(self.nodes@, longer[i - 1], longer[i]));
                    }
                }
                assert forall|i: int| 0 <= i < next.len() implies 0 <= #[trigger] next[i]
                    < self.nodes@.len() by {
                    if i < longer.len() {
                        assert(next[i] == longer[i]);
                    }
                }
                assert forall|i: int|
                    0 <= i < state@.len() && #[trigger] white(state@)[i] implies white(
                    opened,
                )[i] by {
                    assert(opened[i] != 0 ==> state@[i] == opened[i]);
                }
                lemma_fewer_flags(white(state@), white(opened));
            }
            let ghost mid = state@;
            let (fine, next_done) = self.validate_acyclic(child, state, Ghost(longer), done);
            if !fine {
                return (false, next_done);
            }
            done = next_done;
            proof {
                assert forall|i: int| 0 <= i < state@.len() && opened[i] != 0 implies #[trigger]
                state@[i] == opened[i] by {
                    assert(mid[i] == opened[i]);
                }
                assert forall|k: int| 0 <= k < c + 1 implies state@[(
                #[trigger] children@[k]).0 as int] == 2 by {
                    if k < c {
                        assert(mid[children@[k].0 as int] == 2);
                        assert(all_exist(self.nodes@[id as int].parts(), self.nodes@.len()));
                        assert(children@[k].0 < self.nodes@.len());
                    }
                }
            }
            c = c + 1;
        }
        let ghost mid = state@;
        state.set(id, 2);
        let ghost full = done@.push(id as int);
        proof {
            assert(mid[id as int] == opened[id as int]);
            assert forall|j: int, b: int|
                #![trigger edge(self.nodes@, full[j], b)]
                0 <= j < full.len() && edge(self.nodes@, full[j], b) implies full.take(
                j,
            ).contains(b) by {
                if j < done@.len() {
                    assert(edge(self.nodes@, done@[j], b));
                    assert(full.take(j) =~= done@.take(j));
                } else {
                    assert(full[j] == id);
                    assert(full.take(j) =~= done@);
                    let k = choose|k: int|
                        0 <= k < children@.len() && children@[k] == NodeId(b as usize);
                    assert(children@.contains(NodeId(b as usize)));
                    assert(mid[children@[k].0 as int] == 2);
                    assert(all_exist(self.nodes@[id as int].parts(), self.nodes@.len()));
                    assert(children@[k].0 < self.nodes@.len());
                    assert(mid[b] == 2);
                }
            }
            assert forall|i: int| 0 <= i < state@.len() implies (#[trigger] state@[i] == 1)
                == path.contains(i) by {
                assert((mid[i] == 1) == longer.contains(i));
                assert(i != id ==> (before[i] == 1) == path.contains(i));
                if path.contains(i) {
                    let k = choose|k: int| 0 <= k < path.len() && path[k] == i;
                    assert(longer[k] == i);
                    assert(old(state)@[i] == 1);
                    assert(i != id);
                }
                if longer.contains(i) && i != id {
                    let k = choose|k: int| 0 <= k < longer.len() && longer[k] == i;
                    assert(path[k] == i);
                }
            }
            assert forall|i: int| 0 <= i < state@.len() implies (#[trigger] state@[i] == 2)
                == full.contains(i) by {
                assert((mid[i] == 2) == done@.contains(i));
                if i == id {
                    assert(full[done@.len() as int] == i);
                }
                if done@.contains(i) {
                    let k = choose|k: int| 0 <= k < done@.len() && done@[k] == i;
                    assert(full[k] == i);
                }
                if full.contains(i) && i != id {
                    let k = choose|k: int| 0 <= k < full.len() && full[k] == i;
                    assert(done@[k] == i);
                }
            }
            assert forall|i: int| 0 <= i < state@.len() implies #[trigger] state@[i] <= 2 by {
                assert(mid[i] <= 2);
            }
            assert forall|j: int| 0 <= j < full.len() implies 0 <= #[trigger] full[j]
                < self.nodes@.len() by {
                if j < done@.len() {
                    assert(full[j] == done@[j]);
                }
            }
            assert forall|i: int|
                0 <= i < state@.len() && old(state)@[i] != 0 implies #[trigger] state@[i]
                == old(state)@[i] by {
                assert(i != id);
                assert(mid[i] == opened[i]);
            }
        }
        (true, Ghost(full))
    }
}

/// Whether a list names only nodes that exist.
fn nodes_exist(list: &Vec<NodeId>, n: usize) -> (out: bool)
    ensures
        out == all_exist(list@, n as nat),
{
    let mut i: usize = 0;
    while i < list.len()
        invariant
            i <= list@.len(),
            forall|j: int| 0 <= j < i ==> (#[trigger] list@[j]).0 < n,
        decreases list.len() - i,
    {
        if list[i].0 >= n {
            assert(list@[i as int].0 >= n);
            return false;
        }
        i = i + 1;
    }
    true
}

/// Where no node has a fault by itself, all nodes are made of nodes that exist.
pub proof fn lemma_no_fault(nodes: Seq<CadNode>, provenance: Map<u64, Provenance>, n: int)
    requires
        0 <= n <= nodes.len(),
        node_fault(nodes, provenance, n) is None,
    ensures
        forall|i: int| 0 <= i < n ==> all_exist((#[trigger] nodes[i]).parts(), nodes.len()),
    decreases n,
{
    if n > 0 {
        lemma_no_fault(nodes, provenance, n - 1);
    }
}

/// A fault of the first nodes is the fault of all.
proof fn lemma_fault_stays(nodes: Seq<CadNode>, provenance: Map<u64, Provenance>, m: int, n: int)
    requires
        m <= n,
        node_fault(nodes, provenance, m) is Some,
    ensures
        node_fault(nodes, provenance, n) == node_fault(nodes, provenance, m),
    decreases n - m,
{
    if m < n {
        lemma_fault_stays(nodes, provenance, m, n - 1);
    }
}

impl CadModel {
    /// Whether a node holds up to a tolerance that is not known.
    fn has_no_residual(&self, id: usize) -> (out: bool)
        ensures
            out == lacks_residual(self.provenance@, id as int),
    {
        broadcast use vstd::std_specs::hash::group_hash_axioms;

        match self.provenance.get(&(id as u64)) {
            Some(provenance) => provenance.proof == ProofStatus::WithinTolerance
                && provenance.max_residual.is_none(),
            None => false,
        }
    }

    /// Whether the model is sound: its solids and the parts of its nodes exist, nodes that hold
    /// up to a tolerance say up to which, and no node is made of itself.
    pub fn validate(&self) -> (out: Result<(), ModelError>)
        ensures
            match out {
                Ok(()) => self.fault() is None,
                Err(error) => self.fault() == Some(error),
            },
            out is Ok ==> forall|i: int|
                0 <= i < self.nodes@.len() ==> #[trigger] is_low(
                    self.nodes@,
                    i,
                    self.nodes@.len(),
                ),
    {
        if !nodes_exist(&self.roots, self.nodes.len()) {
            return Err(ModelError::OutOfRange);
        }
        let mut i: usize = 0;
        while i < self.nodes.len()
            invariant
                i <= self.nodes@.len(),
                all_exist(self.roots@, self.nodes@.len()),
                node_fault(self.nodes@, self.provenance@, i as int) is None,
            decreases self.nodes.len() - i,
        {
            let children = self.nodes[i].children();
            if !nodes_exist(&children, self.nodes.len()) {
                proof {
                    lemma_fault_stays(
                        self.nodes@,
                        self.provenance@,
                        i + 1,
                        self.nodes@.len() as int,
                    );
                }
                return Err(ModelError::OutOfRange);
            }
            if self.has_no_residual(i) {
                proof {
                    lemma_fault_stays(
                        self.nodes@,
                        self.provenance@,
                        i + 1,
                        self.nodes@.len() as int,
                    );
                }
                return Err(ModelError::MissingResidual);
            }
            i = i + 1;
        }
        proof {
            lemma_no_fault(self.nodes@, self.provenance@, self.nodes@.len() as int);
        }
        let mut state: Vec<u8> = Vec::new();
        let mut k: usize = 0;
        while k < self.nodes.len()
            invariant
                k <= self.nodes@.len(),
                state@.len() == k,
                forall|j: int| 0 <= j < k ==> #[trigger] state@[j] == 0,
            decreases self.nodes.len() - k,
        {
            state.push(0);
            k = k + 1;
        }
        let mut order: Ghost<Seq<int>> = Ghost(Seq::empty());
        let mut n: usize = 0;
        while n < self.nodes.len()
            invariant
                n <= self.nodes@.len(),
                all_exist(self.roots@, self.nodes@.len()),
                node_fault(self.nodes@, self.provenance@, self.nodes@.len() as int) is None,
                forall|j: int|
                    0 <= j < self.nodes@.len() ==> all_exist(
                        (#[trigger] self.nodes@[j]).parts(),
                        self.nodes@.len(),
                    ),
                is_coloring(self.nodes@, state@, Seq::empty(), order@),
                forall|j: int| 0 <= j < n ==> #[trigger] state@[j] == 2,
            decreases self.nodes.len() - n,
        {
            assert(is_walk(self.nodes@, Seq::<int>::empty().push(n as int)));
            let ghost before = state@;
            let (fine, done) = self.validate_acyclic(n, &mut state, Ghost(Seq::empty()), order);
            if !fine {
                return Err(ModelError::Cycle);
            }
            order = done;
            assert forall|j: int| 0 <= j < n + 1 implies #[trigger] state@[j] == 2 by {
                if j < n {
                    assert(before[j] == 2);
                }
            }
            n = n + 1;
        }
        proof {
            lemma_all_low(self.nodes@, state@, order@);
            law_low_is_acyclic(self.nodes@);
        }
        Ok(())
    }
}

/// Where all nodes are done, all are low.
proof fn lemma_all_low(nodes: Seq<CadNode>, state: Seq<u8>, order: Seq<int>)
    requires
        is_coloring(nodes, state, Seq::empty(), order),
        forall|j: int| 0 <= j < nodes.len() ==> #[trigger] state[j] == 2,
    ensures
        forall|i: int| 0 <= i < nodes.len() ==> #[trigger] is_low(nodes, i, nodes.len()),
{
    assert forall|i: int| 0 <= i < nodes.len() implies #[trigger] is_low(
        nodes,
        i,
        nodes.len(),
    ) by {
        assert(state[i] == 2);
        lemma_first_place(nodes, order, i);
        let j = choose|j: int|
            0 <= j < order.len() && order[j] == i && is_low(nodes, i, nodes.len());
    }
}

/// A node in an order is low, since a walk from it cannot meet a node twice.
proof fn lemma_first_place(nodes: Seq<CadNode>, order: Seq<int>, i: int)
    requires
        is_order(nodes, order),
        order.contains(i),
    ensures
        exists|j: int|
            0 <= j < order.len() && #[trigger] order[j] == i && is_low(nodes, i, nodes.len()),
{
    let j = choose|j: int| 0 <= j < order.len() && order[j] == i;
    let short = dedup(order, j + 1);
    lemma_dedup(nodes, order, j + 1);
    assert(order.take(j + 1)[j] == i);
    assert(order.take(j + 1).contains(i));
    assert(short.contains(i));
    let k = choose|k: int| 0 <= k < short.len() && short[k] == i;
    lemma_order_is_low(nodes, short, k);
    lemma_distinct_is_short(short, nodes.len());
    lemma_low_grows(nodes, i, (k + 1) as nat, nodes.len());
    assert(order[j] == i);
}

/// The first `n` nodes of an order, without those that have come before.
spec fn dedup(order: Seq<int>, n: int) -> Seq<int>
    decreases n,
{
    if n <= 0 {
        Seq::empty()
    } else {
        let before = dedup(order, n - 1);
        if before.contains(order[n - 1]) {
            before
        } else {
            before.push(order[n - 1])
        }
    }
}

proof fn lemma_dedup(nodes: Seq<CadNode>, order: Seq<int>, n: int)
    requires
        is_order(nodes, order),
        0 <= n <= order.len(),
    ensures
        is_order(nodes, dedup(order, n)),
        dedup(order, n).no_duplicates(),
        forall|x: int| dedup(order, n).contains(x) == #[trigger] order.take(n).contains(x),
        forall|j: int|
            0 <= j < dedup(order, n).len() ==> 0 <= #[trigger] dedup(order, n)[j] < nodes.len(),
    decreases n,
{
    if n > 0 {
        lemma_dedup(nodes, order, n - 1);
        let before = dedup(order, n - 1);
        let after = dedup(order, n);
        let x0 = order[n - 1];
        assert forall|x: int| after.contains(x) == #[trigger] order.take(n).contains(x) by {
            assert(before.contains(x) == order.take(n - 1).contains(x));
            if order.take(n).contains(x) {
                let front = order.take(n);
                let k = choose|k: int| 0 <= k < front.len() && front[k] == x;
                if k < n - 1 {
                    assert(order.take(n - 1)[k] == x);
                }
            }
            if order.take(n - 1).contains(x) {
                let front = order.take(n - 1);
                let k = choose|k: int| 0 <= k < front.len() && front[k] == x;
                assert(order.take(n)[k] == x);
            }
            assert(order.take(n)[n - 1] == x0);
            if !before.contains(x0) {
                if after.contains(x) {
                    let k = choose|k: int| 0 <= k < after.len() && after[k] == x;
                    if k < before.len() {
                        assert(before[k] == x);
                    }
                }
                if before.contains(x) {
                    let k = choose|k: int| 0 <= k < before.len() && before[k] == x;
                    assert(after[k] == x);
                }
                assert(after[before.len() as int] == x0);
            }
        }
        if !before.contains(x0) {
            assert forall|j: int, b: int|
                #![trigger edge(nodes, after[j], b)]
                0 <= j < after.len() && edge(nodes, after[j], b) implies after.take(j).contains(
                b,
            ) by {
                if j < before.len() {
                    assert(edge(nodes, before[j], b));
                    assert(after.take(j) =~= before.take(j));
                } else {
                    assert(edge(nodes, order[n - 1], b));
                    assert(order.take(n - 1).contains(b));
                    assert(after.take(j) =~= before);
                }
            }
        }
    }
}

/// Different numbers below a bound are not more than the bound.
proof fn lemma_distinct_is_short(list: Seq<int>, bound: nat)
    requires
        list.no_duplicates(),
        forall|j: int| 0 <= j < list.len() ==> 0 <= #[trigger] list[j] < bound,
    ensures
        list.len() <= bound,
{
    let below = vstd::set_lib::set_int_range(0, bound as int);
    vstd::set_lib::lemma_int_range(0, bound as int);
    list.unique_seq_to_set();
    assert(list.to_set().subset_of(below)) by {
        assert forall|x: int| list.to_set().contains(x) implies below.contains(x) by {
            let j = choose|j: int| 0 <= j < list.len() && list[j] == x;
        }
    }
    vstd::set_lib::lemma_len_subset(list.to_set(), below);
}

/// What the nodes cost that are flagged.
pub open spec fn flagged_cost(nodes: Seq<CadNode>, flags: Seq<bool>, n: int) -> nat
    decreases n,
{
    if n <= 0 {
        0
    } else {
        flagged_cost(nodes, flags, n - 1) + if flags[n - 1] {
            nodes[n - 1].cost()
        } else {
            0
        }
    }
}

/// What a node and all that it is made of cost. A node that is used more than once counts
/// once.
pub open spec fn total_cost(nodes: Seq<CadNode>, root: int) -> nat {
    flagged_cost(
        nodes,
        Seq::new(nodes.len(), |i: int| reaches(nodes, root, i)),
        nodes.len() as int,
    )
}

/// Setting one flag adds the cost of its node.
proof fn lemma_flag_cost(nodes: Seq<CadNode>, flags: Seq<bool>, i: int, n: int)
    requires
        0 <= i < flags.len(),
        !flags[i],
        n <= flags.len(),
    ensures
        flagged_cost(nodes, flags.update(i, true), n) == flagged_cost(nodes, flags, n) + if i < n {
            nodes[i].cost()
        } else {
            0
        },
    decreases n,
{
    if n > 0 {
        lemma_flag_cost(nodes, flags, i, n - 1);
    }
}

/// The nodes that have not been counted.
spec fn unseen(seen: Seq<bool>) -> Seq<bool> {
    Seq::new(seen.len(), |i: int| !seen[i])
}

/// Whether what was counted between two states is what can be reached from a node.
spec fn counted_from(
    nodes: Seq<CadNode>,
    root: int,
    before: Seq<bool>,
    after: Seq<bool>,
) -> bool {
    &&& after.len() == before.len()
    &&& forall|i: int| 0 <= i < after.len() && #[trigger] before[i] ==> after[i]
    &&& forall|i: int|
        0 <= i < after.len() && #[trigger] after[i] && !before[i] ==> reaches(nodes, root, i)
    &&& forall|i: int, b: int|
        #![trigger edge(nodes, i, b)]
        0 <= i < after.len() && after[i] && !before[i] && edge(nodes, i, b) ==> after[b]
}

proof fn lemma_reaches_itself(nodes: Seq<CadNode>, id: int)
    requires
        0 <= id < nodes.len(),
    ensures
        reaches(nodes, id, id),
{
    let walk = seq![id];
    assert(is_walk(nodes, walk) && walk[0] == id && walk.last() == id);
}

proof fn lemma_reaches_through(nodes: Seq<CadNode>, id: int, child: int, to: int)
    requires
        0 <= id < nodes.len(),
        edge(nodes, id, child),
        reaches(nodes, child, to),
    ensures
        reaches(nodes, id, to),
{
    let walk = choose|walk: Seq<int>|
        #[trigger] is_walk(nodes, walk) && walk[0] == child && walk.last() == to;
    let longer = seq![id] + walk;
    assert forall|i: int| 1 <= i < longer.len() implies edge(
        nodes,
        longer[i - 1],
        #[trigger] longer[i],
    ) by {
        assert(longer[i] == walk[i - 1]);
        if i > 1 {
            assert(edge(nodes, walk[i - 1 - 1], walk[i - 1]));
        }
    }
    assert forall|i: int| 0 <= i < longer.len() implies 0 <= #[trigger] longer[i]
        < nodes.len() by {
        if i > 0 {
            assert(longer[i] == walk[i - 1]);
        }
    }
    assert(is_walk(nodes, longer) && longer[0] == id && longer.last() == to);
}

/// What is closed under the parts of nodes holds all that can be reached.
proof fn lemma_closed_holds(nodes: Seq<CadNode>, seen: Seq<bool>, walk: Seq<int>)
    requires
        seen.len() == nodes.len(),
        is_walk(nodes, walk),
        seen[walk[0]],
        forall|i: int, b: int|
            #![trigger edge(nodes, i, b)]
            0 <= i < seen.len() && seen[i] && edge(nodes, i, b) ==> seen[b],
    ensures
        seen[walk.last()],
    decreases walk.len(),
{
    if walk.len() > 1 {
        let shorter = walk.drop_last();
        assert forall|i: int| 1 <= i < shorter.len() implies edge(
            nodes,
            shorter[i - 1],
            #[trigger] shorter[i],
        ) by {
            assert(edge(nodes, walk[i - 1], walk[i]));
        }
        assert forall|i: int| 0 <= i < shorter.len() implies 0 <= #[trigger] shorter[i]
            < nodes.len() by {
            assert(shorter[i] == walk[i]);
        }
        lemma_closed_holds(nodes, seen, shorter);
        assert(edge(nodes, walk[walk.len() - 1 - 1], walk[walk.len() - 1]));
    }
}

impl CadModel {
    fn complexity_score_unique(&self, id: usize, seen: &mut Vec<bool>, sum: u64) -> (out: u64)
        requires
            id < self.nodes@.len(),
            old(seen)@.len() == self.nodes@.len(),
            forall|i: int|
                0 <= i < self.nodes@.len() ==> all_exist(
                    (#[trigger] self.nodes@[i]).parts(),
                    self.nodes@.len(),
                ),
            sum == bounded(flagged_cost(self.nodes@, old(seen)@, self.nodes@.len() as int)),
        ensures
            counted_from(self.nodes@, id as int, old(seen)@, final(seen)@),
            final(seen)@[id as int],
            out == bounded(flagged_cost(self.nodes@, final(seen)@, self.nodes@.len() as int)),
        decreases flag_count(unseen(old(seen)@)),
    {
        if seen[id] {
            return sum;
        }
        let ghost before = seen@;
        seen.set(id, true);
        let ghost opened = seen@;
        let mut out: u64 = sum.saturating_add(self.nodes[id].local_complexity());
        proof {
            lemma_flag_cost(self.nodes@, before, id as int, self.nodes@.len() as int);
            assert(opened =~= before.update(id as int, true));
            assert(unseen(before)[id as int] && !unseen(opened)[id as int]);
            assert forall|i: int|
                0 <= i < opened.len() && #[trigger] unseen(opened)[i] implies unseen(before)[i] by {
                assert(opened[i] == (before[i] || i == id));
            }
            lemma_fewer_flags(unseen(opened), unseen(before));
            lemma_reaches_itself(self.nodes@, id as int);
        }
        let children = self.nodes[id].children();
        let mut c: usize = 0;
        while c < children.len()
            invariant
                c <= children@.len(),
                id < self.nodes@.len(),
                children@ == self.nodes@[id as int].parts(),
                forall|i: int|
                    0 <= i < self.nodes@.len() ==> all_exist(
                        (#[trigger] self.nodes@[i]).parts(),
                        self.nodes@.len(),
                    ),
                before == old(seen)@,
                before.len() == opened.len() == seen@.len() == self.nodes@.len(),
                opened == before.update(id as int, true),
                flag_count(unseen(opened)) < flag_count(unseen(before)),
                out == bounded(flagged_cost(self.nodes@, seen@, self.nodes@.len() as int)),
                forall|i: int| 0 <= i < seen@.len() && #[trigger] opened[i] ==> seen@[i],
                forall|i: int|
                    0 <= i < seen@.len() && #[trigger] seen@[i] && !before[i] ==> reaches(
                        self.nodes@,
                        id as int,
                        i,
                    ),
                forall|i: int, b: int|
                    #![trigger edge(self.nodes@, i, b)]
                    0 <= i < seen@.len() && seen@[i] && !opened[i] && edge(self.nodes@, i, b)
                        ==> seen@[b],
                forall|k: int| 0 <= k < c ==> seen@[(#[trigger] children@[k]).0 as int],
            decreases children.len() - c,
        {
            let child: usize = children[c].0;
            let ghost mid = seen@;
            proof {
                assert(all_exist(self.nodes@[id as int].parts(), self.nodes@.len()));
                assert(children@[c as int].0 < self.nodes@.len());
                assert(self.nodes@[id as int].parts().contains(NodeId(child)));
                assert(edge(self.nodes@, id as int, child as int));
                assert forall|i: int|
                    0 <= i < seen@.len() && #[trigger] unseen(seen@)[i] implies unseen(
                    opened,
                )[i] by {
                    assert(opened[i] ==> seen@[i]);
                }
                lemma_fewer_flags(unseen(seen@), unseen(opened));
            }
            out = self.complexity_score_unique(child, seen, out);
            proof {
                assert forall|i: int| 0 <= i < seen@.len() && #[trigger] opened[i] implies seen@[i] by {
                    assert(mid[i]);
                }
                assert forall|i: int|
                    0 <= i < seen@.len() && #[trigger] seen@[i] && !before[i] implies reaches(
                    self.nodes@,
                    id as int,
                    i,
                ) by {
                    if !mid[i] {
                        lemma_reaches_through(self.nodes@, id as int, child as int, i);
                    }
                }
                assert forall|i: int, b: int|
                    #![trigger edge(self.nodes@, i, b)]
                    0 <= i < seen@.len() && seen@[i] && !opened[i] && edge(
                        self.nodes@,
                        i,
                        b,
                    ) implies seen@[b] by {
                    if mid[i] {
                        assert(mid[b]);
                        lemma_edge_exists(self.nodes@, i, b);
                    }
                }
                assert forall|k: int| 0 <= k < c + 1 implies seen@[(
                #[trigger] children@[k]).0 as int] by {
                    assert(children@[k].0 < self.nodes@.len());
                    if k < c {
                        assert(mid[children@[k].0 as int]);
                    }
                }
            }
            c = c + 1;
        }
        proof {
            assert forall|i: int, b: int|
                #![trigger edge(self.nodes@, i, b)]
                0 <= i < seen@.len() && seen@[i] && !before[i] && edge(
                    self.nodes@,
                    i,
                    b,
                ) implies seen@[b] by {
                if i == id {
                    let k = choose|k: int|
                        0 <= k < children@.len() && children@[k] == NodeId(b as usize);
                    assert(children@.contains(NodeId(b as usize)));
                    assert(seen@[children@[k].0 as int]);
                } else {
                    assert(!opened[i]);
                }
            }
            assert forall|i: int| 0 <= i < seen@.len() && #[trigger] before[i] implies seen@[i] by {
                assert(opened[i]);
            }
        }
        out
    }

    /// What a node and all that it is made of cost.
    pub fn complexity_score(&self, root: NodeId) -> (out: Result<u64, ModelError>)
        ensures
            match out {
                Ok(score) => {
                    &&& root.0 < self.nodes@.len()
                    &&& self.fault() is None
                    &&& score == bounded(total_cost(self.nodes@, root.0 as int))
                },
                Err(error) => if root.0 >= self.nodes@.len() {
                    error == ModelError::OutOfRange
                } else {
                    self.fault() == Some(error)
                },
            },
    {
        match self.require_node(root) {
            Err(error) => return Err(error),
            Ok(()) => {},
        }
        match self.validate() {
            Err(error) => return Err(error),
            Ok(()) => {},
        }
        let mut seen: Vec<bool> = Vec::new();
        let mut i: usize = 0;
        while i < self.nodes.len()
            invariant
                i <= self.nodes@.len(),
                seen@.len() == i,
                forall|j: int| 0 <= j < i ==> !#[trigger] seen@[j],
            decreases self.nodes.len() - i,
        {
            seen.push(false);
            i = i + 1;
        }
        proof {
            lemma_no_fault(self.nodes@, self.provenance@, self.nodes@.len() as int);
            lemma_no_cost(self.nodes@, seen@, self.nodes@.len() as int);
        }
        let ghost before = seen@;
        let score: u64 = self.complexity_score_unique(root.0, &mut seen, 0);
        proof {
            let flags = Seq::new(
                self.nodes@.len(),
                |i: int| reaches(self.nodes@, root.0 as int, i),
            );
            assert forall|i: int| 0 <= i < flags.len() implies #[trigger] flags[i] == seen@[i] by {
                assert(!before[i]);
                if flags[i] {
                    let walk = choose|walk: Seq<int>|
                        #[trigger] is_walk(self.nodes@, walk) && walk[0] == root.0 && walk.last()
                            == i;
                    assert forall|a: int, b: int|
                        #![trigger edge(self.nodes@, a, b)]
                        0 <= a < seen@.len() && seen@[a] && edge(
                            self.nodes@,
                            a,
                            b,
                        ) implies seen@[b] by {
                        assert(!before[a]);
                    }
                    lemma_closed_holds(self.nodes@, seen@, walk);
                }
            }
            assert(flags =~= seen@);
        }
        Ok(score)
    }
}

proof fn lemma_edge_exists(nodes: Seq<CadNode>, a: int, b: int)
    requires
        edge(nodes, a, b),
        all_exist(nodes[a].parts(), nodes.len()),
    ensures
        b < nodes.len(),
{
    let k = choose|k: int|
        0 <= k < nodes[a].parts().len() && nodes[a].parts()[k] == NodeId(b as usize);
    assert(nodes[a].parts()[k].0 < nodes.len());
}

proof fn lemma_no_cost(nodes: Seq<CadNode>, flags: Seq<bool>, n: int)
    requires
        n <= flags.len(),
        forall|j: int| 0 <= j < flags.len() ==> !#[trigger] flags[j],
    ensures
        flagged_cost(nodes, flags, n) == 0,
    decreases n,
{
    if n > 0 {
        lemma_no_cost(nodes, flags, n - 1);
    }
}

} // verus!
