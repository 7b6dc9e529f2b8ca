//! What falls with entities that are given up in any case.

use std::collections::HashSet;
use vstd::prelude::*;

use crate::ast::{entities_view, EntityInstance, EntityView};
use crate::graph::{build_index, lists_parents, parents_table, refers};
use crate::sets::set_of;

verus! {

broadcast use vstd::std_specs::hash::group_hash_axioms;

/// Whether an id falls within `n` steps: it is a seed, or a candidate and whatever refers to it
/// has fallen before.
pub open spec fn falls_by(
    entities: Seq<EntityView>,
    candidates: Seq<u64>,
    seeds: Seq<u64>,
    id: u64,
    n: nat,
) -> bool
    decreases n,
{
    seeds.contains(id) || (n > 0 && candidates.contains(id) && forall|parent: u64| #[trigger]
        refers(entities, parent, id) ==> falls_by(
            entities,
            candidates,
            seeds,
            parent,
            (n - 1) as nat,
        ))
}

/// Whether an id falls at all.
pub open spec fn falls(
    entities: Seq<EntityView>,
    candidates: Seq<u64>,
    seeds: Seq<u64>,
    id: u64,
) -> bool {
    exists|n: nat| falls_by(entities, candidates, seeds, id, n)
}

proof fn lemma_falls_later(
    entities: Seq<EntityView>,
    candidates: Seq<u64>,
    seeds: Seq<u64>,
    id: u64,
    n: nat,
    m: nat,
)
    requires
        falls_by(entities, candidates, seeds, id, n),
        n <= m,
    ensures
        falls_by(entities, candidates, seeds, id, m),
    decreases n,
{
    if !seeds.contains(id) {
        assert forall|parent: u64| #[trigger] refers(entities, parent, id) implies falls_by(
            entities,
            candidates,
            seeds,
            parent,
            (m - 1) as nat,
        ) by {
            lemma_falls_later(entities, candidates, seeds, parent, (n - 1) as nat, (m - 1) as nat);
        }
    }
}

/// The steps that suffice for all of some ids.
proof fn lemma_falls_bound(
    entities: Seq<EntityView>,
    candidates: Seq<u64>,
    seeds: Seq<u64>,
    ids: Seq<u64>,
) -> (n: nat)
    requires
        forall|i: int|
            0 <= i < ids.len() ==> falls(entities, candidates, seeds, #[trigger] ids[i]),
    ensures
        forall|i: int|
            0 <= i < ids.len() ==> falls_by(entities, candidates, seeds, #[trigger] ids[i], n),
    decreases ids.len(),
{
    if ids.len() == 0 {
        0
    } else {
        let shorter = ids.drop_last();
        assert forall|i: int| 0 <= i < shorter.len() implies falls(
            entities,
            candidates,
            seeds,
            #[trigger] shorter[i],
        ) by {
            assert(shorter[i] == ids[i]);
        }
        let a = lemma_falls_bound(entities, candidates, seeds, shorter);
        assert(falls(entities, candidates, seeds, ids[ids.len() - 1]));
        let b = choose|b: nat| falls_by(entities, candidates, seeds, ids.last(), b);
        let n = if a >= b {
            a
        } else {
            b
        };
        assert forall|i: int| 0 <= i < ids.len() implies falls_by(
            entities,
            candidates,
            seeds,
            #[trigger] ids[i],
            n,
        ) by {
            if i < shorter.len() {
                assert(shorter[i] == ids[i]);
                lemma_falls_later(entities, candidates, seeds, ids[i], a, n);
            } else {
                lemma_falls_later(entities, candidates, seeds, ids[i], b, n);
            }
        }
        n
    }
}

/// What holds the seeds and is closed under falling holds everything that falls.
proof fn lemma_falls_within(
    entities: Seq<EntityView>,
    candidates: Seq<u64>,
    seeds: Seq<u64>,
    fallen: Set<u64>,
    id: u64,
    n: nat,
)
    requires
        falls_by(entities, candidates, seeds, id, n),
        forall|x: u64| #[trigger] seeds.contains(x) ==> fallen.contains(x),
        forall|x: u64| #[trigger]
            candidates.contains(x) && !fallen.contains(x) ==> exists|parent: u64| #[trigger]
                refers(entities, parent, x) && !fallen.contains(parent),
    ensures
        fallen.contains(id),
    decreases n,
{
    if !fallen.contains(id) {
        assert(!seeds.contains(id));
        let parent = choose|parent: u64| #[trigger]
            refers(entities, parent, id) && !fallen.contains(parent);
        lemma_falls_within(entities, candidates, seeds, fallen, parent, (n - 1) as nat);
    }
}

/// What falls is a seed, or nothing that stays refers to it.
pub proof fn law_fallen_is_unreferenced(
    entities: Seq<EntityView>,
    candidates: Seq<u64>,
    seeds: Seq<u64>,
    parent: u64,
    child: u64,
)
    requires
        falls(entities, candidates, seeds, child),
        !seeds.contains(child),
        refers(entities, parent, child),
    ensures
        falls(entities, candidates, seeds, parent),
        candidates.contains(child),
{
    let n = choose|n: nat| falls_by(entities, candidates, seeds, child, n);
    assert(falls_by(entities, candidates, seeds, parent, (n - 1) as nat));
}

/// Everything that falls.
pub fn find_fallen(
    entities: &Vec<EntityInstance>,
    candidates: &Vec<u64>,
    seeds: &Vec<u64>,
) -> (out: HashSet<u64>)
    ensures
        forall|id: u64| #[trigger]
            out@.contains(id) == falls(entities_view(entities@), candidates@, seeds@, id),
        out@.finite(),
{
    let ghost views = entities_view(entities@);
    let ghost all = candidates@.to_set();
    let index = build_index(entities);
    let parents = parents_table(entities, &index);
    let mut out = set_of(seeds);
    let mut changed = true;
    proof {
        vstd::seq_lib::seq_to_set_is_finite(candidates@);
        vstd::seq_lib::seq_to_set_is_finite(seeds@);
        assert forall|id: u64| #[trigger] out@.contains(id) implies falls(
            views,
            candidates@,
            seeds@,
            id,
        ) by {
            assert(falls_by(views, candidates@, seeds@, id, 0));
        }
    }
    while changed
        invariant
            views == entities_view(entities@),
            lists_parents(parents@, views),
            all == candidates@.to_set(),
            all.finite(),
            out@.finite(),
            seeds@.to_set().subset_of(out@),
            forall|id: u64| #[trigger]
                out@.contains(id) ==> falls(views, candidates@, seeds@, id),
            !changed ==> forall|x: u64| #[trigger]
                candidates@.contains(x) && !out@.contains(x) ==> exists|parent: u64| #[trigger]
                    refers(views, parent, x) && !out@.contains(parent),
        decreases
            all.difference(out@).len(),
            if changed {
                1int
            } else {
                0int
            },
    {
        changed = false;
        let ghost start = out@;
        let mut i: usize = 0;
        while i < candidates.len()
            invariant
                i <= candidates.len(),
                views == entities_view(entities@),
                lists_parents(parents@, views),
                all == candidates@.to_set(),
                all.finite(),
                out@.finite(),
                seeds@.to_set().subset_of(out@),
                start.subset_of(out@),
                changed ==> all.difference(out@).len() < all.difference(start).len(),
                !changed ==> out@ == start,
                forall|id: u64| #[trigger]
                    out@.contains(id) ==> falls(views, candidates@, seeds@, id),
                !changed ==> forall|j: int|
                    0 <= j < i && !out@.contains(#[trigger] candidates@[j]) ==> exists|parent: u64|
                     #[trigger]
                        refers(views, parent, candidates@[j]) && !out@.contains(parent),
            decreases candidates.len() - i,
        {
            let id: u64 = candidates[i];
            assert(candidates@.contains(id));
            if !out.contains(&id) {
                let mut alone = true;
                let ghost mut holder: u64 = 0;
                if let Some(list) = parents.get(&id) {
                    let mut k: usize = 0;
                    while k < list.len()
                        invariant
                            k <= list.len(),
                            parents@.contains_key(id),
                            parents@[id] == *list,
                            lists_parents(parents@, views),
                            alone ==> forall|j: int|
                                0 <= j < k ==> out@.contains(#[trigger] list@[j]),
                            !alone ==> refers(views, holder, id) && !out@.contains(holder),
                        decreases list.len() - k,
                    {
                        if alone && !out.contains(&list[k]) {
                            alone = false;
                            proof {
                                holder = list@[k as int];
                                assert(parents@[id]@[k as int] == holder);
                            }
                        }
                        k = k + 1;
                    }
                }
                if alone {
                    proof {
                        let list = if parents@.contains_key(id) {
                            parents@[id]@
                        } else {
                            Seq::empty()
                        };
                        let n = lemma_falls_bound(views, candidates@, seeds@, list);
                        assert forall|parent: u64| #[trigger] refers(views, parent, id) implies
                            falls_by(views, candidates@, seeds@, parent, n) by {
                            let j = choose|j: int| 0 <= j < list.len() && list[j] == parent;
                            assert(list[j] == parent);
                        }
                        assert(falls_by(views, candidates@, seeds@, id, n + 1));
                        assert(all.difference(out@.insert(id)) =~= all.difference(out@).remove(id));
                        assert(all.difference(out@).contains(id));
                    }
                    out.insert(id);
                    changed = true;
                }
            }
            i = i + 1;
        }
        proof {
            if !changed {
                assert forall|x: u64| #[trigger]
                    candidates@.contains(x) && !out@.contains(x) implies exists|parent: u64|
                 #[trigger] refers(views, parent, x) && !out@.contains(parent) by {
                    let j = choose|j: int| 0 <= j < candidates@.len() && candidates@[j] == x;
                    assert(candidates@[j] == x);
                }
            }
        }
    }
    proof {
        assert forall|id: u64| #[trigger]
            out@.contains(id) == falls(views, candidates@, seeds@, id) by {
            if falls(views, candidates@, seeds@, id) {
                let n = choose|n: nat| falls_by(views, candidates@, seeds@, id, n);
                lemma_falls_within(views, candidates@, seeds@, out@, id, n);
            }
        }
    }
    out
}

} // verus!
