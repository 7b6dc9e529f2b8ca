//! What numbers of sites govern.

use vstd::prelude::*;

use crate::parameters::{
    companions, coupled_rows, detects, goes_with, is_full_row, is_taken, joined_at, placed,
    precedes, ranked, takes_body, takes_row, with_body, CountView, RowLattice,
};
use crate::patterns::InstancePattern;
use crate::periodic_bodies::PeriodicBodyPattern;

verus! {

/// Whether a list ascends.
pub open spec fn ascends(list: Seq<usize>) -> bool {
    forall|i: int, j: int| 0 <= i < j < list.len() ==> #[trigger] list[i] < #[trigger] list[j]
}

/// Whether a parameter with solids governs just the rows that each of these repeats with, has the
/// number of sites of each, and is proven.
pub open spec fn governs_coupled(
    patterns: Seq<InstancePattern>,
    bodies: Seq<PeriodicBodyPattern>,
    parameter: CountView,
) -> bool {
    &&& forall|b: int|
        0 <= b < parameter.bodies.len() ==> {
            let k = #[trigger] parameter.bodies[b];
            &&& k < bodies.len()
            &&& parameter.sites == bodies[k as int].sites
            &&& parameter.proven
            &&& forall|i: usize| #[trigger]
                parameter.rows.contains(i) == (i < patterns.len() && bodies[k as
                    int].coupled_instance_patterns@.contains(i))
        }
    &&& parameter.bodies.len() == 0 ==> !parameter.proven
}

/// Whether the rows of a parameter stand in order, are rows that there are, and are in number
/// what the parameter says.
pub open spec fn lists_rows(patterns: Seq<InstancePattern>, parameter: CountView) -> bool {
    &&& parameter.rows.len() > 0
    &&& ascends(parameter.rows)
    &&& forall|i: int|
        0 <= i < parameter.rows.len() ==> (#[trigger] parameter.rows[i]) < patterns.len()
    &&& patterns[parameter.rows[0] as int].parent_representation == parameter.parent
}

/// Whether a row of at least two instances is full: as long as its grid, and filled to one, up to
/// one part in a million millions.
pub open spec fn is_filled(pattern: InstancePattern) -> bool {
    &&& pattern.dimension == 1
    &&& pattern.item_ids@.len() >= 2
    &&& pattern.grid_shape@.len() == 1
    &&& pattern.grid_shape@[0] == pattern.item_ids@.len()
    &&& pattern.basis@.len() == 1
    &&& 0x3fef_ffff_ffff_dcd1 <= pattern.fill_ratio <= 0x3ff0_0000_0000_1197
}

/// Whether a row without solids is full, as long as there are sites, and of the representation
/// of the parameter.
pub open spec fn governs_full_rows(patterns: Seq<InstancePattern>, parameter: CountView) -> bool {
    parameter.bodies.len() == 0 ==> forall|i: int|
        0 <= i < parameter.rows.len() ==> {
            let row = patterns[(#[trigger] parameter.rows[i]) as int];
            &&& is_filled(row)
            &&& row.item_ids@.len() == parameter.sites
            &&& row.parent_representation == parameter.parent
        }
}

proof fn lemma_coupled(coupled: Seq<usize>, n: nat)
    requires
        n <= usize::MAX,
    ensures
        ascends(coupled_rows(coupled, n)),
        forall|i: usize| #[trigger]
            coupled_rows(coupled, n).contains(i) == (i < n && coupled.contains(i)),
        forall|k: int|
            0 <= k < coupled_rows(coupled, n).len() ==> (#[trigger] coupled_rows(coupled, n)[k])
                < n,
    decreases n,
{
    if n > 0 {
        lemma_coupled(coupled, (n - 1) as nat);
        let rest = coupled_rows(coupled, (n - 1) as nat);
        let all = coupled_rows(coupled, n);
        let new = (n - 1) as usize;
        assert forall|i: usize| #[trigger] all.contains(i) == (i < n && coupled.contains(i)) by {
            assert(rest.contains(i) == (i < n - 1 && coupled.contains(i)));
            if rest.contains(i) {
                let k = choose|k: int| 0 <= k < rest.len() && rest[k] == i;
                assert(all[k] == i);
            }
            if all.contains(i) {
                let k = choose|k: int| 0 <= k < all.len() && all[k] == i;
                if k < rest.len() {
                    assert(rest[k] == i);
                }
            }
            if i == new && coupled.contains(i) {
                assert(all[rest.len() as int] == i);
            }
        }
        assert forall|k: int| 0 <= k < all.len() implies (#[trigger] all[k]) < n by {
            if k < rest.len() {
                assert(all[k] == rest[k]);
            }
        }
        assert forall|i: int, j: int| 0 <= i < j < all.len() implies #[trigger] all[i]
            < #[trigger] all[j] by {
            if j < rest.len() {
                assert(rest[i] < rest[j]);
            } else {
                assert(rest[i] < n - 1);
            }
        }
    }
}

proof fn lemma_companions(
    patterns: Seq<InstancePattern>,
    found: Seq<CountView>,
    alike: Seq<Vec<bool>>,
    row: int,
    n: int,
)
    requires
        0 <= row <= n <= patterns.len() <= usize::MAX,
    ensures
        ascends(companions(patterns, found, alike, row, n)),
        forall|i: usize| #[trigger]
            companions(patterns, found, alike, row, n).contains(i) == (row <= i < n && goes_with(
                patterns,
                found,
                alike,
                row,
                i as int,
            )),
        forall|k: int|
            0 <= k < companions(patterns, found, alike, row, n).len() ==> row <= (
            #[trigger] companions(patterns, found, alike, row, n)[k]) < n,
    decreases n - row,
{
    if n > row {
        lemma_companions(patterns, found, alike, row, n - 1);
        let rest = companions(patterns, found, alike, row, n - 1);
        let all = companions(patterns, found, alike, row, n);
        let new = (n - 1) as usize;
        assert forall|i: usize| #[trigger] all.contains(i) == (row <= i < n && goes_with(
            patterns,
            found,
            alike,
            row,
            i as int,
        )) by {
            assert(rest.contains(i) == (row <= i < n - 1 && goes_with(
                patterns,
                found,
                alike,
                row,
                i as int,
            )));
            if rest.contains(i) {
                let k = choose|k: int| 0 <= k < rest.len() && rest[k] == i;
                assert(all[k] == i);
            }
            if all.contains(i) {
                let k = choose|k: int| 0 <= k < all.len() && all[k] == i;
                if k < rest.len() {
                    assert(rest[k] == i);
                }
            }
            if i == new && goes_with(patterns, found, alike, row, i as int) {
                assert(all[rest.len() as int] == i);
            }
        }
        assert forall|k: int| 0 <= k < all.len() implies row <= (#[trigger] all[k]) < n by {
            if k < rest.len() {
                assert(all[k] == rest[k]);
            }
        }
        assert forall|i: int, j: int| 0 <= i < j < all.len() implies #[trigger] all[i]
            < #[trigger] all[j] by {
            if j < rest.len() {
                assert(rest[i] < rest[j]);
            } else {
                assert(rest[i] < n - 1);
            }
        }
    }
}

/// How many instances some rows have.
pub open spec fn items_in(patterns: Seq<InstancePattern>, rows: Seq<usize>) -> nat
    decreases rows.len(),
{
    if rows.len() == 0 {
        0
    } else {
        patterns[rows.last() as int].item_ids@.len() + items_in(patterns, rows.drop_last())
    }
}

/// Whether an axis is another one, or that one reversed.
pub open spec fn same_line(a: Seq<u64>, b: Seq<u64>) -> bool {
    ||| a == b
    ||| a.len() == b.len() && forall|i: int|
        0 <= i < a.len() ==> (#[trigger] a[i] == b[i] + 0x8000_0000_0000_0000 || a[i]
            + 0x8000_0000_0000_0000 == b[i])
}

/// Whether the numbers of a parameter are those of what it governs: the instances of its rows,
/// how many of them there are at each site, the pitch and the line of its first solid, and the
/// largest residual of its solids, or of its rows where it has no solids.
pub open spec fn counts_up(
    patterns: Seq<InstancePattern>,
    bodies: Seq<PeriodicBodyPattern>,
    parameter: CountView,
) -> bool {
    let all = items_in(patterns, parameter.rows);
    &&& parameter.total == all || (parameter.total == usize::MAX && all > usize::MAX)
    &&& parameter.sites > 0 ==> parameter.per_site * parameter.sites <= parameter.total
        < (parameter.per_site + 1) * parameter.sites
    &&& parameter.bodies.len() > 0 ==> {
        let first = bodies[parameter.bodies[0] as int];
        &&& parameter.pitch == first.pitch
        &&& same_line(parameter.axis@, first.axis@)
        &&& forall|b: int|
            0 <= b < parameter.bodies.len() ==> parameter.residual
                >= bodies[#[trigger] parameter.bodies[b] as int].max_residual
        &&& exists|b: int|
            0 <= b < parameter.bodies.len() && parameter.residual
                == bodies[#[trigger] parameter.bodies[b] as int].max_residual
    }
    &&& parameter.bodies.len() == 0 ==> {
        &&& forall|i: int|
            0 <= i < parameter.rows.len() ==> parameter.residual
                >= patterns[#[trigger] parameter.rows[i] as int].max_residual
        &&& exists|i: int|
            0 <= i < parameter.rows.len() && parameter.residual
                == patterns[#[trigger] parameter.rows[i] as int].max_residual
    }
}

proof fn lemma_items_in(patterns: Seq<InstancePattern>, rows: Seq<usize>)
    ensures
        items_in(patterns, rows) == crate::parameters::instances_in(patterns, rows),
    decreases rows.len(),
{
    if rows.len() > 0 {
        lemma_items_in(patterns, rows.drop_last());
    }
}

proof fn lemma_share(total: usize, sites: usize)
    requires
        sites > 0,
    ensures
        crate::parameters::share(total, sites) * sites <= total,
        total < (crate::parameters::share(total, sites) + 1) * sites,
{
    let q = total / sites;
    assert(q * sites <= total && total < (q + 1) * sites) by (nonlinear_arith)
        requires
            sites > 0,
            q == total / sites,
    ;
}

proof fn lemma_residual(patterns: Seq<InstancePattern>, rows: Seq<usize>)
    requires
        rows.len() > 0,
    ensures
        forall|i: int|
            0 <= i < rows.len() ==> crate::parameters::residual_of(patterns, rows)
                >= patterns[#[trigger] rows[i] as int].max_residual,
        exists|i: int|
            0 <= i < rows.len() && crate::parameters::residual_of(patterns, rows)
                == patterns[#[trigger] rows[i] as int].max_residual,
    decreases rows.len(),
{
    let front = rows.drop_last();
    let all = crate::parameters::residual_of(patterns, rows);
    let last = rows.len() - 1;
    if front.len() > 0 {
        lemma_residual(patterns, front);
        let i = choose|i: int|
            0 <= i < front.len() && crate::parameters::residual_of(patterns, front)
                == patterns[#[trigger] front[i] as int].max_residual;
        assert(rows[i] == front[i]);
        assert forall|k: int| 0 <= k < rows.len() implies all
            >= patterns[#[trigger] rows[k] as int].max_residual by {
            if k < last {
                assert(front[k] == rows[k]);
            }
        }
        if all != patterns[rows[i] as int].max_residual {
            assert(all == patterns[rows[last] as int].max_residual);
        }
    } else {
        assert(crate::parameters::residual_of(patterns, front) == 0);
        assert(all == patterns[rows[last] as int].max_residual);
    }
}

/// What holds of every parameter at every step.
spec fn is_right(
    patterns: Seq<InstancePattern>,
    bodies: Seq<PeriodicBodyPattern>,
    parameter: CountView,
) -> bool {
    &&& governs_coupled(patterns, bodies, parameter)
    &&& lists_rows(patterns, parameter)
    &&& governs_full_rows(patterns, parameter)
    &&& counts_up(patterns, bodies, parameter)
}

spec fn all_right(
    patterns: Seq<InstancePattern>,
    bodies: Seq<PeriodicBodyPattern>,
    list: Seq<CountView>,
) -> bool {
    forall|j: int| 0 <= j < list.len() ==> is_right(patterns, bodies, #[trigger] list[j])
}

/// Whether a parameter holds a solid.
pub open spec fn some_holds(list: Seq<CountView>, body: usize) -> bool {
    exists|j: int| 0 <= j < list.len() && (#[trigger] list[j]).bodies.contains(body)
}

/// Whether a parameter governs a row.
pub open spec fn some_governs(list: Seq<CountView>, row: usize) -> bool {
    exists|j: int| 0 <= j < list.len() && (#[trigger] list[j]).rows.contains(row)
}

/// Whether no row of a parameter without solids is in another one.
pub open spec fn rows_apart(list: Seq<CountView>) -> bool {
    forall|i: int, j: int, row: usize|
        0 <= i < list.len() && 0 <= j < list.len() && i != j && list[i].bodies.len() == 0
            && #[trigger] list[i].rows.contains(row) ==> !#[trigger] list[j].rows.contains(row)
}

/// Whether no solid is in two parameters.
pub open spec fn bodies_apart(list: Seq<CountView>) -> bool {
    forall|i: int, j: int, body: usize|
        0 <= i < list.len() && 0 <= j < list.len() && i != j
            && #[trigger] list[i].bodies.contains(body) ==> !#[trigger] list[j].bodies.contains(
            body,
        )
}

/// Whether the pitch of each solid of a parameter was found to be that of its first one.
pub open spec fn pitches_agree(close: Seq<Vec<bool>>, parameter: CountView) -> bool {
    forall|b: int|
        0 < b < parameter.bodies.len() ==> close[parameter.bodies[0] as
            int]@[#[trigger] parameter.bodies[b] as int]
}

/// Whether two parameters with solids are to be one: they govern the same rows, have the same
/// number of sites, and their first solids have one pitch, seen from either.
pub open spec fn belong_together(close: Seq<Vec<bool>>, a: CountView, b: CountView) -> bool {
    &&& a.bodies.len() > 0
    &&& b.bodies.len() > 0
    &&& a.rows == b.rows
    &&& a.sites == b.sites
    &&& close[a.bodies[0] as int]@[b.bodies[0] as int]
    &&& close[b.bodies[0] as int]@[a.bodies[0] as int]
}

spec fn well_joined(close: Seq<Vec<bool>>, list: Seq<CountView>) -> bool {
    &&& forall|j: int| 0 <= j < list.len() ==> pitches_agree(close, #[trigger] list[j])
    &&& forall|i: int, j: int|
        0 <= i < list.len() && 0 <= j < list.len() && i != j ==> !belong_together(
            close,
            #[trigger] list[i],
            #[trigger] list[j],
        )
}

proof fn lemma_body_joins(
    patterns: Seq<InstancePattern>,
    bodies: Seq<PeriodicBodyPattern>,
    k: int,
    close: Seq<Vec<bool>>,
    before: Seq<CountView>,
    after: Seq<CountView>,
)
    requires
        bodies.len() <= usize::MAX,
        0 <= k < bodies.len(),
        takes_body(patterns, bodies, k, close, before, after),
        well_joined(close, before),
        forall|j: int| 0 <= j < before.len() ==> (#[trigger] before[j]).bodies.len() > 0,
    ensures
        well_joined(close, after),
{
    let rows = coupled_rows(bodies[k].coupled_instance_patterns@, patterns.len());
    let at = joined_at(before, rows, bodies, k, close);
    lemma_joined(before, rows, bodies, k, close);
    if rows.len() > 0 {
        let there = if at < before.len() {
            at
        } else {
            before.len() as int
        };
        let one = after[there];
        assert forall|j: int| 0 <= j < after.len() && j != there implies #[trigger] after[j]
            == before[j] by {
            if at >= before.len() {
                assert(after.drop_last()[j] == after[j]);
            }
        }
        if at < before.len() {
            let old = before[at];
            assert(one.bodies == old.bodies.push(k as usize));
            assert(pitches_agree(close, old));
            assert forall|b: int| 0 < b < one.bodies.len() implies close[one.bodies[0] as
                int]@[#[trigger] one.bodies[b] as int] by {
                if b < old.bodies.len() {
                    assert(one.bodies[b] == old.bodies[b]);
                }
            }
        }
        assert forall|i: int, j: int|
            0 <= i < after.len() && 0 <= j < after.len() && i != j implies !belong_together(
            close,
            #[trigger] after[i],
            #[trigger] after[j],
        ) by {
            if at < before.len() {
                assert(!belong_together(close, before[i], before[j]));
            } else {
                assert(one == after.last());
                if i == there {
                    assert(!crate::parameters::joins(before[j], rows, bodies, k, close));
                } else if j == there {
                    assert(!crate::parameters::joins(before[i], rows, bodies, k, close));
                } else {
                    assert(!belong_together(close, before[i], before[j]));
                }
            }
        }
    }
}

proof fn lemma_joined(
    found: Seq<CountView>,
    rows: Seq<usize>,
    bodies: Seq<PeriodicBodyPattern>,
    k: int,
    close: Seq<Vec<bool>>,
)
    ensures
        0 <= joined_at(found, rows, bodies, k, close) <= found.len(),
        joined_at(found, rows, bodies, k, close) < found.len() ==> {
            let parameter = found[joined_at(found, rows, bodies, k, close)];
            &&& parameter.rows == rows
            &&& parameter.sites == bodies[k].sites
            &&& close[parameter.bodies[0] as int]@[k]
        },
        joined_at(found, rows, bodies, k, close) == found.len() ==> forall|j: int|
            0 <= j < found.len() ==> !crate::parameters::joins(
                #[trigger] found[j],
                rows,
                bodies,
                k,
                close,
            ),
    decreases found.len(),
{
    if found.len() > 0 {
        let front = found.drop_last();
        lemma_joined(front, rows, bodies, k, close);
        assert forall|j: int|
            0 <= j < found.len() && joined_at(found, rows, bodies, k, close)
                == found.len() implies !crate::parameters::joins(
            #[trigger] found[j],
            rows,
            bodies,
            k,
            close,
        ) by {
            if j < front.len() {
                assert(front[j] == found[j]);
            }
        }
    }
}

proof fn lemma_takes_body(
    patterns: Seq<InstancePattern>,
    bodies: Seq<PeriodicBodyPattern>,
    k: int,
    close: Seq<Vec<bool>>,
    before: Seq<CountView>,
    after: Seq<CountView>,
)
    requires
        patterns.len() <= usize::MAX,
        bodies.len() <= usize::MAX,
        0 <= k < bodies.len(),
        takes_body(patterns, bodies, k, close, before, after),
        all_right(patterns, bodies, before),
        bodies_apart(before),
        forall|j: int, x: usize|
            0 <= j < before.len() && #[trigger] before[j].bodies.contains(x) ==> x < k,
        forall|j: int| 0 <= j < before.len() ==> (#[trigger] before[j]).bodies.len() > 0,
        forall|x: usize|
            x < k && (exists|i: usize|
                i < patterns.len() && bodies[x as
                    int].coupled_instance_patterns@.contains(i)) ==> #[trigger] some_holds(
                before,
                x,
            ),
    ensures
        all_right(patterns, bodies, after),
        bodies_apart(after),
        forall|j: int, x: usize|
            0 <= j < after.len() && #[trigger] after[j].bodies.contains(x) ==> x < k + 1,
        forall|j: int| 0 <= j < after.len() ==> (#[trigger] after[j]).bodies.len() > 0,
        forall|x: usize|
            x < k + 1 && (exists|i: usize|
                i < patterns.len() && bodies[x as
                    int].coupled_instance_patterns@.contains(i)) ==> #[trigger] some_holds(
                after,
                x,
            ),
{
    let rows = coupled_rows(bodies[k].coupled_instance_patterns@, patterns.len());
    lemma_coupled(bodies[k].coupled_instance_patterns@, patterns.len());
    let at = joined_at(before, rows, bodies, k, close);
    lemma_joined(before, rows, bodies, k, close);
    let new = k as usize;
    if rows.len() == 0 {
        assert forall|x: usize|
            x < k + 1 && (exists|i: usize|
                i < patterns.len() && bodies[x as
                    int].coupled_instance_patterns@.contains(i)) implies #[trigger] some_holds(
            after,
            x,
        ) by {
            if x == k {
                let i = choose|i: usize|
                    i < patterns.len() && bodies[x as int].coupled_instance_patterns@.contains(i);
                assert(rows.contains(i));
            }
        }
    } else {
        let there = if at < before.len() {
            at
        } else {
            before.len() as int
        };
        let one = after[there];
        assert(one.bodies.contains(new)) by {
            assert(one.bodies[one.bodies.len() - 1] == new);
        }
        if at < before.len() {
            let old = before[at];
            assert(is_right(patterns, bodies, old));
            assert(one == with_body(old, k, bodies[k].max_residual));
            assert forall|b: int| 0 <= b < one.bodies.len() implies ({
                let x = #[trigger] one.bodies[b];
                &&& x < bodies.len()
                &&& one.sites == bodies[x as int].sites
                &&& one.proven
                &&& forall|i: usize| #[trigger]
                    one.rows.contains(i) == (i < patterns.len() && bodies[x as
                        int].coupled_instance_patterns@.contains(i))
            }) by {
                if b < old.bodies.len() {
                    assert(one.bodies[b] == old.bodies[b]);
                }
            }
            assert(counts_up(patterns, bodies, one)) by {
                assert(one.bodies[0] == old.bodies[0]);
                assert forall|b: int| 0 <= b < one.bodies.len() implies one.residual
                    >= bodies[#[trigger] one.bodies[b] as int].max_residual by {
                    if b < old.bodies.len() {
                        assert(one.bodies[b] == old.bodies[b]);
                    }
                }
                let b = choose|b: int|
                    0 <= b < old.bodies.len() && old.residual
                        == bodies[#[trigger] old.bodies[b] as int].max_residual;
                assert(one.bodies[b] == old.bodies[b]);
                assert(one.bodies[old.bodies.len() as int] == new);
                if one.residual != old.residual {
                    assert(one.residual == bodies[one.bodies[old.bodies.len() as int] as
                        int].max_residual);
                }
            }
            assert(is_right(patterns, bodies, one));
        } else {
            assert(one == after.last());
            assert(after.drop_last() == before);
            lemma_items_in(patterns, rows);
            assert(one.bodies[0] == new);
            assert(counts_up(patterns, bodies, one)) by {
                if one.sites > 0 {
                    lemma_share(one.total, one.sites);
                }
                assert(one.residual == bodies[one.bodies[0] as int].max_residual);
                assert(same_line(one.axis@, bodies[k].axis@)) by {
                    if one.axis@ != bodies[k].axis@ {
                        assert(one.axis@.len() == bodies[k].axis@.len());
                        assert forall|i: int| 0 <= i < one.axis@.len() implies (
                        #[trigger] one.axis@[i] == bodies[k].axis@[i] + 0x8000_0000_0000_0000
                            || one.axis@[i] + 0x8000_0000_0000_0000 == bodies[k].axis@[i]) by {
                            assert(i == 0 || i == 1 || i == 2);
                        }
                    }
                }
            }
            assert(is_right(patterns, bodies, one)) by {
                assert(rows[0] < patterns.len());
                assert forall|b: int| 0 <= b < one.bodies.len() implies ({
                    let x = #[trigger] one.bodies[b];
                    &&& x < bodies.len()
                    &&& one.sites == bodies[x as int].sites
                    &&& one.proven
                    &&& forall|i: usize| #[trigger]
                        one.rows.contains(i) == (i < patterns.len() && bodies[x as
                            int].coupled_instance_patterns@.contains(i))
                }) by {
                    assert(b == 0);
                }
            }
        }
        assert forall|j: int| 0 <= j < after.len() && j != there implies #[trigger] after[j]
            == before[j] by {
            if at >= before.len() {
                assert(after.drop_last()[j] == after[j]);
            }
        }
        assert forall|j: int, x: usize|
            0 <= j < after.len() && #[trigger] after[j].bodies.contains(x) implies x < k + 1 && (j
            == there || x < k) by {
            let b = choose|b: int| 0 <= b < after[j].bodies.len() && after[j].bodies[b] == x;
            if j != there {
                assert(before[j].bodies.contains(x));
            } else if at < before.len() && b < before[at].bodies.len() {
                assert(before[at].bodies[b] == x);
                assert(before[at].bodies.contains(x));
            }
        }
        assert forall|i: int, j: int, x: usize|
            0 <= i < after.len() && 0 <= j < after.len() && i != j
                && #[trigger] after[i].bodies.contains(x) implies !#[trigger] after[j].bodies.contains(
            x,
        ) by {
            if after[j].bodies.contains(x) {
                assert(x < k);
                let a = choose|b: int| 0 <= b < after[i].bodies.len() && after[i].bodies[b] == x;
                let c = choose|b: int| 0 <= b < after[j].bodies.len() && after[j].bodies[b] == x;
                if i == there {
                    assert(at < before.len());
                    assert(before[i].bodies[a] == x);
                }
                if j == there {
                    assert(at < before.len());
                    assert(before[j].bodies[c] == x);
                }
                assert(before[i].bodies.contains(x));
                assert(before[j].bodies.contains(x));
            }
        }
        assert forall|x: usize|
            x < k + 1 && (exists|i: usize|
                i < patterns.len() && bodies[x as
                    int].coupled_instance_patterns@.contains(i)) implies #[trigger] some_holds(
            after,
            x,
        ) by {
            if x == k {
                assert(after[there].bodies.contains(x));
            } else {
                assert(some_holds(before, x));
                let j = choose|j: int|
                    0 <= j < before.len() && (#[trigger] before[j]).bodies.contains(x);
                let b = choose|b: int| 0 <= b < before[j].bodies.len() && before[j].bodies[b] == x;
                assert(after[j].bodies[b] == x);
                assert(after[j].bodies.contains(x));
            }
        }
    }
}

/// Whether a parameter without solids has the pitch and the line of a row, and governs rows that
/// were found to have these too.
pub open spec fn follows_row(
    lattices: Seq<RowLattice>,
    alike: Seq<Vec<bool>>,
    parameter: CountView,
) -> bool {
    parameter.bodies.len() == 0 ==> exists|row: int|
        {
            &&& 0 <= row < lattices.len()
            &&& parameter.pitch == (#[trigger] lattices[row]).pitch
            &&& same_line(parameter.axis@, lattices[row].axis@)
            &&& forall|i: int|
                0 <= i < parameter.rows.len() ==> alike[row]@[#[trigger] parameter.rows[i] as int]
        }
}

spec fn all_follow(
    lattices: Seq<RowLattice>,
    alike: Seq<Vec<bool>>,
    list: Seq<CountView>,
) -> bool {
    forall|j: int| 0 <= j < list.len() ==> follows_row(lattices, alike, #[trigger] list[j])
}

#[verifier::spinoff_prover]
#[verifier::rlimit(40)]
proof fn lemma_takes_row(
    patterns: Seq<InstancePattern>,
    bodies: Seq<PeriodicBodyPattern>,
    lattices: Seq<RowLattice>,
    alike: Seq<Vec<bool>>,
    row: int,
    before: Seq<CountView>,
    after: Seq<CountView>,
)
    requires
        patterns.len() <= usize::MAX,
        lattices.len() == patterns.len(),
        0 <= row < patterns.len(),
        takes_row(patterns, lattices, alike, row, before, after),
        all_right(patterns, bodies, before),
        all_follow(lattices, alike, before),
        rows_apart(before),
    ensures
        all_right(patterns, bodies, after),
        all_follow(lattices, alike, after),
        rows_apart(after),
        before.len() <= after.len(),
        forall|j: int| 0 <= j < before.len() ==> #[trigger] after[j] == before[j],
        forall|j: int|
            before.len() <= j < after.len() ==> (#[trigger] after[j]).bodies.len() == 0,
        is_filled(patterns[row]) && alike[row]@[row] ==> some_governs(after, row as usize),
{
    let rows = companions(patterns, before, alike, row, patterns.len() as int);
    lemma_companions(patterns, before, alike, row, patterns.len() as int);
    let own = row as usize;
    assert(is_full_row(patterns[row]) == is_filled(patterns[row]));
    if is_taken(before, own) || !is_filled(patterns[row]) || rows.len() == 0 {
        if is_filled(patterns[row]) && alike[row]@[row] && !is_taken(before, own) {
            assert(rows.contains(own));
        }
        if is_taken(before, own) {
            let j = choose|j: int| 0 <= j < before.len() && (#[trigger] before[j]).rows.contains(own);
            assert(after[j].rows.contains(own));
        }
    } else {
        let one = after.last();
        let n = before.len() as int;
        assert(after.drop_last() == before);
        assert forall|j: int| 0 <= j < before.len() implies #[trigger] after[j] == before[j] by {
            assert(after.drop_last()[j] == after[j]);
        }
        assert(after[n] == one);
        assert forall|i: int| 0 <= i < rows.len() implies goes_with(
            patterns,
            before,
            alike,
            row,
            (#[trigger] rows[i]) as int,
        ) by {
            assert(rows.contains(rows[i]));
        }
        lemma_items_in(patterns, rows);
        lemma_residual(patterns, rows);
        assert(counts_up(patterns, bodies, one)) by {
            if one.sites > 0 {
                lemma_share(one.total, one.sites);
            }
        }
        assert(is_right(patterns, bodies, one)) by {
            assert(goes_with(patterns, before, alike, row, rows[0] as int));
            assert forall|i: int| 0 <= i < one.rows.len() implies ({
                let found = patterns[(#[trigger] one.rows[i]) as int];
                &&& is_filled(found)
                &&& found.item_ids@.len() == one.sites
                &&& found.parent_representation == one.parent
            }) by {
                assert(goes_with(patterns, before, alike, row, rows[i] as int));
            }
        }
        assert(follows_row(lattices, alike, one)) by {
            assert(same_line(one.axis@, lattices[row].axis@)) by {
                if one.axis@ != lattices[row].axis@ {
                    assert forall|i: int| 0 <= i < one.axis@.len() implies (
                    #[trigger] one.axis@[i] == lattices[row].axis@[i] + 0x8000_0000_0000_0000
                        || one.axis@[i] + 0x8000_0000_0000_0000 == lattices[row].axis@[i]) by {
                        assert(i == 0 || i == 1 || i == 2);
                    }
                }
            }
            assert forall|i: int| 0 <= i < one.rows.len() implies alike[row]@[#[trigger] one.rows[i] as
                int] by {
                assert(goes_with(patterns, before, alike, row, rows[i] as int));
            }
        }
        assert forall|i: int, j: int, x: usize|
            0 <= i < after.len() && 0 <= j < after.len() && i != j && after[i].bodies.len() == 0
                && #[trigger] after[i].rows.contains(x) implies !#[trigger] after[j].rows.contains(
            x,
        ) by {
            if after[j].rows.contains(x) {
                if i == n {
                    assert(goes_with(patterns, before, alike, row, x as int));
                    assert(before[j].rows.contains(x));
                } else if j == n {
                    assert(goes_with(patterns, before, alike, row, x as int));
                    assert(before[i].rows.contains(x));
                } else {
                    assert(before[i].rows.contains(x));
                    assert(before[j].rows.contains(x));
                }
            }
        }
        if alike[row]@[row] {
            assert(rows.contains(own));
            assert(after[n].rows.contains(own));
        }
    }
}

/// Whether one parameter may stand before another one: a proven one before one that is not, then
/// one with more instances, then one of a representation with no larger number.
pub open spec fn may_lead(a: CountView, b: CountView) -> bool {
    ||| a.proven && !b.proven
    ||| a.proven == b.proven && a.total > b.total
    ||| a.proven == b.proven && a.total == b.total && a.parent <= b.parent
}

spec fn stands_ordered(list: Seq<CountView>) -> bool {
    forall|i: int, j: int|
        0 <= i < j < list.len() ==> may_lead(#[trigger] list[i], #[trigger] list[j])
}

proof fn lemma_placed_ordered(list: Seq<CountView>, parameter: CountView)
    requires
        stands_ordered(list),
    ensures
        stands_ordered(placed(list, parameter)),
        placed(list, parameter).len() == list.len() + 1,
        forall|k: int|
            0 <= k < placed(list, parameter).len() ==> (#[trigger] placed(list, parameter)[k])
                == parameter || list.contains(placed(list, parameter)[k]),
    decreases list.len(),
{
    let all = placed(list, parameter);
    if list.len() > 0 && precedes(parameter, list.last()) {
        let front = list.drop_last();
        assert forall|i: int, j: int| 0 <= i < j < front.len() implies may_lead(
            #[trigger] front[i],
            #[trigger] front[j],
        ) by {
            assert(may_lead(list[i], list[j]));
        }
        lemma_placed_ordered(front, parameter);
        let rest = placed(front, parameter);
        assert forall|k: int| 0 <= k < all.len() implies (#[trigger] all[k]) == parameter
            || list.contains(all[k]) by {
            if k < rest.len() {
                assert(all[k] == rest[k]);
                if rest[k] != parameter {
                    let x = choose|x: int| 0 <= x < front.len() && front[x] == rest[k];
                    assert(list[x] == rest[k]);
                }
            } else {
                assert(list[list.len() - 1] == all[k]);
            }
        }
        assert forall|i: int, j: int| 0 <= i < j < all.len() implies may_lead(
            #[trigger] all[i],
            #[trigger] all[j],
        ) by {
            if j < rest.len() {
                assert(may_lead(rest[i], rest[j]));
            } else {
                assert(all[i] == rest[i]);
                if rest[i] != parameter {
                    let x = choose|x: int| 0 <= x < front.len() && front[x] == rest[i];
                    assert(may_lead(list[x], list[list.len() - 1]));
                }
            }
        }
    } else {
        assert forall|k: int| 0 <= k < all.len() implies (#[trigger] all[k]) == parameter
            || list.contains(all[k]) by {
            if k < list.len() {
                assert(list[k] == all[k]);
            }
        }
        assert forall|i: int, j: int| 0 <= i < j < all.len() implies may_lead(
            #[trigger] all[i],
            #[trigger] all[j],
        ) by {
            if j < list.len() {
                assert(may_lead(list[i], list[j]));
            } else if i < list.len() - 1 {
                assert(may_lead(list[i], list[list.len() - 1]));
            }
        }
    }
}

proof fn lemma_ranked_ordered(list: Seq<CountView>)
    ensures
        stands_ordered(ranked(list)),
        ranked(list).len() == list.len(),
    decreases list.len(),
{
    if list.len() > 0 {
        lemma_ranked_ordered(list.drop_last());
        lemma_placed_ordered(ranked(list.drop_last()), list.last());
    }
}

spec fn each_two(list: Seq<CountView>, apart: spec_fn(CountView, CountView) -> bool) -> bool {
    forall|i: int, j: int|
        0 <= i < list.len() && 0 <= j < list.len() && i != j ==> apart(
            #[trigger] list[i],
            #[trigger] list[j],
        )
}

proof fn lemma_inserted_at(list: Seq<CountView>, parameter: CountView) -> (at: int)
    ensures
        0 <= at <= list.len(),
        placed(list, parameter) == list.insert(at, parameter),
    decreases list.len(),
{
    if list.len() > 0 && precedes(parameter, list.last()) {
        let at = lemma_inserted_at(list.drop_last(), parameter);
        assert(list.drop_last().insert(at, parameter).push(list.last()) =~= list.insert(
            at,
            parameter,
        ));
        at
    } else {
        assert(list.push(parameter) =~= list.insert(list.len() as int, parameter));
        list.len() as int
    }
}

/// What is ranked was listed.
proof fn lemma_ranked_from(list: Seq<CountView>, j: int) -> (k: int)
    requires
        0 <= j < ranked(list).len(),
    ensures
        0 <= k < list.len(),
        ranked(list)[j] == list[k],
    decreases list.len(),
{
    if list.len() == 0 {
        0
    } else {
        let front = list.drop_last();
        let at = lemma_inserted_at(ranked(front), list.last());
        let before = ranked(front);
        if j == at {
            list.len() - 1
        } else {
            let i = if j < at {
                j
            } else {
                j - 1
            };
            assert(ranked(list)[j] == before[i]);
            let k = lemma_ranked_from(front, i);
            assert(front[k] == list[k]);
            k
        }
    }
}

/// What is listed is ranked.
proof fn lemma_ranked_to(list: Seq<CountView>, k: int) -> (j: int)
    requires
        0 <= k < list.len(),
    ensures
        0 <= j < ranked(list).len(),
        ranked(list)[j] == list[k],
    decreases list.len(),
{
    let front = list.drop_last();
    let before = ranked(front);
    let at = lemma_inserted_at(before, list.last());
    if k == list.len() - 1 {
        at
    } else {
        assert(front[k] == list[k]);
        let i = lemma_ranked_to(front, k);
        if i < at {
            i
        } else {
            i + 1
        }
    }
}

proof fn lemma_ranked_apart(
    list: Seq<CountView>,
    apart: spec_fn(CountView, CountView) -> bool,
)
    requires
        each_two(list, apart),
    ensures
        each_two(ranked(list), apart),
    decreases list.len(),
{
    if list.len() > 0 {
        let front = list.drop_last();
        assert forall|i: int, j: int|
            0 <= i < front.len() && 0 <= j < front.len() && i != j implies apart(
            #[trigger] front[i],
            #[trigger] front[j],
        ) by {
            assert(apart(list[i], list[j]));
        }
        lemma_ranked_apart(front, apart);
        let before = ranked(front);
        let all = ranked(list);
        let at = lemma_inserted_at(before, list.last());
        assert forall|i: int, j: int|
            0 <= i < all.len() && 0 <= j < all.len() && i != j implies apart(
            #[trigger] all[i],
            #[trigger] all[j],
        ) by {
            let a = if i < at {
                i
            } else {
                i - 1
            };
            let b = if j < at {
                j
            } else {
                j - 1
            };
            if i == at {
                assert(all[j] == before[b]);
                let k = lemma_ranked_from(front, b);
                assert(front[k] == list[k]);
                assert(apart(list[list.len() - 1], list[k]));
            } else if j == at {
                assert(all[i] == before[a]);
                let k = lemma_ranked_from(front, a);
                assert(front[k] == list[k]);
                assert(apart(list[k], list[list.len() - 1]));
            } else {
                assert(all[i] == before[a] && all[j] == before[b]);
                assert(apart(before[a], before[b]));
            }
        }
    }
}

/// What holds after the first `n` solids and rows.
spec fn found_upto(
    patterns: Seq<InstancePattern>,
    bodies: Seq<PeriodicBodyPattern>,
    lattices: Seq<RowLattice>,
    alike: Seq<Vec<bool>>,
    close: Seq<Vec<bool>>,
    list: Seq<CountView>,
    n: int,
) -> bool {
    &&& all_right(patterns, bodies, list)
    &&& well_joined(close, list)
    &&& all_follow(lattices, alike, list)
    &&& rows_apart(list)
    &&& bodies_apart(list)
    &&& n <= bodies.len() ==> {
        &&& forall|j: int, x: usize|
            0 <= j < list.len() && #[trigger] list[j].bodies.contains(x) ==> x < n
        &&& forall|j: int| 0 <= j < list.len() ==> (#[trigger] list[j]).bodies.len() > 0
    }
    &&& forall|x: usize|
        x < bodies.len() && x < n && (exists|i: usize|
            i < patterns.len() && bodies[x as int].coupled_instance_patterns@.contains(i))
            ==> #[trigger] some_holds(list, x)
    &&& forall|row: usize|
        row < patterns.len() && row < n - bodies.len() && is_filled(patterns[row as int])
            && alike[row as int]@[row as int] ==> #[trigger] some_governs(list, row)
}

#[verifier::spinoff_prover]
#[verifier::rlimit(40)]
proof fn lemma_found(
    patterns: Seq<InstancePattern>,
    bodies: Seq<PeriodicBodyPattern>,
    lattices: Seq<RowLattice>,
    close: Seq<Vec<bool>>,
    alike: Seq<Vec<bool>>,
    steps: Seq<Seq<CountView>>,
    n: int,
)
    requires
        patterns.len() <= usize::MAX,
        bodies.len() <= usize::MAX,
        lattices.len() == patterns.len(),
        detects(patterns, bodies, lattices, close, alike, steps),
        0 <= n < steps.len(),
    ensures
        found_upto(patterns, bodies, lattices, alike, close, steps[n], n),
    decreases n,
{
    if n > 0 {
        let k = n - 1;
        lemma_found(patterns, bodies, lattices, close, alike, steps, k);
        let before = steps[k];
        let after = steps[k + 1];
        if k < bodies.len() {
            assert(takes_body(patterns, bodies, k, close, steps[k], steps[k + 1]));
            lemma_takes_body(patterns, bodies, k, close, before, after);
            lemma_body_joins(patterns, bodies, k, close, before, after);
            assert(all_follow(lattices, alike, after));
            assert(rows_apart(after));
        } else {
            let row = k - bodies.len();
            assert(takes_row(patterns, lattices, alike, row, steps[k], steps[k + 1]));
            lemma_takes_row(patterns, bodies, lattices, alike, row, before, after);
            assert(well_joined(close, after)) by {
                assert forall|i: int, j: int|
                    0 <= i < after.len() && 0 <= j < after.len() && i != j implies !belong_together(
                    close,
                    #[trigger] after[i],
                    #[trigger] after[j],
                ) by {
                    if i < before.len() && j < before.len() {
                        assert(!belong_together(close, before[i], before[j]));
                    }
                }
            }
            assert forall|i: int, j: int, x: usize|
                0 <= i < after.len() && 0 <= j < after.len() && i != j
                    && #[trigger] after[i].bodies.contains(x) implies !#[trigger] after[j].bodies.contains(
                x,
            ) by {
                if i < before.len() && j < before.len() {
                    assert(before[i].bodies.contains(x));
                    assert(!before[j].bodies.contains(x));
                }
            }
            assert forall|x: usize|
                x < bodies.len() && x < n && (exists|i: usize|
                    i < patterns.len() && bodies[x as
                        int].coupled_instance_patterns@.contains(i)) implies #[trigger] some_holds(
                after,
                x,
            ) by {
                assert(some_holds(before, x));
                let j = choose|j: int|
                    0 <= j < before.len() && (#[trigger] before[j]).bodies.contains(x);
                assert(after[j].bodies.contains(x));
            }
            assert forall|r: usize|
                r < patterns.len() && r < n - bodies.len() && is_filled(patterns[r as int])
                    && alike[r as int]@[r as int] implies #[trigger] some_governs(after, r) by {
                if r < row {
                    assert(some_governs(before, r));
                    let j = choose|j: int|
                        0 <= j < before.len() && (#[trigger] before[j]).rows.contains(r);
                    assert(after[j].rows.contains(r));
                }
            }
        }
    }
}

/// A number of sites governs what repeats with it: where it holds a solid, just the rows of
/// instances that the solid repeats with; where it holds none, full rows of one length, pitch,
/// line and representation. Its numbers are those of what it governs.
pub proof fn law_counts_govern_what_repeats(
    patterns: Seq<InstancePattern>,
    bodies: Seq<PeriodicBodyPattern>,
    lattices: Seq<RowLattice>,
    close: Seq<Vec<bool>>,
    alike: Seq<Vec<bool>>,
    steps: Seq<Seq<CountView>>,
    out: Seq<CountView>,
    j: int,
)
    requires
        patterns.len() <= usize::MAX,
        bodies.len() <= usize::MAX,
        lattices.len() == patterns.len(),
        detects(patterns, bodies, lattices, close, alike, steps),
        out == ranked(steps.last()),
        0 <= j < out.len(),
    ensures
        governs_coupled(patterns, bodies, out[j]),
        lists_rows(patterns, out[j]),
        governs_full_rows(patterns, out[j]),
        counts_up(patterns, bodies, out[j]),
        follows_row(lattices, alike, out[j]),
        pitches_agree(close, out[j]),
{
    let n = steps.len() - 1;
    lemma_found(patterns, bodies, lattices, close, alike, steps, n);
    let k = lemma_ranked_from(steps.last(), j);
    assert(is_right(patterns, bodies, steps[n][k]));
    assert(follows_row(lattices, alike, steps[n][k]));
}

/// Each solid that repeats with a row is in one number of sites, and in one alone, with all other
/// solids of the same rows, number of sites and pitch; each full row
/// that was found to be like itself is in one, and in one alone where that one has no solids.
/// Proven numbers of sites stand first, then those with more instances, then those of a
/// representation with a smaller number.
pub proof fn law_counts_leave_nothing_out(
    patterns: Seq<InstancePattern>,
    bodies: Seq<PeriodicBodyPattern>,
    lattices: Seq<RowLattice>,
    close: Seq<Vec<bool>>,
    alike: Seq<Vec<bool>>,
    steps: Seq<Seq<CountView>>,
    out: Seq<CountView>,
)
    requires
        patterns.len() <= usize::MAX,
        bodies.len() <= usize::MAX,
        lattices.len() == patterns.len(),
        detects(patterns, bodies, lattices, close, alike, steps),
        out == ranked(steps.last()),
    ensures
        forall|k: usize|
            k < bodies.len() && (exists|i: usize|
                i < patterns.len() && bodies[k as int].coupled_instance_patterns@.contains(i))
                ==> #[trigger] some_holds(out, k),
        bodies_apart(out),
        forall|row: usize|
            row < patterns.len() && is_filled(patterns[row as int]) && alike[row as
                int]@[row as int] ==> #[trigger] some_governs(out, row),
        rows_apart(out),
        forall|i: int, j: int|
            0 <= i < out.len() && 0 <= j < out.len() && i != j ==> !belong_together(
                close,
                #[trigger] out[i],
                #[trigger] out[j],
            ),
        forall|i: int, j: int|
            0 <= i < j < out.len() ==> may_lead(#[trigger] out[i], #[trigger] out[j]),
{
    let n = steps.len() - 1;
    let list = steps.last();
    lemma_found(patterns, bodies, lattices, close, alike, steps, n);
    lemma_ranked_ordered(list);
    assert forall|k: usize|
        k < bodies.len() && (exists|i: usize|
            i < patterns.len() && bodies[k as
                int].coupled_instance_patterns@.contains(i)) implies #[trigger] some_holds(
        out,
        k,
    ) by {
        assert(some_holds(list, k));
        let x = choose|x: int| 0 <= x < list.len() && (#[trigger] list[x]).bodies.contains(k);
        let j = lemma_ranked_to(list, x);
        assert(out[j].bodies.contains(k));
    }
    assert forall|row: usize|
        row < patterns.len() && is_filled(patterns[row as int]) && alike[row as int]@[row as
            int] implies #[trigger] some_governs(out, row) by {
        assert(some_governs(list, row));
        let x = choose|x: int| 0 <= x < list.len() && (#[trigger] list[x]).rows.contains(row);
        let j = lemma_ranked_to(list, x);
        assert(out[j].rows.contains(row));
    }
    let solids = |a: CountView, b: CountView|
        forall|x: usize| #[trigger] a.bodies.contains(x) ==> !b.bodies.contains(x);
    let rows = |a: CountView, b: CountView|
        a.bodies.len() == 0 ==> forall|x: usize| #[trigger]
            a.rows.contains(x) ==> !b.rows.contains(x);
    assert forall|i: int, j: int|
        0 <= i < list.len() && 0 <= j < list.len() && i != j implies solids(
        #[trigger] list[i],
        #[trigger] list[j],
    ) && rows(list[i], list[j]) by {
        assert forall|x: usize| #[trigger] list[i].bodies.contains(x) implies !list[j].bodies.contains(
            x,
        ) by {}
    }
    let together = |a: CountView, b: CountView| !belong_together(close, a, b);
    assert(each_two(list, together));
    lemma_ranked_apart(list, together);
    assert forall|i: int, j: int|
        0 <= i < out.len() && 0 <= j < out.len() && i != j implies !belong_together(
        close,
        #[trigger] out[i],
        #[trigger] out[j],
    ) by {
        assert(together(out[i], out[j]));
    }
    lemma_ranked_apart(list, solids);
    lemma_ranked_apart(list, rows);
    assert forall|i: int, j: int, x: usize|
        0 <= i < out.len() && 0 <= j < out.len() && i != j && #[trigger] out[i].bodies.contains(
            x,
        ) implies !#[trigger] out[j].bodies.contains(x) by {
        assert(solids(out[i], out[j]));
    }
    assert forall|i: int, j: int, x: usize|
        0 <= i < out.len() && 0 <= j < out.len() && i != j && out[i].bodies.len() == 0
            && #[trigger] out[i].rows.contains(x) implies !#[trigger] out[j].rows.contains(x) by {
        assert(rows(out[i], out[j]));
    }
}

} // verus!
