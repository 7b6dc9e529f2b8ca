//! Numbers of sites that can be changed: rows of instances that repeat together, with the
//! solids that repeat with them.

use vstd::prelude::*;

use crate::minify::capped;
use crate::patterns::InstancePattern;
use crate::periodic_bodies::PeriodicBodyPattern;

verus! {

/// A number of sites that governs some rows of instances and some solids. The pitch, the axis
/// and the residual are the bit patterns of doubles.
#[derive(Debug)]
pub struct RecoveredCountParameter {
    pub sites: usize,
    pub pitch: u64,
    pub axis: [u64; 3],
    pub parent_representation: u64,
    pub instance_patterns: Vec<usize>,
    pub periodic_bodies: Vec<usize>,
    pub instances_per_site: usize,
    pub total_instances: usize,
    pub body_grammar_proven: bool,
    pub max_residual: u64,
}

/// The model of a [`RecoveredCountParameter`].
pub struct CountView {
    pub sites: usize,
    pub pitch: u64,
    pub axis: [u64; 3],
    pub parent: u64,
    pub rows: Seq<usize>,
    pub bodies: Seq<usize>,
    pub per_site: usize,
    pub total: usize,
    pub proven: bool,
    pub residual: u64,
}

impl View for RecoveredCountParameter {
    type V = CountView;

    open spec fn view(&self) -> CountView {
        CountView {
            sites: self.sites,
            pitch: self.pitch,
            axis: self.axis,
            parent: self.parent_representation,
            rows: self.instance_patterns@,
            bodies: self.periodic_bodies@,
            per_site: self.instances_per_site,
            total: self.total_instances,
            proven: self.body_grammar_proven,
            residual: self.max_residual,
        }
    }
}

pub open spec fn counts_view(list: Seq<RecoveredCountParameter>) -> Seq<CountView> {
    Seq::new(list.len(), |i: int| list[i]@)
}

/// The bit pattern of the double nearest to one part in a million millions.
pub const AXIS_TOLERANCE: u64 = 0x3d719799812dea11;

/// The bit pattern of infinity.
pub const INFINITE: u64 = 0x7ff0000000000000;

/// The bit of the sign of a double.
pub const SIGN: u64 = 0x8000000000000000;

/// The bit patterns of the smallest and of the largest double that differ from one by no more
/// than one part in a million millions.
pub const FULL_FROM: u64 = 0x3fefffffffffdcd1;

pub const FULL_TO: u64 = 0x3ff0000000001197;

/// The bit pattern of the absolute value of a double.
pub open spec fn magnitude(bits: u64) -> u64 {
    if bits >= SIGN {
        (bits - SIGN) as u64
    } else {
        bits
    }
}

/// Whether a part of an axis counts: its absolute value is a number above the tolerance.
pub open spec fn counts_in_axis(bits: u64) -> bool {
    AXIS_TOLERANCE < magnitude(bits) <= INFINITE
}

/// The bit pattern of a double with the other sign.
pub open spec fn opposite(bits: u64) -> u64 {
    if bits >= SIGN {
        (bits - SIGN) as u64
    } else {
        (bits + SIGN) as u64
    }
}

/// An axis, turned so that the first of its parts that counts is positive.
pub open spec fn canonical(axis: [u64; 3]) -> Seq<u64> {
    let turned = if counts_in_axis(axis@[0]) {
        axis@[0] >= SIGN
    } else if counts_in_axis(axis@[1]) {
        axis@[1] >= SIGN
    } else {
        counts_in_axis(axis@[2]) && axis@[2] >= SIGN
    };
    if turned {
        seq![opposite(axis@[0]), opposite(axis@[1]), opposite(axis@[2])]
    } else {
        axis@
    }
}

fn flip(bits: u64) -> (out: u64)
    ensures
        out == opposite(bits),
{
    if bits >= SIGN {
        bits - SIGN
    } else {
        bits + SIGN
    }
}

fn counts(bits: u64) -> (out: bool)
    ensures
        out == counts_in_axis(bits),
{
    let size: u64 = if bits >= SIGN {
        bits - SIGN
    } else {
        bits
    };
    AXIS_TOLERANCE < size && size <= INFINITE
}

/// An axis, turned so that the first of its parts that counts is positive.
pub fn canonical_axis(axis: [u64; 3]) -> (out: [u64; 3])
    ensures
        out@ == canonical(axis),
{
    let turned = if counts(axis[0]) {
        axis[0] >= SIGN
    } else if counts(axis[1]) {
        axis[1] >= SIGN
    } else {
        counts(axis[2]) && axis[2] >= SIGN
    };
    if turned {
        let out = [flip(axis[0]), flip(axis[1]), flip(axis[2])];
        assert(out@ =~= canonical(axis));
        out
    } else {
        axis
    }
}

/// The axis does not depend on its sign, where one of its parts counts.
pub proof fn law_canonical_axis_is_sign_stable(a: [u64; 3], b: [u64; 3])
    requires
        forall|i: int| 0 <= i < 3 ==> #[trigger] b@[i] == opposite(a@[i]),
        counts_in_axis(a@[0]) || counts_in_axis(a@[1]) || counts_in_axis(a@[2]),
    ensures
        canonical(a) == canonical(b),
{
    assert(b@[0] == opposite(a@[0]));
    assert(b@[1] == opposite(a@[1]));
    assert(b@[2] == opposite(a@[2]));
    assert(canonical(a) =~= canonical(b));
}

/// The larger of two residuals. Residuals are not negative, so their bit patterns are ordered
/// as they are.
pub open spec fn larger(a: u64, b: u64) -> u64 {
    if a >= b {
        a
    } else {
        b
    }
}

/// The rows among the first `n` that a solid repeats with, in order.
pub open spec fn coupled_rows(coupled: Seq<usize>, n: nat) -> Seq<usize>
    decreases n,
{
    if n == 0 {
        seq![]
    } else {
        let before = coupled_rows(coupled, (n - 1) as nat);
        if coupled.contains((n - 1) as usize) {
            before.push((n - 1) as usize)
        } else {
            before
        }
    }
}

/// The number of instances in some rows.
pub open spec fn instances_in(patterns: Seq<InstancePattern>, rows: Seq<usize>) -> nat
    decreases rows.len(),
{
    if rows.len() == 0 {
        0
    } else {
        instances_in(patterns, rows.drop_last())
            + patterns[rows.last() as int].item_ids@.len()
    }
}

/// Whether a parameter that was found already governs the rows of a solid.
pub open spec fn joins(
    parameter: CountView,
    rows: Seq<usize>,
    bodies: Seq<PeriodicBodyPattern>,
    k: int,
    close: Seq<Vec<bool>>,
) -> bool {
    &&& parameter.rows == rows
    &&& parameter.sites == bodies[k].sites
    &&& close[parameter.bodies[0] as int]@[k]
}

/// The first parameter that a solid joins, or their number.
pub open spec fn joined_at(
    found: Seq<CountView>,
    rows: Seq<usize>,
    bodies: Seq<PeriodicBodyPattern>,
    k: int,
    close: Seq<Vec<bool>>,
) -> int
    decreases found.len(),
{
    if found.len() == 0 {
        0
    } else {
        let before = joined_at(found.drop_last(), rows, bodies, k, close);
        if before < found.len() - 1 {
            before
        } else if joins(found.last(), rows, bodies, k, close) {
            found.len() - 1
        } else {
            found.len() as int
        }
    }
}

/// A parameter with one more solid.
pub open spec fn with_body(parameter: CountView, k: int, residual: u64) -> CountView {
    CountView {
        bodies: parameter.bodies.push(k as usize),
        proven: true,
        residual: larger(parameter.residual, residual),
        ..parameter
    }
}

/// The quotient of a number of instances and a number of sites.
pub open spec fn share(total: usize, sites: usize) -> usize {
    if sites == 0 {
        total
    } else {
        (total / sites) as usize
    }
}

/// The parameter that a solid brings.
pub open spec fn of_body(
    patterns: Seq<InstancePattern>,
    bodies: Seq<PeriodicBodyPattern>,
    k: int,
    rows: Seq<usize>,
    parameter: CountView,
) -> bool {
    let total = capped(instances_in(patterns, rows));
    &&& parameter.sites == bodies[k].sites
    &&& parameter.pitch == bodies[k].pitch
    &&& parameter.axis@ == canonical(bodies[k].axis)
    &&& parameter.parent == patterns[rows[0] as int].parent_representation
    &&& parameter.rows == rows
    &&& parameter.bodies == seq![k as usize]
    &&& parameter.per_site == share(total, bodies[k].sites)
    &&& parameter.total == total
    &&& parameter.proven
    &&& parameter.residual == bodies[k].max_residual
}

/// Whether taking the `k`-th solid leads from one list of parameters to another.
pub open spec fn takes_body(
    patterns: Seq<InstancePattern>,
    bodies: Seq<PeriodicBodyPattern>,
    k: int,
    close: Seq<Vec<bool>>,
    before: Seq<CountView>,
    after: Seq<CountView>,
) -> bool {
    let rows = coupled_rows(bodies[k].coupled_instance_patterns@, patterns.len());
    let at = joined_at(before, rows, bodies, k, close);
    if rows.len() == 0 {
        after == before
    } else if at < before.len() {
        after == before.update(at, with_body(before[at], k, bodies[k].max_residual))
    } else {
        &&& after.len() == before.len() + 1
        &&& after.drop_last() == before
        &&& of_body(patterns, bodies, k, rows, after.last())
    }
}

/// Whether a row can be resized by itself: a full row of at least two instances.
pub open spec fn is_full_row(pattern: InstancePattern) -> bool {
    &&& pattern.dimension == 1
    &&& pattern.item_ids@.len() >= 2
    &&& pattern.grid_shape@.len() == 1
    &&& pattern.grid_shape@[0] == pattern.item_ids@.len()
    &&& pattern.basis@.len() == 1
    &&& FULL_FROM <= pattern.fill_ratio <= FULL_TO
}

/// Whether a row is governed by a parameter already.
pub open spec fn is_taken(found: Seq<CountView>, row: usize) -> bool {
    exists|j: int| 0 <= j < found.len() && (#[trigger] found[j]).rows.contains(row)
}

/// Whether a row goes with another one that has not been taken.
pub open spec fn goes_with(
    patterns: Seq<InstancePattern>,
    found: Seq<CountView>,
    alike: Seq<Vec<bool>>,
    row: int,
    other: int,
) -> bool {
    &&& !is_taken(found, other as usize)
    &&& is_full_row(patterns[other])
    &&& patterns[other].parent_representation == patterns[row].parent_representation
    &&& patterns[other].item_ids@.len() == patterns[row].item_ids@.len()
    &&& alike[row]@[other]
}

/// The rows from `row` on, and before `n`, that go with it.
pub open spec fn companions(
    patterns: Seq<InstancePattern>,
    found: Seq<CountView>,
    alike: Seq<Vec<bool>>,
    row: int,
    n: int,
) -> Seq<usize>
    decreases n - row,
{
    if n <= row {
        seq![]
    } else {
        let before = companions(patterns, found, alike, row, n - 1);
        if goes_with(patterns, found, alike, row, n - 1) {
            before.push((n - 1) as usize)
        } else {
            before
        }
    }
}

/// What was measured of the direction of a row: its pitch and its axis.
#[derive(Debug, Clone, Copy)]
pub struct RowLattice {
    pub pitch: u64,
    pub axis: [u64; 3],
}

/// The largest residual of some rows.
pub open spec fn residual_of(patterns: Seq<InstancePattern>, rows: Seq<usize>) -> u64
    decreases rows.len(),
{
    if rows.len() == 0 {
        0
    } else {
        larger(
            residual_of(patterns, rows.drop_last()),
            patterns[rows.last() as int].max_residual,
        )
    }
}

/// The parameter that some rows bring by themselves.
pub open spec fn of_rows(
    patterns: Seq<InstancePattern>,
    lattices: Seq<RowLattice>,
    row: int,
    rows: Seq<usize>,
    parameter: CountView,
) -> bool {
    let total = capped(instances_in(patterns, rows));
    &&& parameter.sites == patterns[row].item_ids@.len()
    &&& parameter.pitch == lattices[row].pitch
    &&& parameter.axis@ == canonical(lattices[row].axis)
    &&& parameter.parent == patterns[row].parent_representation
    &&& parameter.rows == rows
    &&& parameter.bodies == Seq::<usize>::empty()
    &&& parameter.per_site == share(total, parameter.sites)
    &&& parameter.total == total
    &&& !parameter.proven
    &&& parameter.residual == residual_of(patterns, rows)
}

/// Whether taking a row leads from one list of parameters to another.
pub open spec fn takes_row(
    patterns: Seq<InstancePattern>,
    lattices: Seq<RowLattice>,
    alike: Seq<Vec<bool>>,
    row: int,
    before: Seq<CountView>,
    after: Seq<CountView>,
) -> bool {
    let rows = companions(patterns, before, alike, row, patterns.len() as int);
    if is_taken(before, row as usize) || !is_full_row(patterns[row]) || rows.len() == 0 {
        after == before
    } else {
        &&& after.len() == before.len() + 1
        &&& after.drop_last() == before
        &&& of_rows(patterns, lattices, row, rows, after.last())
    }
}

/// Whether a parameter stands before another one: proven ones first, then those with more
/// instances, then those of a smaller representation.
pub open spec fn precedes(a: CountView, b: CountView) -> bool {
    if a.proven != b.proven {
        a.proven
    } else if a.total != b.total {
        a.total > b.total
    } else {
        a.parent < b.parent
    }
}

/// A list with one more parameter, before the last ones that it precedes.
pub open spec fn placed(list: Seq<CountView>, parameter: CountView) -> Seq<CountView>
    decreases list.len(),
{
    if list.len() > 0 && precedes(parameter, list.last()) {
        placed(list.drop_last(), parameter).push(list.last())
    } else {
        list.push(parameter)
    }
}

/// The parameters in order. Those of which none precedes the other keep their order.
pub open spec fn ranked(list: Seq<CountView>) -> Seq<CountView>
    decreases list.len(),
{
    if list.len() == 0 {
        seq![]
    } else {
        placed(ranked(list.drop_last()), list.last())
    }
}

/// The lists that lead from one to the next.
pub open spec fn detects(
    patterns: Seq<InstancePattern>,
    bodies: Seq<PeriodicBodyPattern>,
    lattices: Seq<RowLattice>,
    close: Seq<Vec<bool>>,
    alike: Seq<Vec<bool>>,
    steps: Seq<Seq<CountView>>,
) -> bool {
    &&& steps.len() == bodies.len() + patterns.len() + 1
    &&& steps[0] == Seq::<CountView>::empty()
    &&& forall|k: int|
        0 <= k < bodies.len() ==> takes_body(
            patterns,
            bodies,
            k,
            close,
            #[trigger] steps[k],
            steps[k + 1],
        )
    &&& forall|k: int|
        bodies.len() <= k < bodies.len() + patterns.len() ==> takes_row(
            patterns,
            lattices,
            alike,
            k - bodies.len(),
            #[trigger] steps[k],
            steps[k + 1],
        )
}

/// Whether a square table of answers has the size of a list.
pub open spec fn is_table(table: Seq<Vec<bool>>, n: nat) -> bool {
    &&& table.len() == n
    &&& forall|i: int| 0 <= i < n ==> (#[trigger] table[i])@.len() == n
}

/// Whether the parameters that were found so far name solids and rows that exist.
pub open spec fn in_range(found: Seq<CountView>, bodies: nat) -> bool {
    forall|j: int|
        0 <= j < found.len() ==> (#[trigger] found[j]).rows.len() > 0 && (found[j].bodies.len() > 0
            ==> found[j].bodies[0] < bodies)
}

fn find_rows(coupled: &Vec<usize>, n: usize) -> (out: Vec<usize>)
    ensures
        out@ == coupled_rows(coupled@, n as nat),
        forall|i: int| 0 <= i < out@.len() ==> #[trigger] out@[i] < n,
{
    let mut out: Vec<usize> = Vec::new();
    let mut i: usize = 0;
    while i < n
        invariant
            i <= n,
            out@ == coupled_rows(coupled@, i as nat),
            forall|j: int| 0 <= j < out@.len() ==> #[trigger] out@[j] < n,
        decreases n - i,
    {
        if holds_index(coupled, i) {
            out.push(i);
        }
        i = i + 1;
    }
    out
}

fn holds_index(list: &Vec<usize>, wanted: usize) -> (out: bool)
    ensures
        out == list@.contains(wanted),
{
    let mut i: usize = 0;
    while i < list.len()
        invariant
            i <= list.len(),
            forall|j: int| 0 <= j < i ==> #[trigger] list@[j] != wanted,
        decreases list.len() - i,
    {
        if list[i] == wanted {
            assert(list@[i as int] == wanted);
            return true;
        }
        i = i + 1;
    }
    false
}

fn same_rows(a: &Vec<usize>, b: &Vec<usize>) -> (out: bool)
    ensures
        out == (a@ == b@),
{
    if a.len() != b.len() {
        return false;
    }
    let mut i: usize = 0;
    while i < a.len()
        invariant
            i <= a.len(),
            a.len() == b.len(),
            forall|j: int| 0 <= j < i ==> #[trigger] a@[j] == b@[j],
        decreases a.len() - i,
    {
        if a[i] != b[i] {
            assert(a@[i as int] != b@[i as int]);
            return false;
        }
        i = i + 1;
    }
    assert(a@ =~= b@);
    true
}

fn count_instances(patterns: &Vec<InstancePattern>, rows: &Vec<usize>) -> (out: usize)
    requires
        forall|i: int| 0 <= i < rows@.len() ==> #[trigger] rows@[i] < patterns@.len(),
    ensures
        out == capped(instances_in(patterns@, rows@)),
{
    let mut out: usize = 0;
    let mut i: usize = 0;
    while i < rows.len()
        invariant
            i <= rows.len(),
            forall|j: int| 0 <= j < rows@.len() ==> #[trigger] rows@[j] < patterns@.len(),
            out == capped(instances_in(patterns@, rows@.take(i as int))),
        decreases rows.len() - i,
    {
        assert(rows@[i as int] < patterns@.len());
        out = out.saturating_add(patterns[rows[i]].item_ids.len());
        i = i + 1;
        assert(rows@.take(i as int).drop_last() =~= rows@.take(i - 1));
    }
    assert(rows@.take(i as int) =~= rows@);
    out
}

fn largest_residual(patterns: &Vec<InstancePattern>, rows: &Vec<usize>) -> (out: u64)
    requires
        forall|i: int| 0 <= i < rows@.len() ==> #[trigger] rows@[i] < patterns@.len(),
    ensures
        out == residual_of(patterns@, rows@),
{
    let mut out: u64 = 0;
    let mut i: usize = 0;
    while i < rows.len()
        invariant
            i <= rows.len(),
            forall|j: int| 0 <= j < rows@.len() ==> #[trigger] rows@[j] < patterns@.len(),
            out == residual_of(patterns@, rows@.take(i as int)),
        decreases rows.len() - i,
    {
        assert(rows@[i as int] < patterns@.len());
        let next: u64 = patterns[rows[i]].max_residual;
        if next > out {
            out = next;
        }
        i = i + 1;
        assert(rows@.take(i as int).drop_last() =~= rows@.take(i - 1));
    }
    assert(rows@.take(i as int) =~= rows@);
    out
}

fn divide(total: usize, sites: usize) -> (out: usize)
    ensures
        out == share(total, sites),
{
    if sites == 0 {
        total
    } else {
        total / sites
    }
}

fn find_joined(
    found: &Vec<RecoveredCountParameter>,
    rows: &Vec<usize>,
    bodies: &Vec<PeriodicBodyPattern>,
    k: usize,
    close: &Vec<Vec<bool>>,
) -> (out: usize)
    requires
        k < bodies@.len(),
        is_table(close@, bodies@.len()),
        in_range(counts_view(found@), bodies@.len()),
        forall|j: int| 0 <= j < found@.len() ==> (#[trigger] found@[j]).periodic_bodies@.len() > 0,
    ensures
        out == joined_at(counts_view(found@), rows@, bodies@, k as int, close@),
        out <= found@.len(),
{
    let ghost views = counts_view(found@);
    let mut i: usize = 0;
    while i < found.len()
        invariant
            i <= found.len(),
            k < bodies@.len(),
            is_table(close@, bodies@.len()),
            views == counts_view(found@),
            in_range(views, bodies@.len()),
            forall|j: int|
                0 <= j < found@.len() ==> (#[trigger] found@[j]).periodic_bodies@.len() > 0,
            joined_at(views.take(i as int), rows@, bodies@, k as int, close@) == i,
        decreases found.len() - i,
    {
        assert(views.take(i + 1).drop_last() =~= views.take(i as int));
        assert(views.take(i + 1).last() == found@[i as int]@);
        assert(views[i as int].bodies.len() > 0);
        let parameter = &found[i];
        if same_rows(&parameter.instance_patterns, rows) && parameter.sites == bodies[k].sites {
            let first: usize = parameter.periodic_bodies[0];
            assert(close@[first as int]@.len() == bodies@.len());
            if close[first][k] {
                proof {
                    lemma_joined_stays(views, i as int + 1, rows@, bodies@, k as int, close@);
                }
                return i;
            }
        }
        i = i + 1;
    }
    assert(views.take(i as int) =~= views);
    i
}

proof fn lemma_joined_stays(
    found: Seq<CountView>,
    n: int,
    rows: Seq<usize>,
    bodies: Seq<PeriodicBodyPattern>,
    k: int,
    close: Seq<Vec<bool>>,
)
    requires
        0 < n <= found.len(),
        joined_at(found.take(n), rows, bodies, k, close) < n,
    ensures
        joined_at(found, rows, bodies, k, close) == joined_at(
            found.take(n),
            rows,
            bodies,
            k,
            close,
        ),
    decreases found.len(),
{
    if n == found.len() {
        assert(found.take(n) =~= found);
    } else {
        assert(found.drop_last().take(n) =~= found.take(n));
        lemma_joined_stays(found.drop_last(), n, rows, bodies, k, close);
    }
}

fn row_is_taken(found: &Vec<RecoveredCountParameter>, row: usize) -> (out: bool)
    ensures
        out == is_taken(counts_view(found@), row),
{
    let ghost views = counts_view(found@);
    let mut i: usize = 0;
    while i < found.len()
        invariant
            i <= found.len(),
            views == counts_view(found@),
            forall|j: int| 0 <= j < i ==> !(#[trigger] views[j]).rows.contains(row),
        decreases found.len() - i,
    {
        if holds_index(&found[i].instance_patterns, row) {
            assert(views[i as int].rows.contains(row));
            return true;
        }
        assert(views[i as int].rows == found@[i as int].instance_patterns@);
        i = i + 1;
    }
    false
}

/// Whether a row can be resized by itself: a full row of at least two instances.
pub fn eligible(pattern: &InstancePattern) -> (out: bool)
    ensures
        out == is_full_row(*pattern),
{
    pattern.dimension == 1 && pattern.item_ids.len() >= 2 && pattern.grid_shape.len() == 1
        && pattern.grid_shape[0] == pattern.item_ids.len() && pattern.basis.len() == 1 && FULL_FROM
        <= pattern.fill_ratio && pattern.fill_ratio <= FULL_TO
}

fn find_companions(
    patterns: &Vec<InstancePattern>,
    found: &Vec<RecoveredCountParameter>,
    alike: &Vec<Vec<bool>>,
    row: usize,
) -> (out: Vec<usize>)
    requires
        row < patterns@.len(),
        is_table(alike@, patterns@.len()),
    ensures
        out@ == companions(
            patterns@,
            counts_view(found@),
            alike@,
            row as int,
            patterns@.len() as int,
        ),
        forall|i: int| 0 <= i < out@.len() ==> #[trigger] out@[i] < patterns@.len(),
{
    let mut out: Vec<usize> = Vec::new();
    let mut other: usize = row;
    while other < patterns.len()
        invariant
            row <= other <= patterns.len(),
            row < patterns@.len(),
            is_table(alike@, patterns@.len()),
            out@ == companions(patterns@, counts_view(found@), alike@, row as int, other as int),
            forall|i: int| 0 <= i < out@.len() ==> #[trigger] out@[i] < patterns@.len(),
        decreases patterns.len() - other,
    {
        let taken = row_is_taken(found, other);
        assert(alike@[row as int]@.len() == patterns@.len());
        if !taken && eligible(&patterns[other]) && patterns[other].parent_representation
            == patterns[row].parent_representation && patterns[other].item_ids.len()
            == patterns[row].item_ids.len() && alike[row][other] {
            out.push(other);
        }
        other = other + 1;
    }
    out
}

fn add_body(
    patterns: &Vec<InstancePattern>,
    bodies: &Vec<PeriodicBodyPattern>,
    k: usize,
    close: &Vec<Vec<bool>>,
    found: Vec<RecoveredCountParameter>,
) -> (out: Vec<RecoveredCountParameter>)
    requires
        k < bodies@.len(),
        is_table(close@, bodies@.len()),
        in_range(counts_view(found@), bodies@.len()),
        forall|j: int| 0 <= j < found@.len() ==> (#[trigger] found@[j]).periodic_bodies@.len() > 0,
    ensures
        takes_body(
            patterns@,
            bodies@,
            k as int,
            close@,
            counts_view(found@),
            counts_view(out@),
        ),
        in_range(counts_view(out@), bodies@.len()),
        forall|j: int| 0 <= j < out@.len() ==> (#[trigger] out@[j]).periodic_bodies@.len() > 0,
{
    let body = &bodies[k];
    let rows = find_rows(&body.coupled_instance_patterns, patterns.len());
    if rows.len() == 0 {
        return found;
    }
    let at: usize = find_joined(&found, &rows, bodies, k, close);
    let ghost before = counts_view(found@);
    let mut found = found;
    if at < found.len() {
        let old = found.remove(at);
        let ghost old_view = old@;
        let mut periodic_bodies = old.periodic_bodies;
        periodic_bodies.push(k);
        let residual: u64 = if old.max_residual >= body.max_residual {
            old.max_residual
        } else {
            body.max_residual
        };
        let joined = RecoveredCountParameter {
            sites: old.sites,
            pitch: old.pitch,
            axis: old.axis,
            parent_representation: old.parent_representation,
            instance_patterns: old.instance_patterns,
            periodic_bodies,
            instances_per_site: old.instances_per_site,
            total_instances: old.total_instances,
            body_grammar_proven: true,
            max_residual: residual,
        };
        assert(old_view == before[at as int]);
        assert(old_view.bodies.len() > 0);
        assert(joined@ == with_body(old_view, k as int, body.max_residual));
        found.insert(at, joined);
        let ghost after = counts_view(found@);
        assert(after =~= before.update(
            at as int,
            with_body(before[at as int], k as int, bodies@[k as int].max_residual),
        ));
        assert forall|j: int| 0 <= j < after.len() implies (#[trigger] after[j]).rows.len() > 0
            && (after[j].bodies.len() > 0 ==> after[j].bodies[0] < bodies@.len()) by {
            if j == at {
                assert(after[j].bodies[0] == before[j].bodies[0]);
            } else {
                assert(after[j] == before[j]);
            }
        }
        assert forall|j: int| 0 <= j < found@.len() implies (
        #[trigger] found@[j]).periodic_bodies@.len() > 0 by {
            if j != at {
                assert(after[j] == before[j]);
            }
        }
        return found;
    }
    let total: usize = count_instances(patterns, &rows);
    let mut own: Vec<usize> = Vec::new();
    own.push(k);
    let first: usize = rows[0];
    let parameter = RecoveredCountParameter {
        sites: body.sites,
        pitch: body.pitch,
        axis: canonical_axis(body.axis),
        parent_representation: patterns[first].parent_representation,
        instance_patterns: rows,
        periodic_bodies: own,
        instances_per_site: divide(total, body.sites),
        total_instances: total,
        body_grammar_proven: true,
        max_residual: body.max_residual,
    };
    assert(own@ =~= seq![k]);
    found.push(parameter);
    let ghost after = counts_view(found@);
    assert(after.drop_last() =~= before);
    assert forall|j: int| 0 <= j < after.len() implies (#[trigger] after[j]).rows.len() > 0 && (
    after[j].bodies.len() > 0 ==> after[j].bodies[0] < bodies@.len()) by {
        if j < before.len() {
            assert(after[j] == before[j]);
        }
    }
    found
}

fn add_row(
    patterns: &Vec<InstancePattern>,
    lattices: &Vec<RowLattice>,
    alike: &Vec<Vec<bool>>,
    row: usize,
    found: Vec<RecoveredCountParameter>,
) -> (out: Vec<RecoveredCountParameter>)
    requires
        row < patterns@.len(),
        lattices@.len() == patterns@.len(),
        is_table(alike@, patterns@.len()),
    ensures
        takes_row(
            patterns@,
            lattices@,
            alike@,
            row as int,
            counts_view(found@),
            counts_view(out@),
        ),
{
    let taken = row_is_taken(&found, row);
    if taken || !eligible(&patterns[row]) {
        return found;
    }
    let rows = find_companions(patterns, &found, alike, row);
    if rows.len() == 0 {
        return found;
    }
    let ghost before = counts_view(found@);
    let mut found = found;
    let total: usize = count_instances(patterns, &rows);
    let residual: u64 = largest_residual(patterns, &rows);
    let sites: usize = patterns[row].item_ids.len();
    let parameter = RecoveredCountParameter {
        sites,
        pitch: lattices[row].pitch,
        axis: canonical_axis(lattices[row].axis),
        parent_representation: patterns[row].parent_representation,
        instance_patterns: rows,
        periodic_bodies: Vec::new(),
        instances_per_site: divide(total, sites),
        total_instances: total,
        body_grammar_proven: false,
        max_residual: residual,
    };
    found.push(parameter);
    assert(counts_view(found@).drop_last() =~= before);
    found
}

fn stands_before(a: &RecoveredCountParameter, b: &RecoveredCountParameter) -> (out: bool)
    ensures
        out == precedes(a@, b@),
{
    if a.body_grammar_proven != b.body_grammar_proven {
        a.body_grammar_proven
    } else if a.total_instances != b.total_instances {
        a.total_instances > b.total_instances
    } else {
        a.parent_representation < b.parent_representation
    }
}

fn place(list: Vec<RecoveredCountParameter>, parameter: RecoveredCountParameter) -> (out: Vec<
    RecoveredCountParameter,
>)
    ensures
        counts_view(out@) == placed(counts_view(list@), parameter@),
{
    let ghost views = counts_view(list@);
    let ghost item = parameter@;
    let mut at: usize = list.len();
    assert(views.take(at as int) =~= views);
    assert(placed(views, item) + views.skip(at as int) =~= placed(views, item));
    while at > 0 && stands_before(&parameter, &list[at - 1])
        invariant
            at <= list@.len(),
            views == counts_view(list@),
            item == parameter@,
            placed(views, item) == placed(views.take(at as int), item) + views.skip(at as int),
        ensures
            at <= list@.len(),
            placed(views, item) == placed(views.take(at as int), item) + views.skip(at as int),
            at > 0 ==> !precedes(item, views[at - 1]),
        decreases at,
    {
        let ghost front = views.take(at as int);
        assert(front.last() == views[at - 1]);
        assert(front.drop_last() =~= views.take(at - 1));
        assert(placed(front, item) == placed(views.take(at - 1), item).push(views[at - 1]));
        assert(views.skip(at - 1) =~= seq![views[at - 1]] + views.skip(at as int));
        assert(placed(views.take(at - 1), item).push(views[at - 1]) + views.skip(at as int)
            =~= placed(views.take(at - 1), item) + views.skip(at - 1));
        at = at - 1;
    }
    let mut list = list;
    list.insert(at, parameter);
    proof {
        assert(at > 0 ==> views.take(at as int).last() == views[at - 1]);
        assert(placed(views.take(at as int), item) == views.take(at as int).push(item));
        assert(counts_view(list@) =~= views.take(at as int).push(item) + views.skip(at as int));
    }
    list
}

fn rank(list: Vec<RecoveredCountParameter>) -> (out: Vec<RecoveredCountParameter>)
    ensures
        counts_view(out@) == ranked(counts_view(list@)),
{
    let ghost views = counts_view(list@);
    let mut rest = crate::resize::reverse_list(list);
    let mut out: Vec<RecoveredCountParameter> = Vec::new();
    let ghost mut done: int = 0;
    assert(counts_view(out@) =~= ranked(views.take(0)));
    assert(rest@ =~= list@.skip(0).reverse());
    while rest.len() > 0
        invariant
            0 <= done <= list@.len(),
            views == counts_view(list@),
            rest@ == list@.skip(done).reverse(),
            counts_view(out@) == ranked(views.take(done)),
        decreases rest.len(),
    {
        let ghost before = rest@;
        let item = rest.pop().unwrap();
        assert(item == list@[done]);
        out = place(out, item);
        proof {
            assert(before.drop_last() =~= list@.skip(done + 1).reverse());
            done = done + 1;
            assert(views.take(done).drop_last() =~= views.take(done - 1));
            assert(views.take(done).last() == views[done - 1]);
        }
    }
    assert(views.take(done) =~= views);
    out
}

/// The numbers of sites that can be changed. `close` tells of each two solids whether their
/// pitches agree, `alike` of each two rows whether their directions and pitches do. The most
/// trustworthy ones stand first.
pub fn detect_count_parameters(
    patterns: &Vec<InstancePattern>,
    bodies: &Vec<PeriodicBodyPattern>,
    lattices: &Vec<RowLattice>,
    close: &Vec<Vec<bool>>,
    alike: &Vec<Vec<bool>>,
) -> (out: Vec<RecoveredCountParameter>)
    requires
        lattices@.len() == patterns@.len(),
        is_table(close@, bodies@.len()),
        is_table(alike@, patterns@.len()),
    ensures
        exists|steps: Seq<Seq<CountView>>|
            detects(patterns@, bodies@, lattices@, close@, alike@, steps) && counts_view(out@)
                == ranked(#[trigger] steps.last()),
{
    let mut found: Vec<RecoveredCountParameter> = Vec::new();
    let ghost mut steps: Seq<Seq<CountView>> = seq![counts_view(found@)];
    assert(steps[0] =~= Seq::<CountView>::empty());
    let mut k: usize = 0;
    while k < bodies.len()
        invariant
            k <= bodies.len(),
            is_table(close@, bodies@.len()),
            in_range(counts_view(found@), bodies@.len()),
            forall|j: int|
                0 <= j < found@.len() ==> (#[trigger] found@[j]).periodic_bodies@.len() > 0,
            steps.len() == k + 1,
            steps[0] == Seq::<CountView>::empty(),
            steps.last() == counts_view(found@),
            forall|i: int|
                0 <= i < k ==> takes_body(
                    patterns@,
                    bodies@,
                    i,
                    close@,
                    #[trigger] steps[i],
                    steps[i + 1],
                ),
        decreases bodies.len() - k,
    {
        let ghost before = steps;
        found = add_body(patterns, bodies, k, close, found);
        proof {
            steps = steps.push(counts_view(found@));
            assert forall|i: int| 0 <= i < k + 1 implies takes_body(
                patterns@,
                bodies@,
                i,
                close@,
                #[trigger] steps[i],
                steps[i + 1],
            ) by {
                assert(steps[i] == before[i]);
                if i < k {
                    assert(steps[i + 1] == before[i + 1]);
                }
            }
        }
        k = k + 1;
    }
    let ghost nb = bodies@.len() as int;
    let mut row: usize = 0;
    while row < patterns.len()
        invariant
            row <= patterns.len(),
            nb == bodies@.len(),
            lattices@.len() == patterns@.len(),
            is_table(alike@, patterns@.len()),
            steps.len() == nb + row + 1,
            steps[0] == Seq::<CountView>::empty(),
            steps.last() == counts_view(found@),
            forall|i: int|
                0 <= i < nb ==> takes_body(
                    patterns@,
                    bodies@,
                    i,
                    close@,
                    #[trigger] steps[i],
                    steps[i + 1],
                ),
            forall|i: int|
                nb <= i < nb + row ==> takes_row(
                    patterns@,
                    lattices@,
                    alike@,
                    i - nb,
                    #[trigger] steps[i],
                    steps[i + 1],
                ),
        decreases patterns.len() - row,
    {
        let ghost before = steps;
        found = add_row(patterns, lattices, alike, row, found);
        proof {
            steps = steps.push(counts_view(found@));
            assert forall|i: int| 0 <= i < nb implies takes_body(
                patterns@,
                bodies@,
                i,
                close@,
                #[trigger] steps[i],
                steps[i + 1],
            ) by {
                assert(steps[i] == before[i]);
                assert(steps[i + 1] == before[i + 1]);
            }
            assert forall|i: int| nb <= i < nb + row + 1 implies takes_row(
                patterns@,
                lattices@,
                alike@,
                i - nb,
                #[trigger] steps[i],
                steps[i + 1],
            ) by {
                assert(steps[i] == before[i]);
                if i < nb + row {
                    assert(steps[i + 1] == before[i + 1]);
                }
            }
        }
        row = row + 1;
    }
    assert(detects(patterns@, bodies@, lattices@, close@, alike@, steps));
    rank(found)
}

} // verus!
