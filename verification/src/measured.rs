//! Passes of a cleaning run that rest on measured geometry.

use std::collections::HashMap;
use vstd::prelude::*;

use crate::ast::{sections_view, DataSection, EntityView, Exchange, SectionView};
use crate::clean::{pass_order, passes, same_frame, with_data, CleanRun, Pass};
use crate::curve_replicas::{
    curves_shared, instance_translated_bspline_curves, CurveEvidence, CurveReplicaStats,
};
use crate::geometric_intern::{intern_geometric_supports, supports_interned, GeometricInternStats};
use crate::instances::{instance_z90_solids, instances_made, InstanceEvidence, InstanceStats};
use crate::line_recovery::{lines_recovered, recover_straight_bspline_lines, LineEvidence, LineRecoveryStats};
use crate::partition_recovery::{joins_bodies, recover_partitioned_bodies, PartitionRecoveryStats};
use crate::planar_features::{
    features_made, instance_planar_positive_features, PlanarEvidence, PlanarFeatureStats,
};
use crate::partition_plan::{WeldEvidence, WeldView};
use crate::stats::{added, no_counts, PassCounters};

verus! {

broadcast use vstd::std_specs::hash::group_hash_axioms;

/// A run with other sections and counts, one pass further.
fn one_further(run: CleanRun, data: Vec<DataSection>, counters: PassCounters) -> (out: CleanRun)
    requires
        run.wf(),
        run.done < pass_order(run.options).len(),
    ensures
        out.wf(),
        out.done == run.done + 1,
        out.counters == counters,
        out.exchange@.data == sections_view(data@),
        same_frame(out, run),
{
    let order = passes(&run.options);
    assert(run.done < order.len());
    let done: usize = run.done + 1;
    let out = CleanRun {
        exchange: Exchange {
            header: run.exchange.header,
            anchor: run.exchange.anchor,
            reference: run.exchange.reference,
            data,
            signature: run.exchange.signature,
        },
        options: run.options,
        encoding: run.encoding,
        input_bytes: run.input_bytes,
        input_entities: run.input_entities,
        interned_entities: run.interned_entities,
        consolidated_entities: run.consolidated_entities,
        placeholder_names_minified: run.placeholder_names_minified,
        interned_by_type: run.interned_by_type,
        consolidated_by_type: run.consolidated_by_type,
        counters,
        done,
    };
    assert(out.exchange@ =~= with_data(run.exchange@, out.exchange@.data));
    out
}

/// What the pass that turns straight curves into lines makes of the entities of a section.
pub open spec fn lines_changed(
    before: Seq<EntityView>,
    evidence: LineEvidence,
    after: Seq<EntityView>,
    stats: LineRecoveryStats,
) -> bool {
    lines_recovered(before, evidence, after, stats)
}

/// What the pass that turns straight curves into lines counts in a section.
pub open spec fn lines_counts(stats: LineRecoveryStats) -> PassCounters {
    PassCounters {
        straight_bspline_lines_recovered: stats.curves_recovered,
        straight_bspline_direction_groups: stats.direction_groups,
        straight_bspline_points_removed: stats.orphan_points_removed,
        ..no_counts()
    }
}

/// What the pass that turns straight curves into lines counts in the first `n` sections, and what was counted
/// before.
pub open spec fn lines_total(start: PassCounters, stats: Seq<LineRecoveryStats>, n: nat) -> PassCounters
    decreases n,
{
    if n == 0 {
        start
    } else {
        added(lines_total(start, stats, (n - 1) as nat), lines_counts(stats[n - 1]))
    }
}

/// Whether a run is another after the pass that turns straight curves into lines.
pub open spec fn lines_pass(
    before: CleanRun,
    evidence: Seq<LineEvidence>,
    after: CleanRun,
    stats: Seq<LineRecoveryStats>,
) -> bool {
    let old_data = before.exchange@.data;
    let new_data = after.exchange@.data;
    &&& after.done == before.done + 1
    &&& same_frame(after, before)
    &&& new_data.len() == old_data.len()
    &&& stats.len() == old_data.len()
    &&& forall|i: int|
        0 <= i < old_data.len() ==> (#[trigger] new_data[i]).meta == old_data[i].meta && lines_changed(
            old_data[i].entities,
            evidence[i],
            new_data[i].entities,
            stats[i],
        )
    &&& after.counters == lines_total(before.counters, stats, stats.len())
}

/// Makes the pass that turns straight curves into lines, on what was measured of each section.
#[verifier::spinoff_prover]
#[verifier::rlimit(60)]
pub fn make_lines_pass(run: CleanRun, evidence: &Vec<LineEvidence>) -> (out: CleanRun)
    requires
        run.wf(),
        run.done < pass_order(run.options).len(),
        pass_order(run.options)[run.done as int] == Pass::StraightLines,
        evidence@.len() == run.exchange.data@.len(),
    ensures
        out.wf(),
        exists|stats: Seq<LineRecoveryStats>| #[trigger] lines_pass(run, evidence@, out, stats),
{
    let ghost original = run;
    let CleanRun {
        exchange,
        options,
        encoding,
        input_bytes,
        input_entities,
        interned_entities,
        consolidated_entities,
        placeholder_names_minified,
        interned_by_type,
        consolidated_by_type,
        counters,
        done,
    } = run;
    let ghost first = counters;
    let ghost before = exchange@.data;
    let mut data = exchange.data;
    let mut total = counters;
    let ghost mut stats: Seq<LineRecoveryStats> = Seq::empty();
    let ghost mut after: Seq<SectionView> = Seq::empty();
    let mut i: usize = 0;
    assert(sections_view(data@) =~= after + before.skip(0));
    while i < data.len()
        invariant
            i <= data.len(),
            data@.len() == before.len(),
            evidence@.len() == before.len(),
            after.len() == i,
            stats.len() == i,
            sections_view(data@) == after + before.skip(i as int),
            forall|k: int|
                0 <= k < i ==> (#[trigger] after[k]).meta == before[k].meta && lines_changed(
                    before[k].entities,
                    evidence@[k],
                    after[k].entities,
                    stats[k],
                ),
            total == lines_total(first, stats, i as nat),
        decreases data.len() - i,
    {
        let ghost views = sections_view(data@);
        let ghost raw = data@;
        let ghost old_stats = stats;
        let ghost old_after = after;
        let mut section = data.remove(i);
        assert(section@ == views[i as int]);
        assert(section@ == before[i as int]);
        let made = recover_straight_bspline_lines(&mut section.entities, &evidence[i]);
        let counts = PassCounters {
            straight_bspline_lines_recovered: made.curves_recovered,
            straight_bspline_direction_groups: made.direction_groups,
            straight_bspline_points_removed: made.orphan_points_removed,
            ..PassCounters::new()
        };
        total = total.plus(&counts);
        let ghost view = section@;
        let ghost whole = section;
        data.insert(i, section);
        proof {
            assert(data@ =~= raw.update(i as int, whole));
            assert(sections_view(data@) =~= views.update(i as int, view));
            stats = stats.push(made);
            after = after.push(view);
            lemma_lines_total(first, stats, old_stats, i as nat);
            assert(sections_view(data@) =~= after + before.skip(i + 1));
            assert forall|k: int| 0 <= k < i + 1 implies (#[trigger] after[k]).meta
                == before[k].meta && lines_changed(
                before[k].entities,
                evidence@[k],
                after[k].entities,
                stats[k],
            ) by {
                if k < i {
                    assert(after[k] == old_after[k]);
                    assert(stats[k] == old_stats[k]);
                }
            }
        }
        i = i + 1;
    }
    assert(after + before.skip(before.len() as int) =~= after);
    let same = CleanRun {
        exchange: Exchange {
            header: exchange.header,
            anchor: exchange.anchor,
            reference: exchange.reference,
            data: Vec::new(),
            signature: exchange.signature,
        },
        options,
        encoding,
        input_bytes,
        input_entities,
        interned_entities,
        consolidated_entities,
        placeholder_names_minified,
        interned_by_type,
        consolidated_by_type,
        counters: total,
        done,
    };
    let out = one_further(same, data, total);
    assert(out.exchange@ =~= with_data(original.exchange@, out.exchange@.data));
    assert(lines_pass(original, evidence@, out, stats));
    out
}

proof fn lemma_lines_total(
    start: PassCounters,
    longer: Seq<LineRecoveryStats>,
    stats: Seq<LineRecoveryStats>,
    n: nat,
)
    requires
        n <= stats.len() <= longer.len(),
        forall|i: int| 0 <= i < stats.len() ==> longer[i] == stats[i],
    ensures
        lines_total(start, longer, n) == lines_total(start, stats, n),
    decreases n,
{
    if n > 0 {
        lemma_lines_total(start, longer, stats, (n - 1) as nat);
    }
}

/// What the pass that turns surfaces and lines in one place into one makes of the entities of a section.
pub open spec fn supports_changed(
    before: Seq<EntityView>,
    evidence: HashMap<u64, u64>,
    after: Seq<EntityView>,
    stats: GeometricInternStats,
) -> bool {
    supports_interned(before, evidence@, after, stats)
}

/// What the pass that turns surfaces and lines in one place into one counts in a section.
pub open spec fn supports_counts(stats: GeometricInternStats) -> PassCounters {
    PassCounters {
        geometric_supports_merged: stats.supports_merged,
        geometric_support_entities_removed: stats.entities_removed,
        geometric_planes_merged: stats.planes_merged,
        geometric_lines_merged: stats.lines_merged,
        geometric_cylinders_merged: stats.cylinders_merged,
        ..no_counts()
    }
}

/// What the pass that turns surfaces and lines in one place into one counts in the first `n` sections, and what was counted
/// before.
pub open spec fn supports_total(start: PassCounters, stats: Seq<GeometricInternStats>, n: nat) -> PassCounters
    decreases n,
{
    if n == 0 {
        start
    } else {
        added(supports_total(start, stats, (n - 1) as nat), supports_counts(stats[n - 1]))
    }
}

/// Whether a run is another after the pass that turns surfaces and lines in one place into one.
pub open spec fn supports_pass(
    before: CleanRun,
    evidence: Seq<HashMap<u64, u64>>,
    after: CleanRun,
    stats: Seq<GeometricInternStats>,
) -> bool {
    let old_data = before.exchange@.data;
    let new_data = after.exchange@.data;
    &&& after.done == before.done + 1
    &&& same_frame(after, before)
    &&& new_data.len() == old_data.len()
    &&& stats.len() == old_data.len()
    &&& forall|i: int|
        0 <= i < old_data.len() ==> (#[trigger] new_data[i]).meta == old_data[i].meta && supports_changed(
            old_data[i].entities,
            evidence[i],
            new_data[i].entities,
            stats[i],
        )
    &&& after.counters == supports_total(before.counters, stats, stats.len())
}

/// Makes the pass that turns surfaces and lines in one place into one, on what was measured of each section.
#[verifier::spinoff_prover]
#[verifier::rlimit(60)]
pub fn make_supports_pass(run: CleanRun, evidence: &Vec<HashMap<u64, u64>>) -> (out: CleanRun)
    requires
        run.wf(),
        run.done < pass_order(run.options).len(),
        pass_order(run.options)[run.done as int] == Pass::GeometricSupports,
        evidence@.len() == run.exchange.data@.len(),
    ensures
        out.wf(),
        exists|stats: Seq<GeometricInternStats>| #[trigger] supports_pass(run, evidence@, out, stats),
{
    let ghost original = run;
    let CleanRun {
        exchange,
        options,
        encoding,
        input_bytes,
        input_entities,
        interned_entities,
        consolidated_entities,
        placeholder_names_minified,
        interned_by_type,
        consolidated_by_type,
        counters,
        done,
    } = run;
    let ghost first = counters;
    let ghost before = exchange@.data;
    let mut data = exchange.data;
    let mut total = counters;
    let ghost mut stats: Seq<GeometricInternStats> = Seq::empty();
    let ghost mut after: Seq<SectionView> = Seq::empty();
    let mut i: usize = 0;
    assert(sections_view(data@) =~= after + before.skip(0));
    while i < data.len()
        invariant
            i <= data.len(),
            data@.len() == before.len(),
            evidence@.len() == before.len(),
            after.len() == i,
            stats.len() == i,
            sections_view(data@) == after + before.skip(i as int),
            forall|k: int|
                0 <= k < i ==> (#[trigger] after[k]).meta == before[k].meta && supports_changed(
                    before[k].entities,
                    evidence@[k],
                    after[k].entities,
                    stats[k],
                ),
            total == supports_total(first, stats, i as nat),
        decreases data.len() - i,
    {
        let ghost views = sections_view(data@);
        let ghost raw = data@;
        let ghost old_stats = stats;
        let ghost old_after = after;
        let mut section = data.remove(i);
        assert(section@ == views[i as int]);
        assert(section@ == before[i as int]);
        let made = intern_geometric_supports(&mut section.entities, &evidence[i]);
        let counts = PassCounters {
            geometric_supports_merged: made.supports_merged,
            geometric_support_entities_removed: made.entities_removed,
            geometric_planes_merged: made.planes_merged,
            geometric_lines_merged: made.lines_merged,
            geometric_cylinders_merged: made.cylinders_merged,
            ..PassCounters::new()
        };
        total = total.plus(&counts);
        let ghost view = section@;
        let ghost whole = section;
        data.insert(i, section);
        proof {
            assert(data@ =~= raw.update(i as int, whole));
            assert(sections_view(data@) =~= views.update(i as int, view));
            stats = stats.push(made);
            after = after.push(view);
            lemma_supports_total(first, stats, old_stats, i as nat);
            assert(sections_view(data@) =~= after + before.skip(i + 1));
            assert forall|k: int| 0 <= k < i + 1 implies (#[trigger] after[k]).meta
                == before[k].meta && supports_changed(
                before[k].entities,
                evidence@[k],
                after[k].entities,
                stats[k],
            ) by {
                if k < i {
                    assert(after[k] == old_after[k]);
                    assert(stats[k] == old_stats[k]);
                }
            }
        }
        i = i + 1;
    }
    assert(after + before.skip(before.len() as int) =~= after);
    let same = CleanRun {
        exchange: Exchange {
            header: exchange.header,
            anchor: exchange.anchor,
            reference: exchange.reference,
            data: Vec::new(),
            signature: exchange.signature,
        },
        options,
        encoding,
        input_bytes,
        input_entities,
        interned_entities,
        consolidated_entities,
        placeholder_names_minified,
        interned_by_type,
        consolidated_by_type,
        counters: total,
        done,
    };
    let out = one_further(same, data, total);
    assert(out.exchange@ =~= with_data(original.exchange@, out.exchange@.data));
    assert(supports_pass(original, evidence@, out, stats));
    out
}

proof fn lemma_supports_total(
    start: PassCounters,
    longer: Seq<GeometricInternStats>,
    stats: Seq<GeometricInternStats>,
    n: nat,
)
    requires
        n <= stats.len() <= longer.len(),
        forall|i: int| 0 <= i < stats.len() ==> longer[i] == stats[i],
    ensures
        supports_total(start, longer, n) == supports_total(start, stats, n),
    decreases n,
{
    if n > 0 {
        lemma_supports_total(start, longer, stats, (n - 1) as nat);
    }
}

/// What the pass that turns touching solids into one makes of the entities of a section.
pub open spec fn bodies_changed(
    before: Seq<EntityView>,
    evidence: WeldEvidence,
    after: Seq<EntityView>,
    stats: PartitionRecoveryStats,
) -> bool {
    exists|plans: Seq<WeldView>, candidates: Seq<u64>| #[trigger]
        joins_bodies(before, evidence, plans, candidates, after, stats)
}

/// What the pass that turns touching solids into one counts in a section.
pub open spec fn bodies_counts(stats: PartitionRecoveryStats) -> PassCounters {
    PassCounters {
        partition_components_recovered: stats.components,
        partition_solids_merged: stats.solids_merged,
        partition_interfaces_removed: stats.interfaces_removed,
        partition_styles_retargeted: stats.styles_retargeted,
        partition_entities_removed: stats.entities_removed,
        ..no_counts()
    }
}

/// What the pass that turns touching solids into one counts in the first `n` sections, and what was counted
/// before.
pub open spec fn bodies_total(start: PassCounters, stats: Seq<PartitionRecoveryStats>, n: nat) -> PassCounters
    decreases n,
{
    if n == 0 {
        start
    } else {
        added(bodies_total(start, stats, (n - 1) as nat), bodies_counts(stats[n - 1]))
    }
}

/// Whether a run is another after the pass that turns touching solids into one.
pub open spec fn bodies_pass(
    before: CleanRun,
    evidence: Seq<WeldEvidence>,
    after: CleanRun,
    stats: Seq<PartitionRecoveryStats>,
) -> bool {
    let old_data = before.exchange@.data;
    let new_data = after.exchange@.data;
    &&& after.done == before.done + 1
    &&& same_frame(after, before)
    &&& new_data.len() == old_data.len()
    &&& stats.len() == old_data.len()
    &&& forall|i: int|
        0 <= i < old_data.len() ==> (#[trigger] new_data[i]).meta == old_data[i].meta && bodies_changed(
            old_data[i].entities,
            evidence[i],
            new_data[i].entities,
            stats[i],
        )
    &&& after.counters == bodies_total(before.counters, stats, stats.len())
}

/// Makes the pass that turns touching solids into one, on what was measured of each section.
#[verifier::spinoff_prover]
#[verifier::rlimit(60)]
pub fn make_bodies_pass(run: CleanRun, evidence: &Vec<WeldEvidence>) -> (out: CleanRun)
    requires
        run.wf(),
        run.done < pass_order(run.options).len(),
        pass_order(run.options)[run.done as int] == Pass::PartitionedBodies,
        evidence@.len() == run.exchange.data@.len(),
    ensures
        out.wf(),
        exists|stats: Seq<PartitionRecoveryStats>| #[trigger] bodies_pass(run, evidence@, out, stats),
{
    let ghost original = run;
    let CleanRun {
        exchange,
        options,
        encoding,
        input_bytes,
        input_entities,
        interned_entities,
        consolidated_entities,
        placeholder_names_minified,
        interned_by_type,
        consolidated_by_type,
        counters,
        done,
    } = run;
    let ghost first = counters;
    let ghost before = exchange@.data;
    let mut data = exchange.data;
    let mut total = counters;
    let ghost mut stats: Seq<PartitionRecoveryStats> = Seq::empty();
    let ghost mut after: Seq<SectionView> = Seq::empty();
    let mut i: usize = 0;
    assert(sections_view(data@) =~= after + before.skip(0));
    while i < data.len()
        invariant
            i <= data.len(),
            data@.len() == before.len(),
            evidence@.len() == before.len(),
            after.len() == i,
            stats.len() == i,
            sections_view(data@) == after + before.skip(i as int),
            forall|k: int|
                0 <= k < i ==> (#[trigger] after[k]).meta == before[k].meta && bodies_changed(
                    before[k].entities,
                    evidence@[k],
                    after[k].entities,
                    stats[k],
                ),
            total == bodies_total(first, stats, i as nat),
        decreases data.len() - i,
    {
        let ghost views = sections_view(data@);
        let ghost raw = data@;
        let ghost old_stats = stats;
        let ghost old_after = after;
        let mut section = data.remove(i);
        assert(section@ == views[i as int]);
        assert(section@ == before[i as int]);
        let made = recover_partitioned_bodies(&mut section.entities, &evidence[i]);
        let counts = PassCounters {
            partition_components_recovered: made.components,
            partition_solids_merged: made.solids_merged,
            partition_interfaces_removed: made.interfaces_removed,
            partition_styles_retargeted: made.styles_retargeted,
            partition_entities_removed: made.entities_removed,
            ..PassCounters::new()
        };
        total = total.plus(&counts);
        let ghost view = section@;
        let ghost whole = section;
        data.insert(i, section);
        proof {
            assert(data@ =~= raw.update(i as int, whole));
            assert(sections_view(data@) =~= views.update(i as int, view));
            stats = stats.push(made);
            after = after.push(view);
            lemma_bodies_total(first, stats, old_stats, i as nat);
            assert(sections_view(data@) =~= after + before.skip(i + 1));
            assert forall|k: int| 0 <= k < i + 1 implies (#[trigger] after[k]).meta
                == before[k].meta && bodies_changed(
                before[k].entities,
                evidence@[k],
                after[k].entities,
                stats[k],
            ) by {
                if k < i {
                    assert(after[k] == old_after[k]);
                    assert(stats[k] == old_stats[k]);
                }
            }
        }
        i = i + 1;
    }
    assert(after + before.skip(before.len() as int) =~= after);
    let same = CleanRun {
        exchange: Exchange {
            header: exchange.header,
            anchor: exchange.anchor,
            reference: exchange.reference,
            data: Vec::new(),
            signature: exchange.signature,
        },
        options,
        encoding,
        input_bytes,
        input_entities,
        interned_entities,
        consolidated_entities,
        placeholder_names_minified,
        interned_by_type,
        consolidated_by_type,
        counters: total,
        done,
    };
    let out = one_further(same, data, total);
    assert(out.exchange@ =~= with_data(original.exchange@, out.exchange@.data));
    assert(bodies_pass(original, evidence@, out, stats));
    out
}

proof fn lemma_bodies_total(
    start: PassCounters,
    longer: Seq<PartitionRecoveryStats>,
    stats: Seq<PartitionRecoveryStats>,
    n: nat,
)
    requires
        n <= stats.len() <= longer.len(),
        forall|i: int| 0 <= i < stats.len() ==> longer[i] == stats[i],
    ensures
        bodies_total(start, longer, n) == bodies_total(start, stats, n),
    decreases n,
{
    if n > 0 {
        lemma_bodies_total(start, longer, stats, (n - 1) as nat);
    }
}

/// What the pass that turns like solids into instances of one makes of the entities of a section.
pub open spec fn solids_changed(
    before: Seq<EntityView>,
    evidence: InstanceEvidence,
    after: Seq<EntityView>,
    stats: InstanceStats,
) -> bool {
    instances_made(before, evidence, after, stats)
}

/// What the pass that turns like solids into instances of one counts in a section.
pub open spec fn solids_counts(stats: InstanceStats) -> PassCounters {
    PassCounters {
        instance_groups: stats.groups,
        instanced_solids: stats.solids_replaced,
        instance_entities_removed: stats.entities_removed,
        instance_styles_replaced: stats.styles_replaced,
        ..no_counts()
    }
}

/// What the pass that turns like solids into instances of one counts in the first `n` sections, and what was counted
/// before.
pub open spec fn solids_total(start: PassCounters, stats: Seq<InstanceStats>, n: nat) -> PassCounters
    decreases n,
{
    if n == 0 {
        start
    } else {
        added(solids_total(start, stats, (n - 1) as nat), solids_counts(stats[n - 1]))
    }
}

/// Whether a run is another after the pass that turns like solids into instances of one.
pub open spec fn solids_pass(
    before: CleanRun,
    evidence: Seq<InstanceEvidence>,
    after: CleanRun,
    stats: Seq<InstanceStats>,
) -> bool {
    let old_data = before.exchange@.data;
    let new_data = after.exchange@.data;
    &&& after.done == before.done + 1
    &&& same_frame(after, before)
    &&& new_data.len() == old_data.len()
    &&& stats.len() == old_data.len()
    &&& forall|i: int|
        0 <= i < old_data.len() ==> (#[trigger] new_data[i]).meta == old_data[i].meta && solids_changed(
            old_data[i].entities,
            evidence[i],
            new_data[i].entities,
            stats[i],
        )
    &&& after.counters == solids_total(before.counters, stats, stats.len())
}

/// Makes the pass that turns like solids into instances of one, on what was measured of each section.
#[verifier::spinoff_prover]
#[verifier::rlimit(60)]
pub fn make_solids_pass(run: CleanRun, evidence: &Vec<InstanceEvidence>) -> (out: CleanRun)
    requires
        run.wf(),
        run.done < pass_order(run.options).len(),
        pass_order(run.options)[run.done as int] == Pass::Z90,
        evidence@.len() == run.exchange.data@.len(),
    ensures
        out.wf(),
        exists|stats: Seq<InstanceStats>| #[trigger] solids_pass(run, evidence@, out, stats),
{
    let ghost original = run;
    let CleanRun {
        exchange,
        options,
        encoding,
        input_bytes,
        input_entities,
        interned_entities,
        consolidated_entities,
        placeholder_names_minified,
        interned_by_type,
        consolidated_by_type,
        counters,
        done,
    } = run;
    let ghost first = counters;
    let ghost before = exchange@.data;
    let mut data = exchange.data;
    let mut total = counters;
    let ghost mut stats: Seq<InstanceStats> = Seq::empty();
    let ghost mut after: Seq<SectionView> = Seq::empty();
    let mut i: usize = 0;
    assert(sections_view(data@) =~= after + before.skip(0));
    while i < data.len()
        invariant
            i <= data.len(),
            data@.len() == before.len(),
            evidence@.len() == before.len(),
            after.len() == i,
            stats.len() == i,
            sections_view(data@) == after + before.skip(i as int),
            forall|k: int|
                0 <= k < i ==> (#[trigger] after[k]).meta == before[k].meta && solids_changed(
                    before[k].entities,
                    evidence@[k],
                    after[k].entities,
                    stats[k],
                ),
            total == solids_total(first, stats, i as nat),
        decreases data.len() - i,
    {
        let ghost views = sections_view(data@);
        let ghost raw = data@;
        let ghost old_stats = stats;
        let ghost old_after = after;
        let mut section = data.remove(i);
        assert(section@ == views[i as int]);
        assert(section@ == before[i as int]);
        let made = instance_z90_solids(&mut section.entities, &evidence[i]);
        let counts = PassCounters {
            instance_groups: made.groups,
            instanced_solids: made.solids_replaced,
            instance_entities_removed: made.entities_removed,
            instance_styles_replaced: made.styles_replaced,
            ..PassCounters::new()
        };
        total = total.plus(&counts);
        let ghost view = section@;
        let ghost whole = section;
        data.insert(i, section);
        proof {
            assert(data@ =~= raw.update(i as int, whole));
            assert(sections_view(data@) =~= views.update(i as int, view));
            stats = stats.push(made);
            after = after.push(view);
            lemma_solids_total(first, stats, old_stats, i as nat);
            assert(sections_view(data@) =~= after + before.skip(i + 1));
            assert forall|k: int| 0 <= k < i + 1 implies (#[trigger] after[k]).meta
                == before[k].meta && solids_changed(
                before[k].entities,
                evidence@[k],
                after[k].entities,
                stats[k],
            ) by {
                if k < i {
                    assert(after[k] == old_after[k]);
                    assert(stats[k] == old_stats[k]);
                }
            }
        }
        i = i + 1;
    }
    assert(after + before.skip(before.len() as int) =~= after);
    let same = CleanRun {
        exchange: Exchange {
            header: exchange.header,
            anchor: exchange.anchor,
            reference: exchange.reference,
            data: Vec::new(),
            signature: exchange.signature,
        },
        options,
        encoding,
        input_bytes,
        input_entities,
        interned_entities,
        consolidated_entities,
        placeholder_names_minified,
        interned_by_type,
        consolidated_by_type,
        counters: total,
        done,
    };
    let out = one_further(same, data, total);
    assert(out.exchange@ =~= with_data(original.exchange@, out.exchange@.data));
    assert(solids_pass(original, evidence@, out, stats));
    out
}

proof fn lemma_solids_total(
    start: PassCounters,
    longer: Seq<InstanceStats>,
    stats: Seq<InstanceStats>,
    n: nat,
)
    requires
        n <= stats.len() <= longer.len(),
        forall|i: int| 0 <= i < stats.len() ==> longer[i] == stats[i],
    ensures
        solids_total(start, longer, n) == solids_total(start, stats, n),
    decreases n,
{
    if n > 0 {
        lemma_solids_total(start, longer, stats, (n - 1) as nat);
    }
}

/// What the pass that turns like features on planes into instances of one makes of the entities of a section.
pub open spec fn features_changed(
    before: Seq<EntityView>,
    evidence: PlanarEvidence,
    after: Seq<EntityView>,
    stats: PlanarFeatureStats,
) -> bool {
    exists|candidates: Seq<u64>| #[trigger]
        features_made(before, evidence, candidates, after, stats)
}

/// What the pass that turns like features on planes into instances of one counts in a section.
pub open spec fn features_counts(stats: PlanarFeatureStats) -> PassCounters {
    PassCounters {
        planar_feature_arrays: stats.arrays,
        planar_feature_families: stats.families,
        planar_feature_instances: stats.instances,
        planar_feature_entities_removed: stats.entities_removed,
        planar_feature_styles_replaced: stats.styles_replaced,
        ..no_counts()
    }
}

/// What the pass that turns like features on planes into instances of one counts in the first `n` sections, and what was counted
/// before.
pub open spec fn features_total(start: PassCounters, stats: Seq<PlanarFeatureStats>, n: nat) -> PassCounters
    decreases n,
{
    if n == 0 {
        start
    } else {
        added(features_total(start, stats, (n - 1) as nat), features_counts(stats[n - 1]))
    }
}

/// Whether a run is another after the pass that turns like features on planes into instances of one.
pub open spec fn features_pass(
    before: CleanRun,
    evidence: Seq<PlanarEvidence>,
    after: CleanRun,
    stats: Seq<PlanarFeatureStats>,
) -> bool {
    let old_data = before.exchange@.data;
    let new_data = after.exchange@.data;
    &&& after.done == before.done + 1
    &&& same_frame(after, before)
    &&& new_data.len() == old_data.len()
    &&& stats.len() == old_data.len()
    &&& forall|i: int|
        0 <= i < old_data.len() ==> (#[trigger] new_data[i]).meta == old_data[i].meta && features_changed(
            old_data[i].entities,
            evidence[i],
            new_data[i].entities,
            stats[i],
        )
    &&& after.counters == features_total(before.counters, stats, stats.len())
}

/// Makes the pass that turns like features on planes into instances of one, on what was measured of each section.
#[verifier::spinoff_prover]
#[verifier::rlimit(60)]
pub fn make_features_pass(run: CleanRun, evidence: &Vec<PlanarEvidence>) -> (out: CleanRun)
    requires
        run.wf(),
        run.done < pass_order(run.options).len(),
        pass_order(run.options)[run.done as int] == Pass::PlanarFeatures,
        evidence@.len() == run.exchange.data@.len(),
    ensures
        out.wf(),
        exists|stats: Seq<PlanarFeatureStats>| #[trigger] features_pass(run, evidence@, out, stats),
{
    let ghost original = run;
    let CleanRun {
        exchange,
        options,
        encoding,
        input_bytes,
        input_entities,
        interned_entities,
        consolidated_entities,
        placeholder_names_minified,
        interned_by_type,
        consolidated_by_type,
        counters,
        done,
    } = run;
    let ghost first = counters;
    let ghost before = exchange@.data;
    let mut data = exchange.data;
    let mut total = counters;
    let ghost mut stats: Seq<PlanarFeatureStats> = Seq::empty();
    let ghost mut after: Seq<SectionView> = Seq::empty();
    let mut i: usize = 0;
    assert(sections_view(data@) =~= after + before.skip(0));
    while i < data.len()
        invariant
            i <= data.len(),
            data@.len() == before.len(),
            evidence@.len() == before.len(),
            after.len() == i,
            stats.len() == i,
            sections_view(data@) == after + before.skip(i as int),
            forall|k: int|
                0 <= k < i ==> (#[trigger] after[k]).meta == before[k].meta && features_changed(
                    before[k].entities,
                    evidence@[k],
                    after[k].entities,
                    stats[k],
                ),
            total == features_total(first, stats, i as nat),
        decreases data.len() - i,
    {
        let ghost views = sections_view(data@);
        let ghost raw = data@;
        let ghost old_stats = stats;
        let ghost old_after = after;
        let mut section = data.remove(i);
        assert(section@ == views[i as int]);
        assert(section@ == before[i as int]);
        let made = instance_planar_positive_features(&mut section.entities, &evidence[i]);
        let counts = PassCounters {
            planar_feature_arrays: made.arrays,
            planar_feature_families: made.families,
            planar_feature_instances: made.instances,
            planar_feature_entities_removed: made.entities_removed,
            planar_feature_styles_replaced: made.styles_replaced,
            ..PassCounters::new()
        };
        total = total.plus(&counts);
        let ghost view = section@;
        let ghost whole = section;
        data.insert(i, section);
        proof {
            assert(data@ =~= raw.update(i as int, whole));
            assert(sections_view(data@) =~= views.update(i as int, view));
            stats = stats.push(made);
            after = after.push(view);
            lemma_features_total(first, stats, old_stats, i as nat);
            assert(sections_view(data@) =~= after + before.skip(i + 1));
            assert forall|k: int| 0 <= k < i + 1 implies (#[trigger] after[k]).meta
                == before[k].meta && features_changed(
                before[k].entities,
                evidence@[k],
                after[k].entities,
                stats[k],
            ) by {
                if k < i {
                    assert(after[k] == old_after[k]);
                    assert(stats[k] == old_stats[k]);
                }
            }
        }
        i = i + 1;
    }
    assert(after + before.skip(before.len() as int) =~= after);
    let same = CleanRun {
        exchange: Exchange {
            header: exchange.header,
            anchor: exchange.anchor,
            reference: exchange.reference,
            data: Vec::new(),
            signature: exchange.signature,
        },
        options,
        encoding,
        input_bytes,
        input_entities,
        interned_entities,
        consolidated_entities,
        placeholder_names_minified,
        interned_by_type,
        consolidated_by_type,
        counters: total,
        done,
    };
    let out = one_further(same, data, total);
    assert(out.exchange@ =~= with_data(original.exchange@, out.exchange@.data));
    assert(features_pass(original, evidence@, out, stats));
    out
}

proof fn lemma_features_total(
    start: PassCounters,
    longer: Seq<PlanarFeatureStats>,
    stats: Seq<PlanarFeatureStats>,
    n: nat,
)
    requires
        n <= stats.len() <= longer.len(),
        forall|i: int| 0 <= i < stats.len() ==> longer[i] == stats[i],
    ensures
        features_total(start, longer, n) == features_total(start, stats, n),
    decreases n,
{
    if n > 0 {
        lemma_features_total(start, longer, stats, (n - 1) as nat);
    }
}

/// What the pass that turns translated curves into replicas of one makes of the entities of a section.
pub open spec fn curves_changed(
    before: Seq<EntityView>,
    evidence: CurveEvidence,
    after: Seq<EntityView>,
    stats: CurveReplicaStats,
) -> bool {
    curves_shared(before, evidence, after, stats)
}

/// What the pass that turns translated curves into replicas of one counts in a section.
pub open spec fn curves_counts(stats: CurveReplicaStats) -> PassCounters {
    PassCounters {
        curve_replica_families: stats.families,
        curve_replicas: stats.replicas,
        curve_replica_direct_aliases: stats.direct_aliases,
        curve_replica_transforms: stats.transforms,
        curve_replica_entities_removed: stats.entities_removed,
        ..no_counts()
    }
}

/// What the pass that turns translated curves into replicas of one counts in the first `n` sections, and what was counted
/// before.
pub open spec fn curves_total(start: PassCounters, stats: Seq<CurveReplicaStats>, n: nat) -> PassCounters
    decreases n,
{
    if n == 0 {
        start
    } else {
        added(curves_total(start, stats, (n - 1) as nat), curves_counts(stats[n - 1]))
    }
}

/// Whether a run is another after the pass that turns translated curves into replicas of one.
pub open spec fn curves_pass(
    before: CleanRun,
    evidence: Seq<CurveEvidence>,
    after: CleanRun,
    stats: Seq<CurveReplicaStats>,
) -> bool {
    let old_data = before.exchange@.data;
    let new_data = after.exchange@.data;
    &&& after.done == before.done + 1
    &&& same_frame(after, before)
    &&& new_data.len() == old_data.len()
    &&& stats.len() == old_data.len()
    &&& forall|i: int|
        0 <= i < old_data.len() ==> (#[trigger] new_data[i]).meta == old_data[i].meta && curves_changed(
            old_data[i].entities,
            evidence[i],
            new_data[i].entities,
            stats[i],
        )
    &&& after.counters == curves_total(before.counters, stats, stats.len())
}

/// Makes the pass that turns translated curves into replicas of one, on what was measured of each section.
#[verifier::spinoff_prover]
#[verifier::rlimit(60)]
pub fn make_curves_pass(run: CleanRun, evidence: &Vec<CurveEvidence>) -> (out: CleanRun)
    requires
        run.wf(),
        run.done < pass_order(run.options).len(),
        pass_order(run.options)[run.done as int] == Pass::TranslatedCurves,
        evidence@.len() == run.exchange.data@.len(),
    ensures
        out.wf(),
        exists|stats: Seq<CurveReplicaStats>| #[trigger] curves_pass(run, evidence@, out, stats),
{
    let ghost original = run;
    let CleanRun {
        exchange,
        options,
        encoding,
        input_bytes,
        input_entities,
        interned_entities,
        consolidated_entities,
        placeholder_names_minified,
        interned_by_type,
        consolidated_by_type,
        counters,
        done,
    } = run;
    let ghost first = counters;
    let ghost before = exchange@.data;
    let mut data = exchange.data;
    let mut total = counters;
    let ghost mut stats: Seq<CurveReplicaStats> = Seq::empty();
    let ghost mut after: Seq<SectionView> = Seq::empty();
    let mut i: usize = 0;
    assert(sections_view(data@) =~= after + before.skip(0));
    while i < data.len()
        invariant
            i <= data.len(),
            data@.len() == before.len(),
            evidence@.len() == before.len(),
            after.len() == i,
            stats.len() == i,
            sections_view(data@) == after + before.skip(i as int),
            forall|k: int|
                0 <= k < i ==> (#[trigger] after[k]).meta == before[k].meta && curves_changed(
                    before[k].entities,
                    evidence@[k],
                    after[k].entities,
                    stats[k],
                ),
            total == curves_total(first, stats, i as nat),
        decreases data.len() - i,
    {
        let ghost views = sections_view(data@);
        let ghost raw = data@;
        let ghost old_stats = stats;
        let ghost old_after = after;
        let mut section = data.remove(i);
        assert(section@ == views[i as int]);
        assert(section@ == before[i as int]);
        let made = instance_translated_bspline_curves(&mut section.entities, &evidence[i]);
        let counts = PassCounters {
            curve_replica_families: made.families,
            curve_replicas: made.replicas,
            curve_replica_direct_aliases: made.direct_aliases,
            curve_replica_transforms: made.transforms,
            curve_replica_entities_removed: made.entities_removed,
            ..PassCounters::new()
        };
        total = total.plus(&counts);
        let ghost view = section@;
        let ghost whole = section;
        data.insert(i, section);
        proof {
            assert(data@ =~= raw.update(i as int, whole));
            assert(sections_view(data@) =~= views.update(i as int, view));
            stats = stats.push(made);
            after = after.push(view);
            lemma_curves_total(first, stats, old_stats, i as nat);
            assert(sections_view(data@) =~= after + before.skip(i + 1));
            assert forall|k: int| 0 <= k < i + 1 implies (#[trigger] after[k]).meta
                == before[k].meta && curves_changed(
                before[k].entities,
                evidence@[k],
                after[k].entities,
                stats[k],
            ) by {
                if k < i {
                    assert(after[k] == old_after[k]);
                    assert(stats[k] == old_stats[k]);
                }
            }
        }
        i = i + 1;
    }
    assert(after + before.skip(before.len() as int) =~= after);
    let same = CleanRun {
        exchange: Exchange {
            header: exchange.header,
            anchor: exchange.anchor,
            reference: exchange.reference,
            data: Vec::new(),
            signature: exchange.signature,
        },
        options,
        encoding,
        input_bytes,
        input_entities,
        interned_entities,
        consolidated_entities,
        placeholder_names_minified,
        interned_by_type,
        consolidated_by_type,
        counters: total,
        done,
    };
    let out = one_further(same, data, total);
    assert(out.exchange@ =~= with_data(original.exchange@, out.exchange@.data));
    assert(curves_pass(original, evidence@, out, stats));
    out
}

proof fn lemma_curves_total(
    start: PassCounters,
    longer: Seq<CurveReplicaStats>,
    stats: Seq<CurveReplicaStats>,
    n: nat,
)
    requires
        n <= stats.len() <= longer.len(),
        forall|i: int| 0 <= i < stats.len() ==> longer[i] == stats[i],
    ensures
        curves_total(start, longer, n) == curves_total(start, stats, n),
    decreases n,
{
    if n > 0 {
        lemma_curves_total(start, longer, stats, (n - 1) as nat);
    }
}

} // verus!
