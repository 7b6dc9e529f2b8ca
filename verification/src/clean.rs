//! The cleaning run.
//!
//! A run reads a file, shares equal values, merges presentation roots, goes through the
//! experimental passes in their order, and writes what is left. The passes that measure
//! geometry are carried out by the caller: the run says which one is next, and takes its
//! counts back.

use vstd::prelude::*;
use vstd::utf8::encode_utf8;

use crate::ast::{
    entities_view, sections_view, DataSection, EntityView, Exchange, ExchangeView, SectionView,
};
use crate::bezier_recovery::{recover_exact_bezier_curves, recovered, recovered_count};
use crate::compatibility::{
    all_section_records, audit_exchange_compatibility, audits, CompatibilityAudit,
};
use crate::consolidate::{consolidate_presentation, consolidated, consolidated_counts};
use crate::counts::{summed, TypeCounts};
use crate::face_coalesce::{coalesce_same_support_faces, coalesces, FaceCoalesceStats};
use crate::face_plan::PlanView;
use crate::intern::{aliases, intern_section, interned, merged_counts};
use crate::minify::{all_placeholders, capped, minified, minify_placeholder_names};
use crate::options::Options;
use crate::read::{reading_facts, read_exchange, reading, Encoding, StepError};
use crate::renumber::{dense_renumber, renumbered};
use crate::stats::{added, no_counts, rewrote, PassCounters, Stats};
use crate::write::{exchange_text, has_optional_sections, write_exchange};

verus! {

/// The experimental passes.
#[derive(Clone, Copy, PartialEq, Eq, Structural, Debug)]
pub enum Pass {
    StraightLines,
    ExactBezierCurves,
    VExtrusions,
    GeometricSupports,
    PartitionedBodies,
    SameSupportFaces,
    Z90Assembly,
    Z90,
    PlanarFeatures,
    SphericalCaps,
    TranslatedCurves,
}

/// A pass where it is asked for.
pub open spec fn when(asked: bool, pass: Pass) -> Seq<Pass> {
    if asked {
        seq![pass]
    } else {
        Seq::empty()
    }
}

/// The passes that options ask for, in their order. Curves are replaced by replicas last:
/// before that repeated bodies are recognised by their actual geometry.
#[verifier::opaque]
pub open spec fn pass_order(options: Options) -> Seq<Pass> {
    when(options.experimental_recover_straight_bspline_lines, Pass::StraightLines) + when(
        options.experimental_recover_exact_bezier_curves,
        Pass::ExactBezierCurves,
    ) + when(options.experimental_recover_v_extrusions, Pass::VExtrusions) + when(
        options.experimental_intern_geometric_supports,
        Pass::GeometricSupports,
    ) + when(options.experimental_recover_partitioned_bodies, Pass::PartitionedBodies) + when(
        options.experimental_coalesce_same_support_faces,
        Pass::SameSupportFaces,
    ) + when(options.experimental_instance_z90_assembly, Pass::Z90Assembly) + when(
        options.experimental_instance_z90 && !options.experimental_instance_z90_assembly,
        Pass::Z90,
    ) + when(options.experimental_instance_planar_positive_features, Pass::PlanarFeatures) + when(
        options.experimental_instance_spherical_caps,
        Pass::SphericalCaps,
    ) + when(options.experimental_instance_translated_bspline_curves, Pass::TranslatedCurves)
}

/// Whether a pass is left to the caller: neither the run nor a function of `measured` makes it.
pub open spec fn is_left_to_caller(pass: Pass) -> bool {
    pass == Pass::VExtrusions || pass == Pass::Z90Assembly || pass == Pass::SphericalCaps
}

/// Whether a pass needs no measuring.
pub open spec fn is_own(pass: Pass) -> bool {
    pass == Pass::ExactBezierCurves || pass == Pass::SameSupportFaces
}

fn push_when(out: &mut Vec<Pass>, asked: bool, pass: Pass)
    ensures
        final(out)@ == old(out)@ + when(asked, pass),
{
    if asked {
        out.push(pass);
    }
    assert(out@ =~= old(out)@ + when(asked, pass));
}

/// The passes that options ask for, in their order.
pub fn passes(options: &Options) -> (out: Vec<Pass>)
    ensures
        out@ == pass_order(*options),
{
    reveal(pass_order);
    let mut out: Vec<Pass> = Vec::new();
    push_when(
        &mut out,
        options.experimental_recover_straight_bspline_lines,
        Pass::StraightLines,
    );
    push_when(
        &mut out,
        options.experimental_recover_exact_bezier_curves,
        Pass::ExactBezierCurves,
    );
    push_when(&mut out, options.experimental_recover_v_extrusions, Pass::VExtrusions);
    push_when(&mut out, options.experimental_intern_geometric_supports, Pass::GeometricSupports);
    push_when(&mut out, options.experimental_recover_partitioned_bodies, Pass::PartitionedBodies);
    push_when(&mut out, options.experimental_coalesce_same_support_faces, Pass::SameSupportFaces);
    push_when(&mut out, options.experimental_instance_z90_assembly, Pass::Z90Assembly);
    push_when(
        &mut out,
        options.experimental_instance_z90 && !options.experimental_instance_z90_assembly,
        Pass::Z90,
    );
    push_when(
        &mut out,
        options.experimental_instance_planar_positive_features,
        Pass::PlanarFeatures,
    );
    push_when(&mut out, options.experimental_instance_spherical_caps, Pass::SphericalCaps);
    push_when(
        &mut out,
        options.experimental_instance_translated_bspline_curves,
        Pass::TranslatedCurves,
    );
    assert(out@ =~= pass_order(*options));
    out
}

/// Sections with their entities changed.
pub open spec fn mapped(
    sections: Seq<SectionView>,
    f: spec_fn(Seq<EntityView>) -> Seq<EntityView>,
) -> Seq<SectionView> {
    Seq::new(
        sections.len(),
        |i: int| SectionView { meta: sections[i].meta, entities: f(sections[i].entities) },
    )
}

pub open spec fn minified_if(sections: Seq<SectionView>, asked: bool) -> Seq<SectionView> {
    if asked {
        mapped(sections, |e: Seq<EntityView>| minified(e))
    } else {
        sections
    }
}

pub open spec fn interned_if(sections: Seq<SectionView>, asked: bool) -> Seq<SectionView> {
    if asked {
        mapped(sections, |e: Seq<EntityView>| interned(e))
    } else {
        sections
    }
}

pub open spec fn consolidated_if(sections: Seq<SectionView>, asked: bool) -> Seq<SectionView> {
    if asked {
        mapped(sections, |e: Seq<EntityView>| consolidated(e))
    } else {
        sections
    }
}

pub open spec fn renumbered_if(sections: Seq<SectionView>, asked: bool) -> Seq<SectionView> {
    if asked {
        mapped(sections, |e: Seq<EntityView>| renumbered(e))
    } else {
        sections
    }
}

/// What the passes before the experimental ones make of the sections.
pub open spec fn opened(sections: Seq<SectionView>, options: Options) -> Seq<SectionView> {
    consolidated_if(
        interned_if(
            minified_if(sections, options.minify_placeholder_names),
            options.intern_values,
        ),
        options.consolidate_presentation,
    )
}

/// What the passes behind the experimental ones make of the sections. Values are shared again
/// where a pass has rewritten some.
pub open spec fn closed_with(
    sections: Seq<SectionView>,
    options: Options,
    counters: PassCounters,
) -> Seq<SectionView> {
    renumbered_if(
        interned_if(
            minified_if(sections, options.minify_placeholder_names),
            rewrote(counters) && options.intern_values,
        ),
        options.dense_ids,
    )
}

/// The number of entities of all sections.
pub open spec fn entity_total(sections: Seq<SectionView>) -> nat
    decreases sections.len(),
{
    if sections.len() == 0 {
        0
    } else {
        entity_total(sections.drop_last()) + sections.last().entities.len()
    }
}

/// A cleaning run between two passes.
#[derive(Debug)]
pub struct CleanRun {
    pub exchange: Exchange,
    pub options: Options,
    pub encoding: Encoding,
    pub input_bytes: usize,
    pub input_entities: usize,
    pub interned_entities: usize,
    pub consolidated_entities: usize,
    pub placeholder_names_minified: usize,
    pub interned_by_type: TypeCounts,
    pub consolidated_by_type: TypeCounts,
    pub counters: PassCounters,
    /// How many of the asked passes have been made.
    pub done: usize,
}

impl CleanRun {
    /// The counts of the run are in order, and it has made no more passes than there are.
    pub open spec fn wf(&self) -> bool {
        &&& self.interned_by_type.wf()
        &&& self.consolidated_by_type.wf()
        &&& self.done <= pass_order(self.options).len()
        &&& !has_optional_sections(self.exchange@)
    }
}

/// What a cleaning run gives.
#[derive(Debug)]
pub struct CleanedExchange {
    pub bytes: Vec<u8>,
    pub exchange: Exchange,
    pub encoding: Encoding,
    pub stats: Stats,
    pub compatibility: CompatibilityAudit,
}

/// How many placeholder names there are in all sections.
pub open spec fn placeholder_total(sections: Seq<SectionView>) -> nat
    decreases sections.len(),
{
    if sections.len() == 0 {
        0
    } else {
        placeholder_total(sections.drop_last()) + all_placeholders(sections.last().entities)
    }
}

/// How many entities sharing takes out of all sections.
pub open spec fn interned_total(sections: Seq<SectionView>) -> nat
    decreases sections.len(),
{
    if sections.len() == 0 {
        0
    } else {
        interned_total(sections.drop_last()) + (sections.last().entities.len() - interned(
            sections.last().entities,
        ).len()) as nat
    }
}

/// How many entities of each type sharing takes out of all sections.
pub open spec fn interned_types(sections: Seq<SectionView>) -> Map<Seq<char>, usize>
    decreases sections.len(),
{
    if sections.len() == 0 {
        Map::empty()
    } else {
        summed(
            interned_types(sections.drop_last()),
            merged_counts(sections.last().entities, aliases(sections.last().entities)),
        )
    }
}

/// How many roots merging takes out of all sections.
pub open spec fn consolidated_total(sections: Seq<SectionView>) -> nat
    decreases sections.len(),
{
    if sections.len() == 0 {
        0
    } else {
        consolidated_total(sections.drop_last()) + (sections.last().entities.len() - consolidated(
            sections.last().entities,
        ).len()) as nat
    }
}

/// How many roots of each type merging takes out of all sections.
pub open spec fn consolidated_types(sections: Seq<SectionView>) -> Map<Seq<char>, usize>
    decreases sections.len(),
{
    if sections.len() == 0 {
        Map::empty()
    } else {
        summed(
            consolidated_types(sections.drop_last()),
            consolidated_counts(
                sections.last().entities,
                sections.last().entities.len(),
            ),
        )
    }
}

/// How many curves become Bezier curves in all sections.
pub open spec fn bezier_total(sections: Seq<SectionView>) -> nat
    decreases sections.len(),
{
    if sections.len() == 0 {
        0
    } else {
        bezier_total(sections.drop_last()) + recovered_count(
            sections.last().entities,
            sections.last().entities.len(),
        )
    }
}

/// Empties the placeholder names of all sections.
fn minify_sections(sections: &mut Vec<DataSection>) -> (out: usize)
    ensures
        sections_view(final(sections)@) == mapped(
            sections_view(old(sections)@),
            |e: Seq<EntityView>| minified(e),
        ),
        out == capped(placeholder_total(sections_view(old(sections)@))),
{
    let ghost views = sections_view(sections@);
    let ghost f = |e: Seq<EntityView>| minified(e);
    let mut total: usize = 0;
    let mut kept: Vec<DataSection> = Vec::new();
    assert(views.take(0) =~= Seq::empty());
    while sections.len() > 0
        invariant
            views == sections_view(old(sections)@),
            f == (|e: Seq<EntityView>| minified(e)),
            kept.len() + sections.len() == views.len(),
            forall|j: int|
                0 <= j < kept.len() ==> (#[trigger] kept@[j])@ == (SectionView {
                    meta: views[j].meta,
                    entities: f(views[j].entities),
                }),
            forall|j: int|
                0 <= j < sections.len() ==> (#[trigger] sections@[j])@ == views[kept.len() + j],
            total == capped(placeholder_total(views.take(kept.len() as int))),
        decreases sections.len(),
    {
        let ghost before = sections@;
        let ghost k = kept.len() as int;
        assert(before[0]@ == views[k + 0]);
        let mut section = sections.remove(0);
        assert(section@ == views[k]);
        assert forall|j: int| 0 <= j < sections.len() implies (#[trigger] sections@[j])@ == views[k
            + 1 + j] by {
            assert(sections@[j] == before[j + 1]);
        }
        let n: usize = minify_placeholder_names(&mut section.entities);
        total = total.saturating_add(n);
        kept.push(section);
        assert(views.take(k + 1).drop_last() =~= views.take(k));
        assert(views.take(k + 1).last() == views[k]);
    }
    assert(views.take(views.len() as int) =~= views);
    *sections = kept;
    assert(sections_view(sections@) =~= mapped(views, f));
    total
}

/// Shares equal values in all sections.
fn intern_sections(sections: &mut Vec<DataSection>) -> (out: (usize, TypeCounts))
    ensures
        sections_view(final(sections)@) == mapped(
            sections_view(old(sections)@),
            |e: Seq<EntityView>| interned(e),
        ),
        out.0 == capped(interned_total(sections_view(old(sections)@))),
        out.1.wf(),
        out.1@ == interned_types(sections_view(old(sections)@)),
{
    let ghost views = sections_view(sections@);
    let ghost f = |e: Seq<EntityView>| interned(e);
    let mut total: usize = 0;
    let mut by_type = TypeCounts::new();
    let mut kept: Vec<DataSection> = Vec::new();
    assert(views.take(0) =~= Seq::empty());
    while sections.len() > 0
        invariant
            views == sections_view(old(sections)@),
            f == (|e: Seq<EntityView>| interned(e)),
            kept.len() + sections.len() == views.len(),
            forall|j: int|
                0 <= j < kept.len() ==> (#[trigger] kept@[j])@ == (SectionView {
                    meta: views[j].meta,
                    entities: f(views[j].entities),
                }),
            forall|j: int|
                0 <= j < sections.len() ==> (#[trigger] sections@[j])@ == views[kept.len() + j],
            total == capped(interned_total(views.take(kept.len() as int))),
            by_type.wf(),
            by_type@ == interned_types(views.take(kept.len() as int)),
        decreases sections.len(),
    {
        let ghost before = sections@;
        let ghost k = kept.len() as int;
        assert(before[0]@ == views[k + 0]);
        let mut section = sections.remove(0);
        assert(section@ == views[k]);
        assert forall|j: int| 0 <= j < sections.len() implies (#[trigger] sections@[j])@ == views[k
            + 1 + j] by {
            assert(sections@[j] == before[j + 1]);
        }
        let pass = intern_section(&mut section.entities);
        total = total.saturating_add(pass.total);
        by_type.count_all(&pass.by_type);
        kept.push(section);
        assert(views.take(k + 1).drop_last() =~= views.take(k));
        assert(views.take(k + 1).last() == views[k]);
    }
    assert(views.take(views.len() as int) =~= views);
    *sections = kept;
    assert(sections_view(sections@) =~= mapped(views, f));
    (total, by_type)
}

/// Merges the presentation roots of all sections.
fn consolidate_sections(sections: &mut Vec<DataSection>) -> (out: (usize, TypeCounts))
    ensures
        sections_view(final(sections)@) == mapped(
            sections_view(old(sections)@),
            |e: Seq<EntityView>| consolidated(e),
        ),
        out.0 == capped(consolidated_total(sections_view(old(sections)@))),
        out.1.wf(),
        out.1@ == consolidated_types(sections_view(old(sections)@)),
{
    let ghost views = sections_view(sections@);
    let ghost f = |e: Seq<EntityView>| consolidated(e);
    let mut total: usize = 0;
    let mut by_type = TypeCounts::new();
    let mut kept: Vec<DataSection> = Vec::new();
    assert(views.take(0) =~= Seq::empty());
    while sections.len() > 0
        invariant
            views == sections_view(old(sections)@),
            f == (|e: Seq<EntityView>| consolidated(e)),
            kept.len() + sections.len() == views.len(),
            forall|j: int|
                0 <= j < kept.len() ==> (#[trigger] kept@[j])@ == (SectionView {
                    meta: views[j].meta,
                    entities: f(views[j].entities),
                }),
            forall|j: int|
                0 <= j < sections.len() ==> (#[trigger] sections@[j])@ == views[kept.len() + j],
            total == capped(consolidated_total(views.take(kept.len() as int))),
            by_type.wf(),
            by_type@ == consolidated_types(views.take(kept.len() as int)),
        decreases sections.len(),
    {
        let ghost before = sections@;
        let ghost k = kept.len() as int;
        assert(before[0]@ == views[k + 0]);
        let mut section = sections.remove(0);
        assert(section@ == views[k]);
        assert forall|j: int| 0 <= j < sections.len() implies (#[trigger] sections@[j])@ == views[k
            + 1 + j] by {
            assert(sections@[j] == before[j + 1]);
        }
        let pass = consolidate_presentation(&mut section.entities);
        total = total.saturating_add(pass.total);
        by_type.count_all(&pass.by_type);
        kept.push(section);
        assert(views.take(k + 1).drop_last() =~= views.take(k));
        assert(views.take(k + 1).last() == views[k]);
    }
    assert(views.take(views.len() as int) =~= views);
    *sections = kept;
    assert(sections_view(sections@) =~= mapped(views, f));
    (total, by_type)
}

/// Renumbers the entities of all sections.
pub(crate) fn renumber_sections(sections: &mut Vec<DataSection>)
    ensures
        sections_view(final(sections)@) == mapped(
            sections_view(old(sections)@),
            |e: Seq<EntityView>| renumbered(e),
        ),
{
    let ghost views = sections_view(sections@);
    let ghost f = |e: Seq<EntityView>| renumbered(e);
    let mut kept: Vec<DataSection> = Vec::new();
    assert(views.take(0) =~= Seq::empty());
    while sections.len() > 0
        invariant
            views == sections_view(old(sections)@),
            f == (|e: Seq<EntityView>| renumbered(e)),
            kept.len() + sections.len() == views.len(),
            forall|j: int|
                0 <= j < kept.len() ==> (#[trigger] kept@[j])@ == (SectionView {
                    meta: views[j].meta,
                    entities: f(views[j].entities),
                }),
            forall|j: int|
                0 <= j < sections.len() ==> (#[trigger] sections@[j])@ == views[kept.len() + j],
        decreases sections.len(),
    {
        let ghost before = sections@;
        let ghost k = kept.len() as int;
        assert(before[0]@ == views[k + 0]);
        let mut section = sections.remove(0);
        assert(section@ == views[k]);
        assert forall|j: int| 0 <= j < sections.len() implies (#[trigger] sections@[j])@ == views[k
            + 1 + j] by {
            assert(sections@[j] == before[j + 1]);
        }
        dense_renumber(&mut section.entities);
        kept.push(section);
        assert(views.take(k + 1).drop_last() =~= views.take(k));
        assert(views.take(k + 1).last() == views[k]);
    }
    assert(views.take(views.len() as int) =~= views);
    *sections = kept;
    assert(sections_view(sections@) =~= mapped(views, f));
}

/// Recovers the Bezier curves of all sections.
fn bezier_sections(sections: &mut Vec<DataSection>) -> (out: usize)
    ensures
        sections_view(final(sections)@) == mapped(
            sections_view(old(sections)@),
            |e: Seq<EntityView>| recovered(e),
        ),
        out == capped(bezier_total(sections_view(old(sections)@))),
{
    let ghost views = sections_view(sections@);
    let ghost f = |e: Seq<EntityView>| recovered(e);
    let mut total: usize = 0;
    let mut kept: Vec<DataSection> = Vec::new();
    assert(views.take(0) =~= Seq::empty());
    while sections.len() > 0
        invariant
            views == sections_view(old(sections)@),
            f == (|e: Seq<EntityView>| recovered(e)),
            kept.len() + sections.len() == views.len(),
            forall|j: int|
                0 <= j < kept.len() ==> (#[trigger] kept@[j])@ == (SectionView {
                    meta: views[j].meta,
                    entities: f(views[j].entities),
                }),
            forall|j: int|
                0 <= j < sections.len() ==> (#[trigger] sections@[j])@ == views[kept.len() + j],
            total == capped(bezier_total(views.take(kept.len() as int))),
        decreases sections.len(),
    {
        let ghost before = sections@;
        let ghost k = kept.len() as int;
        assert(before[0]@ == views[k + 0]);
        let mut section = sections.remove(0);
        assert(section@ == views[k]);
        assert forall|j: int| 0 <= j < sections.len() implies (#[trigger] sections@[j])@ == views[k
            + 1 + j] by {
            assert(sections@[j] == before[j + 1]);
        }
        let pass = recover_exact_bezier_curves(&mut section.entities);
        total = total.saturating_add(pass.curves_recovered);
        kept.push(section);
        assert(views.take(k + 1).drop_last() =~= views.take(k));
        assert(views.take(k + 1).last() == views[k]);
    }
    assert(views.take(views.len() as int) =~= views);
    *sections = kept;
    assert(sections_view(sections@) =~= mapped(views, f));
    total
}

/// A section whose faces have been merged, and what that counts.
pub open spec fn section_coalesced(
    before: SectionView,
    after: SectionView,
    stats: FaceCoalesceStats,
) -> bool {
    &&& after.meta == before.meta
    &&& exists|plans: Seq<PlanView>, candidates: Seq<u64>| #[trigger]
        coalesces(before.entities, plans, candidates, after.entities, stats)
}

/// The counts of a merged section.
pub open spec fn coalesce_counts(stats: FaceCoalesceStats) -> PassCounters {
    PassCounters {
        face_coalesce_groups: stats.groups,
        face_coalesce_faces_merged: stats.faces_merged,
        face_coalesce_faces_removed: stats.faces_removed,
        face_coalesce_internal_edges_removed: stats.internal_edges_removed,
        face_coalesce_styles_removed: stats.styles_removed,
        face_coalesce_entities_removed: stats.entities_removed,
        ..no_counts()
    }
}

pub open spec fn coalesce_sum(stats: Seq<FaceCoalesceStats>) -> PassCounters
    decreases stats.len(),
{
    if stats.len() == 0 {
        no_counts()
    } else {
        added(coalesce_sum(stats.drop_last()), coalesce_counts(stats.last()))
    }
}

/// Sections whose faces have been merged, and what that counts.
pub open spec fn sections_coalesced(
    before: Seq<SectionView>,
    after: Seq<SectionView>,
    counts: PassCounters,
) -> bool {
    &&& before.len() == after.len()
    &&& exists|stats: Seq<FaceCoalesceStats>|
        stats.len() == before.len() && #[trigger] coalesce_sum(stats) == counts && forall|i: int|
            0 <= i < before.len() ==> section_coalesced(
                before[i],
                #[trigger] after[i],
                stats[i],
            )
}

/// Merges the faces of all sections.
fn coalesce_sections(sections: &mut Vec<DataSection>) -> (out: PassCounters)
    ensures
        sections_coalesced(
            sections_view(old(sections)@),
            sections_view(final(sections)@),
            out,
        ),
{
    let ghost views = sections_view(sections@);
    let mut counts = PassCounters::new();
    let ghost mut all: Seq<FaceCoalesceStats> = Seq::empty();
    let mut kept: Vec<DataSection> = Vec::new();
    while sections.len() > 0
        invariant
            views == sections_view(old(sections)@),
            kept.len() + sections.len() == views.len(),
            all.len() == kept.len(),
            counts == coalesce_sum(all),
            forall|j: int|
                0 <= j < kept.len() ==> section_coalesced(
                    views[j],
                    (#[trigger] kept@[j])@,
                    all[j],
                ),
            forall|j: int|
                0 <= j < sections.len() ==> (#[trigger] sections@[j])@ == views[kept.len() + j],
        decreases sections.len(),
    {
        let ghost before = sections@;
        let ghost k = kept.len() as int;
        assert(before[0]@ == views[k + 0]);
        let mut section = sections.remove(0);
        assert(section@ == views[k]);
        assert forall|j: int| 0 <= j < sections.len() implies (#[trigger] sections@[j])@ == views[k
            + 1 + j] by {
            assert(sections@[j] == before[j + 1]);
        }
        let ghost entities_before = entities_view(section.entities@);
        let stats = coalesce_same_support_faces(&mut section.entities);
        proof {
            let (plans, candidates) = choose|plans: Seq<PlanView>, candidates: Seq<u64>| #[trigger]
                coalesces(
                    entities_before,
                    plans,
                    candidates,
                    entities_view(section.entities@),
                    stats,
                );
            assert(coalesces(views[k].entities, plans, candidates, section@.entities, stats));
        }
        let mut more = PassCounters::new();
        more.face_coalesce_groups = stats.groups;
        more.face_coalesce_faces_merged = stats.faces_merged;
        more.face_coalesce_faces_removed = stats.faces_removed;
        more.face_coalesce_internal_edges_removed = stats.internal_edges_removed;
        more.face_coalesce_styles_removed = stats.styles_removed;
        more.face_coalesce_entities_removed = stats.entities_removed;
        counts = counts.plus(&more);
        assert(section_coalesced(views[k], section@, stats));
        let ghost old_kept = kept@;
        kept.push(section);
        proof {
            let longer = all.push(stats);
            assert(longer.drop_last() =~= all);
            assert forall|j: int| 0 <= j < kept.len() implies section_coalesced(
                views[j],
                (#[trigger] kept@[j])@,
                longer[j],
            ) by {
                if j < k {
                    assert(kept@[j] == old_kept[j]);
                }
            }
            all = longer;
        }
    }
    *sections = kept;
    proof {
        let after = sections_view(sections@);
        assert forall|i: int| 0 <= i < views.len() implies section_coalesced(
            views[i],
            #[trigger] after[i],
            all[i],
        ) by {
            assert(after[i] == kept@[i]@);
        }
        assert(sections_coalesced(views, after, counts));
    }
    counts
}

fn count_entities(sections: &Vec<DataSection>) -> (out: usize)
    ensures
        out == capped(entity_total(sections_view(sections@))),
{
    let ghost views = sections_view(sections@);
    let mut total: usize = 0;
    let mut i: usize = 0;
    assert(views.take(0) =~= Seq::empty());
    while i < sections.len()
        invariant
            i <= sections.len(),
            views == sections_view(sections@),
            total == capped(entity_total(views.take(i as int))),
        decreases sections.len() - i,
    {
        total = total.saturating_add(sections[i].entities.len());
        i = i + 1;
        assert(views.take(i as int).drop_last() =~= views.take(i - 1));
    }
    assert(views.take(views.len() as int) =~= views);
    total
}

/// An exchange structure with other sections.
pub open spec fn with_data(exchange: ExchangeView, data: Seq<SectionView>) -> ExchangeView {
    ExchangeView { data, ..exchange }
}

/// A run that has read a file and made the first passes.
pub open spec fn begun(run: CleanRun, exchange: ExchangeView, options: Options) -> bool {
    let first = minified_if(exchange.data, options.minify_placeholder_names);
    let second = interned_if(first, options.intern_values);
    &&& run.exchange@ == with_data(exchange, opened(exchange.data, options))
    &&& run.options == options
    &&& run.input_entities == capped(entity_total(exchange.data))
    &&& run.placeholder_names_minified == (if options.minify_placeholder_names {
        capped(placeholder_total(exchange.data))
    } else {
        0
    })
    &&& run.interned_entities == (if options.intern_values {
        capped(interned_total(first))
    } else {
        0
    })
    &&& run.interned_by_type@ == (if options.intern_values {
        interned_types(first)
    } else {
        Map::empty()
    })
    &&& run.consolidated_entities == (if options.consolidate_presentation {
        capped(consolidated_total(second))
    } else {
        0
    })
    &&& run.consolidated_by_type@ == (if options.consolidate_presentation {
        consolidated_types(second)
    } else {
        Map::empty()
    })
    &&& run.counters == no_counts()
    &&& run.done == 0
}

/// Begins a run on an exchange structure.
pub fn begin_run(
    exchange: Exchange,
    encoding: Encoding,
    input_bytes: usize,
    options: &Options,
) -> (run: CleanRun)
    requires
        !has_optional_sections(exchange@),
    ensures
        run.wf(),
        begun(run, exchange@, *options),
        run.encoding == encoding,
        run.input_bytes == input_bytes,
{
    let ghost before = exchange@;
    let input_entities: usize = count_entities(&exchange.data);
    let mut data = exchange.data;
    let mut placeholder_names_minified: usize = 0;
    if options.minify_placeholder_names {
        placeholder_names_minified = minify_sections(&mut data);
    }
    let mut interned_entities: usize = 0;
    let mut interned_by_type = TypeCounts::new();
    if options.intern_values {
        let (total, by_type) = intern_sections(&mut data);
        interned_entities = total;
        interned_by_type = by_type;
    }
    let mut consolidated_entities: usize = 0;
    let mut consolidated_by_type = TypeCounts::new();
    if options.consolidate_presentation {
        let (total, by_type) = consolidate_sections(&mut data);
        consolidated_entities = total;
        consolidated_by_type = by_type;
    }
    CleanRun {
        exchange: Exchange {
            header: exchange.header,
            anchor: exchange.anchor,
            reference: exchange.reference,
            data,
            signature: exchange.signature,
        },
        options: *options,
        encoding,
        input_bytes,
        input_entities,
        interned_entities,
        consolidated_entities,
        placeholder_names_minified,
        interned_by_type,
        consolidated_by_type,
        counters: PassCounters::new(),
        done: 0,
    }
}

/// Everything of a run but the sections, the counts of the passes and how many were made.
pub open spec fn same_frame(a: CleanRun, b: CleanRun) -> bool {
    &&& a.exchange@ == with_data(b.exchange@, a.exchange@.data)
    &&& a.options == b.options
    &&& a.encoding == b.encoding
    &&& a.input_bytes == b.input_bytes
    &&& a.input_entities == b.input_entities
    &&& a.interned_entities == b.interned_entities
    &&& a.consolidated_entities == b.consolidated_entities
    &&& a.placeholder_names_minified == b.placeholder_names_minified
    &&& a.interned_by_type@ == b.interned_by_type@
    &&& a.consolidated_by_type@ == b.consolidated_by_type@
}

/// What an own pass does to the sections, and what it counts.
pub open spec fn own_pass(
    pass: Pass,
    before: Seq<SectionView>,
    after: Seq<SectionView>,
    counts: PassCounters,
) -> bool {
    if pass == Pass::ExactBezierCurves {
        &&& after == mapped(before, |e: Seq<EntityView>| recovered(e))
        &&& counts == (PassCounters {
            exact_bezier_curves_recovered: capped(bezier_total(before)),
            ..no_counts()
        })
    } else {
        sections_coalesced(before, after, counts)
    }
}

/// A run from which one own pass leads to another one.
pub open spec fn own_step(before: CleanRun, after: CleanRun) -> bool {
    &&& before.done < pass_order(before.options).len()
    &&& is_own(pass_order(before.options)[before.done as int])
    &&& after.done == before.done + 1
    &&& same_frame(after, before)
    &&& exists|counts: PassCounters| #[trigger]
        own_pass(
            pass_order(before.options)[before.done as int],
            before.exchange@.data,
            after.exchange@.data,
            counts,
        ) && after.counters == added(before.counters, counts)
}

impl CleanRun {
    /// Makes the next pass, where it is an own one.
    pub fn make_own_pass(self) -> (out: CleanRun)
        requires
            self.wf(),
            self.done < pass_order(self.options).len(),
            is_own(pass_order(self.options)[self.done as int]),
        ensures
            out.wf(),
            own_step(self, out),
    {
        let order = passes(&self.options);
        assert(self.done < order.len());
        let pass = order[self.done];
        let done: usize = self.done + 1;
        let mut data = self.exchange.data;
        let ghost before = sections_view(data@);
        let counts = make_pass(&mut data, pass);
        let out = CleanRun {
            exchange: Exchange {
                header: self.exchange.header,
                anchor: self.exchange.anchor,
                reference: self.exchange.reference,
                data,
                signature: self.exchange.signature,
            },
            options: self.options,
            encoding: self.encoding,
            input_bytes: self.input_bytes,
            input_entities: self.input_entities,
            interned_entities: self.interned_entities,
            consolidated_entities: self.consolidated_entities,
            placeholder_names_minified: self.placeholder_names_minified,
            interned_by_type: self.interned_by_type,
            consolidated_by_type: self.consolidated_by_type,
            counters: self.counters.plus(&counts),
            done,
        };
        assert(out.exchange@ =~= with_data(self.exchange@, out.exchange@.data));
        assert(same_frame(out, self));
        assert(before == self.exchange@.data);
        assert(out.counters == added(self.counters, counts));
        assert(own_pass(pass_order(self.options)[self.done as int], self.exchange@.data, out.exchange@.data, counts));
        out
    }

    /// Takes the counts of a pass that is left to the caller.
    pub fn take_counts(self, counts: &PassCounters) -> (out: CleanRun)
        requires
            self.wf(),
            self.done < pass_order(self.options).len(),
            is_left_to_caller(pass_order(self.options)[self.done as int]),
        ensures
            out.wf(),
            out.done == self.done + 1,
            out.exchange@ == self.exchange@,
            same_frame(out, self),
            out.counters == added(self.counters, *counts),
    {
        let order = passes(&self.options);
        assert(self.done < order.len());
        CleanRun {
            exchange: self.exchange,
            options: self.options,
            encoding: self.encoding,
            input_bytes: self.input_bytes,
            input_entities: self.input_entities,
            interned_entities: self.interned_entities,
            consolidated_entities: self.consolidated_entities,
            placeholder_names_minified: self.placeholder_names_minified,
            interned_by_type: self.interned_by_type,
            consolidated_by_type: self.consolidated_by_type,
            counters: self.counters.plus(counts),
            done: self.done + 1,
        }
    }
}

/// Makes an own pass on all sections.
fn make_pass(data: &mut Vec<DataSection>, pass: Pass) -> (counts: PassCounters)
    requires
        is_own(pass),
    ensures
        own_pass(pass, sections_view(old(data)@), sections_view(final(data)@), counts),
{
    match pass {
        Pass::ExactBezierCurves => {
            let n: usize = bezier_sections(data);
            let mut counts = PassCounters::new();
            counts.exact_bezier_curves_recovered = n;
            counts
        },
        _ => coalesce_sections(data),
    }
}

/// The bytes of a text.
pub(crate) fn text_bytes(text: &String) -> (out: Vec<u8>)
    ensures
        out@ == encode_utf8(text@),
{
    let bytes = text.as_str().as_bytes();
    let mut out: Vec<u8> = Vec::new();
    let mut i: usize = 0;
    while i < bytes.len()
        invariant
            i <= bytes.len(),
            out@ == bytes@.take(i as int),
        decreases bytes.len() - i,
    {
        out.push(bytes[i]);
        i = i + 1;
        assert(bytes@.take(i as int) =~= bytes@.take(i - 1).push(bytes@[i - 1]));
    }
    assert(bytes@.take(bytes@.len() as int) =~= bytes@);
    out
}

/// What a finished run gives.
pub open spec fn finished(run: CleanRun, out: CleanedExchange) -> bool {
    let options = run.options;
    let again = rewrote(run.counters) && options.intern_values;
    let before = run.exchange@.data;
    let minified_data = minified_if(before, options.minify_placeholder_names);
    let data = closed_with(before, options, run.counters);
    &&& out.exchange@ == with_data(run.exchange@, data)
    &&& out.bytes@ == encode_utf8(exchange_text(out.exchange@))
    &&& out.encoding == run.encoding
    &&& audits(out.compatibility, all_section_records(data))
    &&& out.stats.input_bytes == run.input_bytes
    &&& out.stats.output_bytes == out.bytes@.len()
    &&& out.stats.input_entities == run.input_entities
    &&& out.stats.output_entities == capped(entity_total(data))
    &&& out.stats.placeholder_names_minified == run.placeholder_names_minified.saturating_add(
        if options.minify_placeholder_names {
            capped(placeholder_total(before))
        } else {
            0
        },
    )
    &&& out.stats.interned_entities == run.interned_entities.saturating_add(
        if again {
            capped(interned_total(minified_data))
        } else {
            0
        },
    )
    &&& out.stats.interned_by_type@ == (if again {
        summed(run.interned_by_type@, interned_types(minified_data))
    } else {
        run.interned_by_type@
    })
    &&& out.stats.consolidated_entities == run.consolidated_entities
    &&& out.stats.consolidated_by_type@ == run.consolidated_by_type@
    &&& out.stats.passes == run.counters
}

/// Ends a run: makes the last passes, audits the sections and writes them.
pub fn finish_run(run: CleanRun) -> (out: CleanedExchange)
    requires
        run.wf(),
    ensures
        finished(run, out),
{
    let ghost start = run;
    let mut run = run;
    let options = run.options;
    let again = run.counters.rewrote_values() && options.intern_values;
    let mut placeholder_names_minified: usize = run.placeholder_names_minified;
    if options.minify_placeholder_names {
        let more: usize = minify_sections(&mut run.exchange.data);
        placeholder_names_minified = placeholder_names_minified.saturating_add(more);
    }
    let mut interned_entities: usize = run.interned_entities;
    let mut interned_by_type = run.interned_by_type;
    if again {
        let (total, by_type) = intern_sections(&mut run.exchange.data);
        interned_entities = interned_entities.saturating_add(total);
        interned_by_type.count_all(&by_type);
    }
    if options.dense_ids {
        renumber_sections(&mut run.exchange.data);
    }
    let compatibility = audit_exchange_compatibility(&run.exchange);
    let output_entities: usize = count_entities(&run.exchange.data);
    let text = match write_exchange(&run.exchange) {
        Some(text) => text,
        None => {
            assert(false);
            String::new()
        },
    };
    let bytes = text_bytes(&text);
    let stats = Stats {
        input_bytes: run.input_bytes,
        output_bytes: bytes.len(),
        input_entities: run.input_entities,
        output_entities,
        interned_entities,
        consolidated_entities: run.consolidated_entities,
        placeholder_names_minified,
        passes: run.counters,
        interned_by_type,
        consolidated_by_type: run.consolidated_by_type,
    };
    CleanedExchange {
        bytes,
        exchange: run.exchange,
        encoding: run.encoding,
        stats,
        compatibility,
    }
}

/// Where a run stands: at its end, or before a pass that the caller makes.
#[derive(Debug)]
pub enum CleanStep {
    Finished(CleanedExchange),
    Needs { run: CleanRun, pass: Pass },
}

/// A run that own passes lead to.
pub open spec fn own_steps(runs: Seq<CleanRun>) -> bool {
    &&& runs.len() > 0
    &&& forall|i: int| 0 <= i < runs.len() - 1 ==> own_step(#[trigger] runs[i], runs[i + 1])
}

/// Where a run leads by itself: over its own passes to the first other one, or to its end.
pub open spec fn leads_to(run: CleanRun, step: CleanStep) -> bool {
    exists|runs: Seq<CleanRun>| #[trigger]
        own_steps(runs) && runs[0] == run && {
            let last = runs.last();
            match step {
                CleanStep::Finished(out) => last.done == pass_order(last.options).len() && finished(
                    last,
                    out,
                ),
                CleanStep::Needs { run: waiting, pass } => waiting == last && last.done
                    < pass_order(last.options).len() && pass == pass_order(
                    last.options,
                )[last.done as int] && !is_own(pass),
            }
        }
}

/// Goes on with a run as far as it needs nothing from the caller.
pub fn advance(run: CleanRun) -> (step: CleanStep)
    requires
        run.wf(),
    ensures
        leads_to(run, step),
        step matches CleanStep::Needs { run: waiting, .. } ==> waiting.wf(),
{
    let ghost mut runs: Seq<CleanRun> = seq![run];
    let order = passes(&run.options);
    let mut current = run;
    while current.done < order.len()
        invariant
            current.wf(),
            order@ == pass_order(current.options),
            own_steps(runs),
            runs[0] == run,
            runs.last() == current,
        decreases order.len() - current.done,
    {
        let pass = order[current.done];
        if pass != Pass::ExactBezierCurves && pass != Pass::SameSupportFaces {
            let step = CleanStep::Needs { run: current, pass };
            assert(leads_to(run, step));
            return step;
        }
        current = current.make_own_pass();
        proof {
            let longer = runs.push(current);
            assert forall|i: int| 0 <= i < longer.len() - 1 implies own_step(
                #[trigger] longer[i],
                longer[i + 1],
            ) by {
                if i < runs.len() - 1 {
                    assert(own_step(runs[i], runs[i + 1]));
                }
            }
            runs = longer;
        }
    }
    let ghost last = current;
    let out = finish_run(current);
    assert(runs.last() == last);
    CleanStep::Finished(out)
}

/// Begins to clean a file. The run goes as far as it needs nothing from the caller: to its
/// end, where no pass that measures geometry is asked for.
pub fn begin_cleaning(input: &[u8], options: &Options) -> (out: Result<CleanStep, StepError>)
    ensures
        match out {
            Err(error) => reading(input@) == Err::<(ExchangeView, Encoding), StepError>(error),
            Ok(step) => exists|run: CleanRun| #[trigger]
                leads_to(run, step) && run.wf() && run.input_bytes == input@.len() && (
                reading(input@) matches Ok((exchange, encoding)) && begun(run, exchange, *options)
                    && run.encoding == encoding),
        },
        out matches Ok(CleanStep::Needs { run, .. }) ==> run.wf(),
        reading_facts(input@),
{
    match read_exchange(input) {
        Err(error) => Err(error),
        Ok((exchange, encoding)) => {
            let run = begin_run(exchange, encoding, input.len(), options);
            let ghost first = run;
            let step = advance(run);
            assert(leads_to(first, step));
            Ok(step)
        },
    }
}

} // verus!
