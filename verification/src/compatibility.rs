//! The structural audit of a file.

use vstd::prelude::*;

use crate::ast::{
    entities_view, records_view, sections_view, EntityInstance, EntityView, Exchange, Record,
    RecordView, SectionView,
};
use crate::counts::{counted, TypeCounts};
use crate::minify::capped;
use crate::text::same_text;

verus! {

/// Which structure of a file some importers do not read.
#[derive(Debug)]
pub struct CompatibilityAudit {
    /// How many records there are of each type that the compatible profile avoids.
    pub structural_risk_entities: TypeCounts,
    pub structural_risk_total: usize,
    pub has_mapped_items: bool,
    pub has_curve_or_surface_replicas: bool,
    pub has_assembly_relationships: bool,
    /// Whether none of these types occurs.
    pub conservative_structure: bool,
}

pub open spec fn mapped_type(name: Seq<char>) -> bool {
    name == "MAPPED_ITEM"@ || name == "REPRESENTATION_MAP"@
}

pub open spec fn replica_type(name: Seq<char>) -> bool {
    name == "CURVE_REPLICA"@ || name == "SURFACE_REPLICA"@
}

pub open spec fn assembly_type(name: Seq<char>) -> bool {
    ||| name == "NEXT_ASSEMBLY_USAGE_OCCURRENCE"@
    ||| name == "CONTEXT_DEPENDENT_SHAPE_REPRESENTATION"@
    ||| name == "ITEM_DEFINED_TRANSFORMATION"@
    ||| name == "REPRESENTATION_RELATIONSHIP_WITH_TRANSFORMATION"@
    ||| name == "SHAPE_REPRESENTATION_RELATIONSHIP"@
}

/// The types that are audited.
pub open spec fn risk_type(name: Seq<char>) -> bool {
    mapped_type(name) || replica_type(name) || assembly_type(name)
}

/// The records of all entities.
pub open spec fn all_records(entities: Seq<EntityView>) -> Seq<RecordView>
    decreases entities.len(),
{
    if entities.len() == 0 {
        Seq::empty()
    } else {
        all_records(entities.drop_last()) + entities.last().records()
    }
}

/// The records of all sections.
pub open spec fn all_section_records(sections: Seq<SectionView>) -> Seq<RecordView>
    decreases sections.len(),
{
    if sections.len() == 0 {
        Seq::empty()
    } else {
        all_section_records(sections.drop_last()) + all_records(sections.last().entities)
    }
}

pub open spec fn risk_counts(records: Seq<RecordView>) -> Map<Seq<char>, usize>
    decreases records.len(),
{
    if records.len() == 0 {
        Map::empty()
    } else {
        let rest = risk_counts(records.drop_last());
        if risk_type(records.last().name) {
            counted(rest, records.last().name, 1)
        } else {
            rest
        }
    }
}

pub open spec fn risk_total(records: Seq<RecordView>) -> nat
    decreases records.len(),
{
    if records.len() == 0 {
        0
    } else {
        risk_total(records.drop_last()) + (if risk_type(records.last().name) {
            1nat
        } else {
            0
        })
    }
}

pub open spec fn any_record(records: Seq<RecordView>, f: spec_fn(Seq<char>) -> bool) -> bool {
    exists|i: int| 0 <= i < records.len() && f(#[trigger] records[i].name)
}

/// An audit says what the records hold.
pub open spec fn audits(audit: CompatibilityAudit, records: Seq<RecordView>) -> bool {
    &&& audit.structural_risk_entities.wf()
    &&& audit.structural_risk_entities@ == risk_counts(records)
    &&& audit.structural_risk_total == capped(risk_total(records))
    &&& audit.has_mapped_items == any_record(records, |name: Seq<char>| mapped_type(name))
    &&& audit.has_curve_or_surface_replicas == any_record(
        records,
        |name: Seq<char>| replica_type(name),
    )
    &&& audit.has_assembly_relationships == any_record(
        records,
        |name: Seq<char>| assembly_type(name),
    )
    &&& audit.conservative_structure == !any_record(records, |name: Seq<char>| risk_type(name))
}

fn is_mapped_type(name: &str) -> (out: bool)
    ensures
        out == mapped_type(name@),
{
    same_text(name, "MAPPED_ITEM") || same_text(name, "REPRESENTATION_MAP")
}

fn is_replica_type(name: &str) -> (out: bool)
    ensures
        out == replica_type(name@),
{
    same_text(name, "CURVE_REPLICA") || same_text(name, "SURFACE_REPLICA")
}

fn is_assembly_type(name: &str) -> (out: bool)
    ensures
        out == assembly_type(name@),
{
    same_text(name, "NEXT_ASSEMBLY_USAGE_OCCURRENCE") || same_text(
        name,
        "CONTEXT_DEPENDENT_SHAPE_REPRESENTATION",
    ) || same_text(name, "ITEM_DEFINED_TRANSFORMATION") || same_text(
        name,
        "REPRESENTATION_RELATIONSHIP_WITH_TRANSFORMATION",
    ) || same_text(name, "SHAPE_REPRESENTATION_RELATIONSHIP")
}

fn empty_audit() -> (out: CompatibilityAudit)
    ensures
        audits(out, Seq::empty()),
{
    CompatibilityAudit {
        structural_risk_entities: TypeCounts::new(),
        structural_risk_total: 0,
        has_mapped_items: false,
        has_curve_or_surface_replicas: false,
        has_assembly_relationships: false,
        conservative_structure: true,
    }
}

pub proof fn lemma_any_pushed(
    records: Seq<RecordView>,
    record: RecordView,
    f: spec_fn(Seq<char>) -> bool,
)
    ensures
        any_record(records.push(record), f) == (any_record(records, f) || f(record.name)),
{
    let longer = records.push(record);
    if any_record(records, f) {
        let i = choose|i: int| 0 <= i < records.len() && f(#[trigger] records[i].name);
        assert(longer[i].name == records[i].name);
    }
    if f(record.name) {
        assert(longer[records.len() as int].name == record.name);
    }
    if any_record(longer, f) {
        let i = choose|i: int| 0 <= i < longer.len() && f(#[trigger] longer[i].name);
        if i < records.len() {
            assert(records[i].name == longer[i].name);
        }
    }
}

/// Adds one record to an audit.
fn audit_record(audit: CompatibilityAudit, record: &Record, Ghost(before): Ghost<Seq<RecordView>>) -> (out:
    CompatibilityAudit)
    requires
        audits(audit, before),
    ensures
        audits(out, before.push(record@)),
{
    let name = record.name.as_str();
    let mapped = is_mapped_type(name);
    let replica = is_replica_type(name);
    let assembly = is_assembly_type(name);
    proof {
        assert(before.push(record@).drop_last() =~= before);
        lemma_any_pushed(before, record@, |name: Seq<char>| mapped_type(name));
        lemma_any_pushed(before, record@, |name: Seq<char>| replica_type(name));
        lemma_any_pushed(before, record@, |name: Seq<char>| assembly_type(name));
        lemma_any_pushed(before, record@, |name: Seq<char>| risk_type(name));
    }
    let mut counts = audit.structural_risk_entities;
    let mut total: usize = audit.structural_risk_total;
    if mapped || replica || assembly {
        counts.count(record.name.clone(), 1);
        total = total.saturating_add(1);
    }
    CompatibilityAudit {
        structural_risk_entities: counts,
        structural_risk_total: total,
        has_mapped_items: audit.has_mapped_items || mapped,
        has_curve_or_surface_replicas: audit.has_curve_or_surface_replicas || replica,
        has_assembly_relationships: audit.has_assembly_relationships || assembly,
        conservative_structure: audit.conservative_structure && !(mapped || replica || assembly),
    }
}

fn audit_more(
    audit: CompatibilityAudit,
    entities: &Vec<EntityInstance>,
    Ghost(before): Ghost<Seq<RecordView>>,
) -> (out: CompatibilityAudit)
    requires
        audits(audit, before),
    ensures
        audits(out, before + all_records(entities_view(entities@))),
{
    let ghost views = entities_view(entities@);
    let mut audit = audit;
    let mut i: usize = 0;
    assert(before + all_records(views.take(0)) =~= before);
    while i < entities.len()
        invariant
            i <= entities.len(),
            views == entities_view(entities@),
            audits(audit, before + all_records(views.take(i as int))),
        decreases entities.len() - i,
    {
        let ghost done = before + all_records(views.take(i as int));
        match &entities[i] {
            EntityInstance::Simple { record, .. } => {
                audit = audit_record(audit, record, Ghost(done));
                assert(done.push(record@) =~= done + views[i as int].records());
            },
            EntityInstance::Complex { subsuper, .. } => {
                let ghost records = records_view(subsuper@);
                let mut k: usize = 0;
                assert(done + records.take(0) =~= done);
                while k < subsuper.len()
                    invariant
                        k <= subsuper.len(),
                        records == records_view(subsuper@),
                        audits(audit, done + records.take(k as int)),
                    decreases subsuper.len() - k,
                {
                    audit = audit_record(
                        audit,
                        &subsuper[k],
                        Ghost(done + records.take(k as int)),
                    );
                    k = k + 1;
                    assert((done + records.take(k - 1)).push(records[k - 1]) =~= done
                        + records.take(k as int));
                }
                assert(records.take(records.len() as int) =~= records);
            },
        }
        i = i + 1;
        assert(views.take(i as int).drop_last() =~= views.take(i - 1));
        assert(done + views[i - 1].records() =~= before + all_records(views.take(i as int)));
    }
    assert(views.take(views.len() as int) =~= views);
    audit
}

/// Audits the entities of a section.
pub fn audit_entities(entities: &Vec<EntityInstance>) -> (out: CompatibilityAudit)
    ensures
        audits(out, all_records(entities_view(entities@))),
{
    let out = audit_more(empty_audit(), entities, Ghost(Seq::empty()));
    assert(Seq::<RecordView>::empty() + all_records(entities_view(entities@)) =~= all_records(
        entities_view(entities@),
    ));
    out
}

/// Audits all sections of a file.
pub fn audit_exchange_compatibility(exchange: &Exchange) -> (out: CompatibilityAudit)
    ensures
        audits(out, all_section_records(exchange@.data)),
{
    let ghost views = sections_view(exchange.data@);
    let mut audit = empty_audit();
    let mut i: usize = 0;
    assert(all_section_records(views.take(0)) =~= Seq::empty());
    while i < exchange.data.len()
        invariant
            i <= exchange.data.len(),
            views == sections_view(exchange.data@),
            audits(audit, all_section_records(views.take(i as int))),
        decreases exchange.data.len() - i,
    {
        audit = audit_more(
            audit,
            &exchange.data[i].entities,
            Ghost(all_section_records(views.take(i as int))),
        );
        i = i + 1;
        assert(views.take(i as int).drop_last() =~= views.take(i - 1));
    }
    assert(views.take(views.len() as int) =~= views);
    audit
}

} // verus!
