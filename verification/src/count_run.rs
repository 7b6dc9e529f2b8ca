//! Carrying out a change of a number of sites, one solid and one row after the other.

use vstd::prelude::*;

use crate::ast::{entities_view, DataSection, EntityView, Exchange, SectionView};
use crate::body_graph::BodyError;
use crate::body_rows::BodyEvidence;
use crate::count_resize::{
    confirms_count, count_refusal, find_matching_count_parameter, is_count_edit, one_side_count_refusal,
    resize_count_parameter_bytes_one_side, row_anchor, row_anchored, settle, settled, CountEdit,
    CountEditOutput, Semantics, SettledEdit,
};
use crate::parameters::RecoveredCountParameter;
use crate::pattern_resize::{
    anchored_fault, is_row_resized, resize_filled_linear_pattern, HalfSteps, PatternError,
};
use crate::periodic_resize::{
    expand_periodic_body_positive, grown, shrink_periodic_body_positive, shrunk,
    PeriodicBodyResizeStats,
};
use crate::resize::{half_way, only_at, CountAnchor, EditError};
use crate::section_edits::with_entities;

verus! {

/// What a change of a number of sites waits for.
#[derive(Debug, Clone, Copy, PartialEq, Eq, Structural)]
pub enum CountNeed {
    /// What is measured of the solid of a step.
    Body(usize),
    /// What is measured of the row of a step.
    Row(usize),
    /// Nothing more.
    Done,
}

/// Why a change of a number of sites fails on its way.
#[derive(Debug, Clone, Copy, PartialEq, Eq, Structural)]
pub enum RunError {
    Body(BodyError),
    Row(PatternError),
    Edit(EditError),
}

/// What a change of a number of sites waits for: its solids in order, and then its rows.
pub fn next_need(edit: &CountEdit) -> (need: CountNeed)
    requires
        edit.wf(),
    ensures
        need == (if edit.body_resizes@.len() < edit.bodies@.len() {
            CountNeed::Body(edit.body_resizes@.len() as usize)
        } else if edit.pattern_resizes@.len() < edit.rows@.len() {
            CountNeed::Row(edit.pattern_resizes@.len() as usize)
        } else {
            CountNeed::Done
        }),
{
    if edit.body_resizes.len() < edit.bodies.len() {
        CountNeed::Body(edit.body_resizes.len())
    } else if edit.pattern_resizes.len() < edit.rows.len() {
        CountNeed::Row(edit.pattern_resizes.len())
    } else {
        CountNeed::Done
    }
}

/// Whether an edit goes on as before, with other entities.
pub open spec fn goes_on(before: CountEdit, after: CountEdit, entities: Seq<EntityView>) -> bool {
    &&& after.exchange@ == with_entities(before.exchange@, 0, entities)
    &&& after.original == before.original
    &&& after.bodies == before.bodies
    &&& after.rows == before.rows
    &&& after.new_sites == before.new_sites
    &&& after.anchor == before.anchor
}

/// What resizing the next solid makes of the entities: it grows or shrinks at the far end, as it
/// is seen from the end that stays.
pub open spec fn next_body(edit: CountEdit, evidence: BodyEvidence) -> Result<
    (Seq<EntityView>, PeriodicBodyResizeStats),
    BodyError,
> {
    let step = edit.bodies@[edit.body_resizes@.len() as int];
    if step.grows {
        grown(edit.entities(), step.directed, edit.new_sites, evidence)
    } else {
        shrunk(edit.entities(), step.directed, edit.new_sites, evidence)
    }
}

/// The only section of a file, and the file without it.
fn with_only(exchange: &mut Exchange) -> (out: DataSection)
    requires
        old(exchange).data@.len() == 1,
    ensures
        out == old(exchange).data@[0],
        final(exchange).data@.len() == 0,
        final(exchange).header == old(exchange).header,
        final(exchange).anchor == old(exchange).anchor,
        final(exchange).reference == old(exchange).reference,
        final(exchange).signature == old(exchange).signature,
{
    let mut data: Vec<DataSection> = Vec::new();
    std::mem::swap(&mut data, &mut exchange.data);
    data.remove(0)
}

/// Resizes the next solid.
pub fn resize_next_body(edit: CountEdit, evidence: &BodyEvidence) -> (out: Result<
    CountEdit,
    RunError,
>)
    requires
        edit.wf(),
        edit.body_resizes@.len() < edit.bodies@.len(),
    ensures
        match (out, next_body(edit, *evidence)) {
            (Ok(next), Ok((entities, stats))) => {
                &&& next.wf()
                &&& goes_on(edit, next, entities)
                &&& next.body_resizes@ == edit.body_resizes@.push(stats)
                &&& next.pattern_resizes@ == edit.pattern_resizes@
            },
            (Err(error), Err(expected)) => error == RunError::Body(expected),
            _ => false,
        },
{
    let ghost before = edit;
    let mut edit = edit;
    let k: usize = edit.body_resizes.len();
    let mut section = with_only(&mut edit.exchange);
    assert(before.exchange@.data[0] == before.exchange.data@[0]@);
    let resized = if edit.bodies[k].grows {
        expand_periodic_body_positive(
            &mut section.entities,
            &edit.bodies[k].directed,
            edit.new_sites,
            evidence,
        )
    } else {
        shrink_periodic_body_positive(
            &mut section.entities,
            &edit.bodies[k].directed,
            edit.new_sites,
            evidence,
        )
    };
    match resized {
        Err(error) => Err(RunError::Body(error)),
        Ok(stats) => {
            let ghost entities = entities_view(section.entities@);
            let ghost new = SectionView { meta: before.exchange@.data[0].meta, entities };
            assert(section@ == new);
            edit.exchange.data.push(section);
            assert(edit.exchange@.data =~= before.exchange@.data.update(0, new));
            edit.body_resizes.push(stats);
            Ok(edit)
        },
    }
}

/// Why the next row cannot be resized, if it cannot.
pub open spec fn next_row_fault(edit: CountEdit, forward: bool, steps: HalfSteps) -> Option<
    RunError,
> {
    let pattern = edit.rows@[edit.pattern_resizes@.len() as int].pattern;
    if pattern.basis@.len() == 0 {
        Some(RunError::Edit(EditError::NoBasis))
    } else {
        match anchored_fault(
            edit.entities(),
            pattern,
            edit.new_sites,
            row_anchored(edit.anchor, forward),
            steps,
        ) {
            Some(error) => Some(RunError::Row(error)),
            None => None,
        }
    }
}

/// Resizes the next row. `forward` says whether it runs with the sites.
pub fn resize_next_row(edit: CountEdit, forward: bool, steps: &HalfSteps) -> (out: Result<
    CountEdit,
    RunError,
>)
    requires
        edit.wf(),
        edit.body_resizes@.len() == edit.bodies@.len(),
        edit.pattern_resizes@.len() < edit.rows@.len(),
    ensures
        match out {
            Err(error) => next_row_fault(edit, forward, *steps) == Some(error),
            Ok(next) => {
                &&& next_row_fault(edit, forward, *steps) is None
                &&& next.wf()
                &&& next.body_resizes@ == edit.body_resizes@
                &&& next.pattern_resizes@.len() == edit.pattern_resizes@.len() + 1
                &&& next.pattern_resizes@.drop_last() == edit.pattern_resizes@
                &&& goes_on(edit, next, next.entities())
                &&& is_row_resized(
                    edit.entities(),
                    edit.rows@[edit.pattern_resizes@.len() as int].pattern,
                    edit.new_sites,
                    row_anchored(edit.anchor, forward),
                    *steps,
                    next.entities(),
                    next.pattern_resizes@.last(),
                )
            },
        },
{
    let ghost before = edit;
    let mut edit = edit;
    let k: usize = edit.pattern_resizes.len();
    let direction = if edit.rows[k].pattern.basis.len() == 0 {
        None
    } else {
        Some(forward)
    };
    let end = match row_anchor(edit.anchor, direction) {
        Ok(end) => end,
        Err(error) => {
            return Err(RunError::Edit(error));
        },
    };
    let mut section = with_only(&mut edit.exchange);
    assert(before.exchange@.data[0] == before.exchange.data@[0]@);
    match resize_filled_linear_pattern(
        &mut section.entities,
        &edit.rows[k].pattern,
        edit.new_sites,
        end,
        steps,
    ) {
        Err(error) => Err(RunError::Row(error)),
        Ok(stats) => {
            let ghost entities = entities_view(section.entities@);
            let ghost new = SectionView { meta: before.exchange@.data[0].meta, entities };
            assert(section@ == new);
            edit.exchange.data.push(section);
            assert(edit.exchange@.data =~= before.exchange@.data.update(0, new));
            edit.pattern_resizes.push(stats);
            assert(edit.pattern_resizes@.drop_last() =~= before.pattern_resizes@);
            Ok(edit)
        },
    }
}

/// Merges copies and numbers the entities anew, when all solids and rows are resized.
pub fn settle_edit(edit: CountEdit) -> (out: SettledEdit)
    requires
        edit.wf(),
        edit.body_resizes@.len() == edit.bodies@.len(),
        edit.pattern_resizes@.len() == edit.rows@.len(),
    ensures
        out.wf(),
        out.exchange@ == settled(edit.exchange@, 0),
        out.original == edit.original,
        out.new_sites == edit.new_sites,
        out.anchor == edit.anchor,
        out.body_resizes == edit.body_resizes,
        out.pattern_resizes == edit.pattern_resizes,
{
    SettledEdit {
        exchange: settle(edit.exchange, 0),
        original: edit.original,
        new_sites: edit.new_sites,
        anchor: edit.anchor,
        body_resizes: edit.body_resizes,
        pattern_resizes: edit.pattern_resizes,
    }
}

/// Whether a parameter is the only one that the first half of a change has left.
pub open spec fn is_left(
    parameters: Seq<RecoveredCountParameter>,
    mid_sites: usize,
    original: RecoveredCountParameter,
    k: int,
) -> bool {
    only_at(parameters.len(), |j: int| confirms_count(parameters[j], mid_sites, original), k)
}

/// Whether the first half of a change has left no parameter.
pub open spec fn none_is_left(
    parameters: Seq<RecoveredCountParameter>,
    mid_sites: usize,
    original: RecoveredCountParameter,
) -> bool {
    forall|j: int|
        0 <= j < parameters.len() ==> !confirms_count(#[trigger] parameters[j], mid_sites, original)
}

/// Whether the second half of a change that keeps the centre is what follows the first half: a
/// change of the parameter that the first half has left, on what it has written, which keeps the
/// end.
pub open spec fn is_second_half(
    first: CountEditOutput,
    k: usize,
    new_sites: usize,
    found: Semantics,
    out: Result<CountEdit, EditError>,
) -> bool {
    match out {
        Err(error) => one_side_count_refusal(first.bytes@, found, k, new_sites) == Some(error),
        Ok(edit) => {
            &&& one_side_count_refusal(first.bytes@, found, k, new_sites) is None
            &&& is_count_edit(edit, first.bytes@, found, k as int, new_sites, CountAnchor::End)
            &&& edit.wf()
        },
    }
}

/// The second half of a change that keeps the centre. The first half must have left exactly one
/// parameter. `found` is what is found in what the first half has written.
pub fn resume_center(
    first: &CountEditOutput,
    original: &RecoveredCountParameter,
    mid_sites: usize,
    new_sites: usize,
    found: &Semantics,
) -> (out: Result<CountEdit, EditError>)
    ensures
        none_is_left(first.count_parameters@, mid_sites, *original) ==> (out matches Err(error)
            && error == EditError::NotRediscovered),
        forall|k: usize| #[trigger]
            is_left(first.count_parameters@, mid_sites, *original, k as int) ==> is_second_half(
                *first,
                k,
                new_sites,
                *found,
                out,
            ),
        !none_is_left(first.count_parameters@, mid_sites, *original) && (forall|k: usize|
            !#[trigger] is_left(first.count_parameters@, mid_sites, *original, k as int))
            ==> (out matches Err(error) && error == EditError::Ambiguous),
{
    let ghost parameters = first.count_parameters@;
    let ghost holds = |j: int| confirms_count(parameters[j], mid_sites, *original);
    let k: usize = match find_matching_count_parameter(
        &first.count_parameters,
        mid_sites,
        original,
    ) {
        Ok(k) => k,
        Err(error) => {
            proof {
                assert forall|i: usize| #[trigger]
                    is_left(parameters, mid_sites, *original, i as int) implies false by {
                    assert(holds(i as int));
                    assert(confirms_count(parameters[i as int], mid_sites, *original));
                    if error == EditError::Ambiguous {
                        let (a, b) = choose|a: int, b: int|
                            0 <= a < b < parameters.len() && confirms_count(
                                #[trigger] parameters[a],
                                mid_sites,
                                *original,
                            ) && confirms_count(#[trigger] parameters[b], mid_sites, *original);
                        assert(holds(a) && holds(b));
                    }
                }
            }
            return Err(error);
        },
    };
    proof {
        assert(is_left(parameters, mid_sites, *original, k as int));
        assert(holds(k as int));
        assert(confirms_count(parameters[k as int], mid_sites, *original));
        assert forall|i: usize| #[trigger]
            is_left(parameters, mid_sites, *original, i as int) implies i == k by {
            assert(holds(i as int));
        }
    }
    resize_count_parameter_bytes_one_side(
        first.bytes.as_slice(),
        found,
        k,
        new_sites,
        CountAnchor::End,
    )
}

/// Where a change that keeps the centre is not refused, both of its halves move an end by the
/// same number of sites, in the same direction, and the first half is not refused for its number
/// of sites.
pub proof fn law_center_is_two_halves(
    parameters: Seq<RecoveredCountParameter>,
    index: usize,
    new_sites: usize,
    mid_sites: usize,
)
    requires
        count_refusal(parameters, index, new_sites) is None,
        (new_sites - parameters[index as int].sites) % 2 == 0,
        parameters[index as int].sites >= 4,
        mid_sites == half_way(parameters[index as int].sites, new_sites),
    ensures
        mid_sites - parameters[index as int].sites == new_sites - mid_sites,
        mid_sites != parameters[index as int].sites,
        mid_sites != new_sites,
        count_refusal(parameters, index, mid_sites) is None,
{
}

} // verus!
