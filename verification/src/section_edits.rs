//! Edits of one solid or one row in a file.

use vstd::prelude::*;
use vstd::utf8::encode_utf8;

use crate::ast::{entities_view, sections_view, EntityView, Exchange, ExchangeView, SectionView};
use crate::body_graph::BodyError;
use crate::body_rows::BodyEvidence;
use crate::clean::with_data;
use crate::compatibility::{all_section_records, audit_exchange_compatibility, audits};
use crate::count_resize::{settle, settled, PatternEditOutput, PeriodicBodyEditOutput};
use crate::parameters::RecoveredCountParameter;
use crate::pattern_resize::{
    anchored_fault, is_row_resized, resize_filled_linear_pattern, HalfSteps, PatternError,
};
use crate::patterns::{InstancePattern, PatternAnchor, PatternResizeStats};
use crate::periodic_bodies::PeriodicBodyPattern;
use crate::periodic_resize::{expand_periodic_body_positive, grown, PeriodicBodyResizeStats};
use crate::read::{read_exchange, reading, StepError};
use crate::resize::exchange_bytes;
use crate::write::{exchange_text, has_optional_sections};

verus! {

/// Why an edit fails.
#[derive(Debug)]
pub enum SectionError {
    Read(StepError),
    /// There is no solid or row with the index.
    NotFound,
    Body(BodyError),
    Row(PatternError),
}

/// The list that holds the thing with an index, from one list on, and its place there.
pub open spec fn located<T>(lists: Seq<Vec<T>>, index: int, from: int) -> Option<(int, int)>
    decreases lists.len() - from,
{
    if from >= lists.len() {
        None
    } else if index < lists[from]@.len() {
        Some((from, index))
    } else {
        located(lists, index - lists[from]@.len(), from + 1)
    }
}

/// The list that holds the thing with an index, and its place there.
pub(crate) fn find_located<T>(lists: &Vec<Vec<T>>, index: usize) -> (out: Option<(usize, usize)>)
    ensures
        out is Some == located(lists@, index as int, 0) is Some,
        out matches Some((list, place)) ==> located(lists@, index as int, 0) == Some(
            (list as int, place as int),
        ) && list < lists@.len() && place < lists@[list as int]@.len(),
{
    let mut remaining: usize = index;
    let mut i: usize = 0;
    while i < lists.len()
        invariant
            i <= lists.len(),
            located(lists@, index as int, 0) == located(lists@, remaining as int, i as int),
        decreases lists.len() - i,
    {
        if remaining < lists[i].len() {
            return Some((i, remaining));
        }
        remaining = remaining - lists[i].len();
        i = i + 1;
    }
    None
}

/// A file with other entities in one section.
pub open spec fn with_entities(
    exchange: ExchangeView,
    section: int,
    entities: Seq<EntityView>,
) -> ExchangeView {
    with_data(
        exchange,
        exchange.data.update(
            section,
            SectionView { meta: exchange.data[section].meta, entities },
        ),
    )
}

/// A file in which one solid has grown, and what has changed.
pub open spec fn body_edit(
    input: Seq<u8>,
    bodies: Seq<Vec<PeriodicBodyPattern>>,
    index: usize,
    new_sites: usize,
    evidence: BodyEvidence,
) -> Result<(ExchangeView, PeriodicBodyResizeStats), SectionError> {
    match reading(input) {
        Err(error) => Err(SectionError::Read(error)),
        Ok((exchange, _)) => match located(bodies, index as int, 0) {
            None => Err(SectionError::NotFound),
            Some((section, place)) => if section >= exchange.data.len() {
                Err(SectionError::NotFound)
            } else {
                match grown(
                    exchange.data[section].entities,
                    bodies[section]@[place],
                    new_sites,
                    evidence,
                ) {
                    Err(error) => Err(SectionError::Body(error)),
                    Ok((entities, stats)) => Ok(
                        (settled(with_entities(exchange, section, entities), section), stats),
                    ),
                }
            },
        },
    }
}

/// Lets one of the solids that were found in the sections of a file grow.
#[verifier::rlimit(30)]
pub fn expand_periodic_body_bytes(
    input: &[u8],
    bodies: &Vec<Vec<PeriodicBodyPattern>>,
    body_index: usize,
    new_sites: usize,
    evidence: &BodyEvidence,
) -> (out: Result<PeriodicBodyEditOutput, SectionError>)
    ensures
        match (out, body_edit(input@, bodies@, body_index, new_sites, *evidence)) {
            (Ok(edited), Ok((exchange, stats))) => edited.bytes@ == encode_utf8(
                exchange_text(exchange),
            ) && edited.resize == stats,
            (Err(a), Err(b)) => a == b,
            _ => false,
        },
{
    let exchange = match read_exchange(input) {
        Err(error) => {
            return Err(SectionError::Read(error));
        },
        Ok((exchange, _)) => exchange,
    };
    let ghost before = exchange@;
    let (section, place) = match find_located(bodies, body_index) {
        Some(found) => found,
        None => {
            return Err(SectionError::NotFound);
        },
    };
    if section >= exchange.data.len() {
        return Err(SectionError::NotFound);
    }
    let mut data = exchange.data;
    let ghost start = data@;
    let mut edited = data.remove(section);
    assert(before.data[section as int] == start[section as int]@);
    let resize = match expand_periodic_body_positive(
        &mut edited.entities,
        &bodies[section][place],
        new_sites,
        evidence,
    ) {
        Ok(resize) => resize,
        Err(error) => {
            return Err(SectionError::Body(error));
        },
    };
    let ghost entities = entities_view(edited.entities@);
    data.insert(section, edited);
    assert(sections_view(data@) =~= before.data.update(
        section as int,
        SectionView { meta: before.data[section as int].meta, entities },
    ));
    let whole = Exchange {
        header: exchange.header,
        anchor: exchange.anchor,
        reference: exchange.reference,
        data,
        signature: exchange.signature,
    };
    assert(whole@ == with_entities(before, section as int, entities));
    let done = settle(whole, section);
    let bytes = exchange_bytes(&done);
    Ok(PeriodicBodyEditOutput { bytes, resize })
}

/// Why a row of a file cannot be resized, if it cannot.
pub open spec fn row_edit_fault(
    input: Seq<u8>,
    rows: Seq<Vec<InstancePattern>>,
    index: usize,
    count: usize,
    anchor: PatternAnchor,
    steps: HalfSteps,
) -> Option<SectionError> {
    match reading(input) {
        Err(error) => Some(SectionError::Read(error)),
        Ok((exchange, _)) => match located(rows, index as int, 0) {
            None => Some(SectionError::NotFound),
            Some((section, place)) => if section >= exchange.data.len() {
                Some(SectionError::NotFound)
            } else {
                match anchored_fault(
                    exchange.data[section].entities,
                    rows[section]@[place],
                    count,
                    anchor,
                    steps,
                ) {
                    Some(error) => Some(SectionError::Row(error)),
                    None => None,
                }
            },
        },
    }
}

/// Whether a file is another in which one row has been resized.
pub open spec fn is_row_edit(
    input: Seq<u8>,
    rows: Seq<Vec<InstancePattern>>,
    index: usize,
    count: usize,
    anchor: PatternAnchor,
    steps: HalfSteps,
    result: ExchangeView,
    stats: PatternResizeStats,
) -> bool {
    let exchange = reading(input)->Ok_0.0;
    let (section, place) = located(rows, index as int, 0)->Some_0;
    exists|entities: Seq<EntityView>| #[trigger]
        is_row_resized(
            exchange.data[section].entities,
            rows[section]@[place],
            count,
            anchor,
            steps,
            entities,
            stats,
        ) && result == settled(with_entities(exchange, section, entities), section)
}

/// Resizes one of the rows that were found in the sections of a file.
pub fn resize_linear_pattern_bytes(
    input: &[u8],
    rows: &Vec<Vec<InstancePattern>>,
    pattern_index: usize,
    new_count: usize,
    anchor: PatternAnchor,
    steps: &HalfSteps,
) -> (out: Result<(Exchange, PatternResizeStats), SectionError>)
    ensures
        match out {
            Err(error) => row_edit_fault(
                input@,
                rows@,
                pattern_index,
                new_count,
                anchor,
                *steps,
            ) == Some(error),
            Ok((exchange, stats)) => {
                &&& row_edit_fault(input@, rows@, pattern_index, new_count, anchor, *steps) is None
                &&& is_row_edit(
                    input@,
                    rows@,
                    pattern_index,
                    new_count,
                    anchor,
                    *steps,
                    exchange@,
                    stats,
                )
                &&& !has_optional_sections(exchange@)
            },
        },
{
    let exchange = match read_exchange(input) {
        Err(error) => {
            return Err(SectionError::Read(error));
        },
        Ok((exchange, _)) => exchange,
    };
    let ghost before = exchange@;
    let (section, place) = match find_located(rows, pattern_index) {
        Some(found) => found,
        None => {
            return Err(SectionError::NotFound);
        },
    };
    if section >= exchange.data.len() {
        return Err(SectionError::NotFound);
    }
    let mut data = exchange.data;
    let ghost start = data@;
    let mut edited = data.remove(section);
    assert(before.data[section as int] == start[section as int]@);
    let resize = match resize_filled_linear_pattern(
        &mut edited.entities,
        &rows[section][place],
        new_count,
        anchor,
        steps,
    ) {
        Ok(resize) => resize,
        Err(error) => {
            return Err(SectionError::Row(error));
        },
    };
    let ghost entities = entities_view(edited.entities@);
    data.insert(section, edited);
    assert(sections_view(data@) =~= before.data.update(
        section as int,
        SectionView { meta: before.data[section as int].meta, entities },
    ));
    let whole = Exchange {
        header: exchange.header,
        anchor: exchange.anchor,
        reference: exchange.reference,
        data,
        signature: exchange.signature,
    };
    assert(whole@ == with_entities(before, section as int, entities));
    let done = settle(whole, section);
    Ok((done, resize))
}

/// What resizing a row gives, with what is found in the file afterwards.
pub fn finish_row_edit(
    exchange: &Exchange,
    resize: PatternResizeStats,
    patterns: Vec<InstancePattern>,
    periodic_bodies: Vec<PeriodicBodyPattern>,
    count_parameters: Vec<RecoveredCountParameter>,
) -> (out: PatternEditOutput)
    requires
        !has_optional_sections(exchange@),
    ensures
        out.bytes@ == encode_utf8(exchange_text(exchange@)),
        out.resize == resize,
        out.patterns == patterns,
        out.periodic_bodies == periodic_bodies,
        out.count_parameters == count_parameters,
        audits(out.compatibility, all_section_records(exchange@.data)),
{
    let compatibility = audit_exchange_compatibility(exchange);
    let bytes = exchange_bytes(exchange);
    PatternEditOutput { bytes, resize, patterns, periodic_bodies, count_parameters, compatibility }
}

/// A solid whose rows are counted from another on.
pub open spec fn is_shifted(a: PeriodicBodyPattern, b: PeriodicBodyPattern, offset: int) -> bool {
    &&& b.solid_id == a.solid_id
    &&& b.axis == a.axis
    &&& b.pitch == a.pitch
    &&& b.sites == a.sites
    &&& b.coupled_instance_patterns@.len() == a.coupled_instance_patterns@.len()
    &&& forall|i: int|
        0 <= i < a.coupled_instance_patterns@.len() ==> #[trigger] b.coupled_instance_patterns@[i]
            == a.coupled_instance_patterns@[i] + offset
    &&& b.repeat_face_families == a.repeat_face_families
    &&& b.repeat_faces == a.repeat_faces
    &&& b.faces_per_site == a.faces_per_site
    &&& b.stretch_face_ids == a.stretch_face_ids
    &&& b.fixed_face_ids == a.fixed_face_ids
    &&& b.total_faces == a.total_faces
    &&& b.max_residual == a.max_residual
}

/// Whether the rows that a solid goes with are among some.
pub open spec fn rows_exist(body: PeriodicBodyPattern, rows: int) -> bool {
    forall|i: int|
        0 <= i < body.coupled_instance_patterns@.len() ==> (#[trigger]
        body.coupled_instance_patterns@[i]) < rows
}

fn shift_body(body: PeriodicBodyPattern, offset: usize) -> (out: PeriodicBodyPattern)
    requires
        forall|i: int|
            0 <= i < body.coupled_instance_patterns@.len() ==> (#[trigger]
            body.coupled_instance_patterns@[i]) + offset <= usize::MAX,
    ensures
        is_shifted(body, out, offset as int),
{
    let ghost old_list = body.coupled_instance_patterns@;
    let mut list: Vec<usize> = Vec::new();
    let mut i: usize = 0;
    while i < body.coupled_instance_patterns.len()
        invariant
            i <= body.coupled_instance_patterns.len(),
            old_list == body.coupled_instance_patterns@,
            list@.len() == i,
            forall|k: int|
                0 <= k < old_list.len() ==> (#[trigger] old_list[k]) + offset <= usize::MAX,
            forall|k: int| 0 <= k < i ==> #[trigger] list@[k] == old_list[k] + offset,
        decreases body.coupled_instance_patterns.len() - i,
    {
        assert(old_list[i as int] + offset <= usize::MAX);
        list.push(body.coupled_instance_patterns[i] + offset);
        i = i + 1;
    }
    PeriodicBodyPattern {
        solid_id: body.solid_id,
        axis: body.axis,
        pitch: body.pitch,
        sites: body.sites,
        coupled_instance_patterns: list,
        repeat_face_families: body.repeat_face_families,
        repeat_faces: body.repeat_faces,
        faces_per_site: body.faces_per_site,
        stretch_face_ids: body.stretch_face_ids,
        fixed_face_ids: body.fixed_face_ids,
        total_faces: body.total_faces,
        max_residual: body.max_residual,
    }
}

/// Joins what was found in a further section to what was found before. The rows of its solids
/// are counted on.
pub fn join_section(
    patterns: &mut Vec<InstancePattern>,
    bodies: &mut Vec<PeriodicBodyPattern>,
    more_patterns: Vec<InstancePattern>,
    more_bodies: Vec<PeriodicBodyPattern>,
)
    requires
        forall|i: int|
            0 <= i < more_bodies@.len() ==> rows_exist(
                #[trigger] more_bodies@[i],
                more_patterns@.len() as int,
            ),
    ensures
        final(patterns)@ == old(patterns)@ + more_patterns@,
        final(bodies)@.len() == old(bodies)@.len() + more_bodies@.len(),
        forall|i: int|
            0 <= i < old(bodies)@.len() ==> #[trigger] final(bodies)@[i] == old(bodies)@[i],
        forall|i: int|
            0 <= i < more_bodies@.len() ==> #[trigger] is_shifted(
                more_bodies@[i],
                final(bodies)@[old(bodies)@.len() + i],
                old(patterns)@.len() as int,
            ),
{
    let offset: usize = patterns.len();
    let ghost before = bodies@;
    let ghost all = more_bodies@;
    let mut new_patterns = more_patterns;
    patterns.append(&mut new_patterns);
    assert(patterns.len() <= usize::MAX);
    let mut rest = more_bodies;
    let ghost rows = patterns@.len() - offset;
    while rest.len() > 0
        invariant
            offset + rows <= usize::MAX,
            rest@.len() <= all.len(),
            rest@ == all.skip(all.len() - rest@.len()),
            forall|i: int| 0 <= i < all.len() ==> rows_exist(#[trigger] all[i], rows),
            bodies@.len() == before.len() + all.len() - rest@.len(),
            forall|i: int| 0 <= i < before.len() ==> #[trigger] bodies@[i] == before[i],
            forall|i: int|
                0 <= i < all.len() - rest@.len() ==> #[trigger] is_shifted(
                    all[i],
                    bodies@[before.len() + i],
                    offset as int,
                ),
        decreases rest.len(),
    {
        let ghost n = all.len() - rest@.len();
        assert(rest@[0] == all[n]);
        let body = rest.remove(0);
        assert(rest@ =~= all.skip(n + 1));
        assert(rows_exist(all[n], rows));
        let moved = shift_body(body, offset);
        let ghost was = bodies@;
        let ghost view = moved;
        bodies.push(moved);
        assert(is_shifted(all[n], bodies@[before.len() + n], offset as int));
        assert forall|i: int| 0 <= i < n + 1 implies #[trigger] is_shifted(
            all[i],
            bodies@[before.len() + i],
            offset as int,
        ) by {
            if i < n {
                assert(is_shifted(all[i], was[before.len() + i], offset as int));
                assert(bodies@[before.len() + i] == was[before.len() + i]);
            }
        }
    }
}

} // verus!
