//! What is found in a file as a whole.

use std::collections::HashMap;
use vstd::prelude::*;

use crate::ast::{entities_view, EntityInstance, EntityView, Exchange, SectionView};
use crate::body_detection::{find_solids, solids_of};
use crate::cad_recovery::RecoveredSolidExtrusion;
use crate::chain_detection::{are_detected, detect_periodic_chains, ChainEvidence};
use crate::chain_reading::FaceForm;
use crate::formed_sheet::{
    detect_formed_sheet_evidence, sheets_of, sheets_view, FormedSheetEvidence, SheetCylinderPair,
    SheetMeasure, SheetView,
};
use crate::graph::{
    build_index, find_record, find_typed, indexes, nth_entity_ref, nth_entity_ref_list, nth_ref,
    nth_ref_list, record_at, typed_record,
};
use crate::read::{read_exchange, reading, StepError};
use crate::resize::PeriodicChainPattern;
use crate::sets::list_contains;
use crate::text::same_text;

verus! {

/// Why nothing is reported of a file.
#[derive(Debug, Clone, Copy, PartialEq, Eq, Structural)]
pub enum ReportError {
    Read(StepError),
    /// What was measured is not given for each section and each of its solids and their faces.
    NotMeasured,
}

/// The faces of a solid with a shell.
pub open spec fn shell_faces(entities: Seq<EntityView>, solid: u64) -> Seq<u64> {
    match record_at(entities, solid) {
        None => Seq::empty(),
        Some(record) => match nth_ref(record, 1) {
            None => Seq::empty(),
            Some(shell) => match record_at(entities, shell) {
                Some(found) if found.name == "CLOSED_SHELL"@ || found.name == "OPEN_SHELL"@ => {
                    match nth_ref_list(found, 1) {
                        Some(faces) => faces,
                        None => Seq::empty(),
                    }
                },
                _ => Seq::empty(),
            },
        },
    }
}

/// Whether a face lies on a surface of a type.
pub open spec fn lies_on(entities: Seq<EntityView>, face: u64, name: Seq<char>) -> bool {
    match typed_record(entities, face, "ADVANCED_FACE"@) {
        None => false,
        Some(record) => match nth_ref(record, 2) {
            None => false,
            Some(surface) => typed_record(entities, surface, name) is Some,
        },
    }
}

/// How many of the first `n` faces lie on surfaces of a type.
pub open spec fn number_on(
    entities: Seq<EntityView>,
    faces: Seq<u64>,
    name: Seq<char>,
    n: nat,
) -> nat
    decreases n,
{
    if n == 0 {
        0
    } else {
        number_on(entities, faces, name, (n - 1) as nat) + (if lies_on(
            entities,
            faces[n - 1],
            name,
        ) {
            1nat
        } else {
            0nat
        })
    }
}

/// Whether a pair is made of two cylindrical faces of a solid.
pub open spec fn is_pair_of(
    entities: Seq<EntityView>,
    faces: Seq<u64>,
    pair: SheetCylinderPair,
) -> bool {
    &&& faces.contains(pair.inner_face_id)
    &&& faces.contains(pair.outer_face_id)
    &&& lies_on(entities, pair.inner_face_id, "CYLINDRICAL_SURFACE"@)
    &&& lies_on(entities, pair.outer_face_id, "CYLINDRICAL_SURFACE"@)
}

/// Whether a sheet was measured on the faces of a solid.
pub open spec fn fits_solid(entities: Seq<EntityView>, solid: u64, measure: SheetMeasure) -> bool {
    let faces = shell_faces(entities, solid);
    &&& measure.solid_id == solid
    &&& measure.cylinders <= number_on(entities, faces, "CYLINDRICAL_SURFACE"@, faces.len())
    &&& measure.planes <= number_on(entities, faces, "PLANE"@, faces.len())
    &&& forall|i: int|
        0 <= i < measure.pairs@.len() ==> is_pair_of(entities, faces, #[trigger] measure.pairs@[i])
}

/// Whether sheets were measured on the solids of a section, in the order of the file.
pub open spec fn fits_section(entities: Seq<EntityView>, measures: Seq<SheetMeasure>) -> bool {
    let solids = solids_of(entities, entities.len());
    &&& measures.len() == solids.len()
    &&& forall|i: int|
        0 <= i < solids.len() ==> fits_solid(entities, solids[i], #[trigger] measures[i])
}

/// Whether sheets were measured on all solids of a file.
pub open spec fn fits_sheets(data: Seq<SectionView>, sections: Seq<Vec<SheetMeasure>>) -> bool {
    &&& sections.len() == data.len()
    &&& forall|i: int| 0 <= i < data.len() ==> fits_section(
        (#[trigger] data[i]).entities,
        sections[i]@,
    )
}

fn find_shell_faces(
    entities: &Vec<EntityInstance>,
    index: &HashMap<u64, usize>,
    solid: u64,
) -> (out: Vec<u64>)
    requires
        indexes(index@, entities_view(entities@)),
    ensures
        out@ == shell_faces(entities_view(entities@), solid),
{
    match find_record(entities, index, solid) {
        None => Vec::new(),
        Some(record) => match nth_entity_ref(record, 1) {
            None => Vec::new(),
            Some(shell) => match find_record(entities, index, shell) {
                None => Vec::new(),
                Some(found) => if same_text(found.name.as_str(), "CLOSED_SHELL") || same_text(
                    found.name.as_str(),
                    "OPEN_SHELL",
                ) {
                    match nth_entity_ref_list(found, 1) {
                        Some(faces) => faces,
                        None => Vec::new(),
                    }
                } else {
                    Vec::new()
                },
            },
        },
    }
}

fn find_lies_on(
    entities: &Vec<EntityInstance>,
    index: &HashMap<u64, usize>,
    face: u64,
    name: &str,
) -> (out: bool)
    requires
        indexes(index@, entities_view(entities@)),
    ensures
        out == lies_on(entities_view(entities@), face, name@),
{
    match find_typed(entities, index, face, "ADVANCED_FACE") {
        None => false,
        Some(record) => match nth_entity_ref(record, 2) {
            None => false,
            Some(surface) => find_typed(entities, index, surface, name).is_some(),
        },
    }
}

fn count_on(
    entities: &Vec<EntityInstance>,
    index: &HashMap<u64, usize>,
    faces: &Vec<u64>,
    name: &str,
) -> (out: usize)
    requires
        indexes(index@, entities_view(entities@)),
    ensures
        out == number_on(entities_view(entities@), faces@, name@, faces@.len()),
{
    let mut out: usize = 0;
    let mut i: usize = 0;
    while i < faces.len()
        invariant
            out <= i <= faces.len(),
            indexes(index@, entities_view(entities@)),
            out == number_on(entities_view(entities@), faces@, name@, i as nat),
        decreases faces.len() - i,
    {
        if find_lies_on(entities, index, faces[i], name) {
            out = out + 1;
        }
        i = i + 1;
    }
    out
}

fn find_solid_fit(
    entities: &Vec<EntityInstance>,
    index: &HashMap<u64, usize>,
    solid: u64,
    measure: &SheetMeasure,
) -> (out: bool)
    requires
        indexes(index@, entities_view(entities@)),
    ensures
        out == fits_solid(entities_view(entities@), solid, *measure),
{
    let ghost views = entities_view(entities@);
    let faces = find_shell_faces(entities, index, solid);
    if measure.solid_id != solid || measure.cylinders > count_on(
        entities,
        index,
        &faces,
        "CYLINDRICAL_SURFACE",
    ) || measure.planes > count_on(entities, index, &faces, "PLANE") {
        return false;
    }
    let mut i: usize = 0;
    while i < measure.pairs.len()
        invariant
            i <= measure.pairs.len(),
            views == entities_view(entities@),
            indexes(index@, views),
            faces@ == shell_faces(views, solid),
            forall|k: int| 0 <= k < i ==> is_pair_of(views, faces@, #[trigger] measure.pairs@[k]),
        decreases measure.pairs.len() - i,
    {
        let pair = measure.pairs[i];
        if !list_contains(&faces, pair.inner_face_id) || !list_contains(
            &faces,
            pair.outer_face_id,
        ) || !find_lies_on(entities, index, pair.inner_face_id, "CYLINDRICAL_SURFACE")
            || !find_lies_on(entities, index, pair.outer_face_id, "CYLINDRICAL_SURFACE") {
            assert(!is_pair_of(views, faces@, measure.pairs@[i as int]));
            return false;
        }
        i = i + 1;
    }
    true
}

fn find_section_fit(entities: &Vec<EntityInstance>, measures: &Vec<SheetMeasure>) -> (out: bool)
    ensures
        out == fits_section(entities_view(entities@), measures@),
{
    let ghost views = entities_view(entities@);
    let index = build_index(entities);
    let solids = find_solids(entities);
    assert(views.len() == entities@.len());
    if measures.len() != solids.len() {
        return false;
    }
    let mut k: usize = 0;
    while k < solids.len()
        invariant
            k <= solids.len(),
            views == entities_view(entities@),
            indexes(index@, views),
            solids@ == solids_of(views, views.len()),
            measures@.len() == solids@.len(),
            forall|j: int|
                0 <= j < k ==> fits_solid(views, solids@[j], #[trigger] measures@[j]),
        decreases solids.len() - k,
    {
        if !find_solid_fit(entities, &index, solids[k], &measures[k]) {
            assert(!fits_solid(views, solids@[k as int], measures@[k as int]));
            return false;
        }
        k = k + 1;
    }
    true
}

fn find_fit(exchange: &Exchange, sections: &Vec<Vec<SheetMeasure>>) -> (out: bool)
    ensures
        out == fits_sheets(exchange@.data, sections@),
{
    let ghost data = exchange@.data;
    if sections.len() != exchange.data.len() {
        return false;
    }
    let mut i: usize = 0;
    while i < sections.len()
        invariant
            i <= sections.len(),
            sections@.len() == data.len(),
            data == exchange@.data,
            forall|k: int|
                0 <= k < i ==> fits_section((#[trigger] data[k]).entities, sections@[k]@),
        decreases sections.len() - i,
    {
        assert(data[i as int] == exchange.data@[i as int]@);
        if !find_section_fit(&exchange.data[i].entities, &sections[i]) {
            assert(!fits_section(data[i as int].entities, sections@[i as int]@));
            return false;
        }
        i = i + 1;
    }
    true
}

/// The sheets of the first `n` sections, one section after the other.
pub open spec fn sheets_in(sections: Seq<Vec<SheetMeasure>>, n: nat) -> Seq<SheetView>
    decreases n,
{
    if n == 0 {
        Seq::empty()
    } else {
        sheets_in(sections, (n - 1) as nat) + sheets_of(
            sections[n - 1]@,
            sections[n - 1]@.len(),
        )
    }
}

/// Finds the solids of a file that look like formed sheets. What was measured is given for each
/// section and each of its solids, in the order of the file.
pub fn detect_formed_sheet_evidence_bytes(
    input: &[u8],
    sections: &Vec<Vec<SheetMeasure>>,
) -> (out: Result<Vec<FormedSheetEvidence>, ReportError>)
    ensures
        match (reading(input@), out) {
            (Err(fault), Err(error)) => error == ReportError::Read(fault),
            (Ok((exchange, _)), Err(error)) => error == ReportError::NotMeasured && !fits_sheets(
                exchange.data,
                sections@,
            ),
            (Ok((exchange, _)), Ok(sheets)) => fits_sheets(exchange.data, sections@) && sheets_view(
                sheets@,
            ) == sheets_in(sections@, sections@.len()),
            _ => false,
        },
{
    match read_exchange(input) {
        Err(error) => {
            return Err(ReportError::Read(error));
        },
        Ok((exchange, _)) => {
            if !find_fit(&exchange, sections) {
                return Err(ReportError::NotMeasured);
            }
        },
    }
    let mut out: Vec<FormedSheetEvidence> = Vec::new();
    let mut i: usize = 0;
    assert(sheets_view(out@) =~= Seq::empty());
    while i < sections.len()
        invariant
            i <= sections.len(),
            sheets_view(out@) == sheets_in(sections@, i as nat),
        decreases sections.len() - i,
    {
        let ghost before = out@;
        let mut more = detect_formed_sheet_evidence(&sections[i]);
        let ghost added = more@;
        out.append(&mut more);
        assert(out@ =~= before + added);
        assert(sheets_view(out@) =~= sheets_view(before) + sheets_view(added));
        i = i + 1;
    }
    Ok(out)
}

/// What was measured of the solids of a section that may hold chains.
#[derive(Debug)]
pub struct SectionEvidence {
    pub forms: HashMap<u64, FaceForm>,
    pub solids: Vec<ChainEvidence>,
}

/// Whether chains were measured on all solids of a file.
pub open spec fn fits_chains(data: Seq<SectionView>, sections: Seq<SectionEvidence>) -> bool {
    &&& sections.len() == data.len()
    &&& forall|i: int|
        0 <= i < data.len() ==> sections[i].solids@.len() == solids_of(
            (#[trigger] data[i]).entities,
            data[i].entities.len(),
        ).len()
}

/// The chains of the first `n` sections, one section after the other.
pub open spec fn joined(parts: Seq<Seq<PeriodicChainPattern>>, n: nat) -> Seq<PeriodicChainPattern>
    decreases n,
{
    if n == 0 {
        Seq::empty()
    } else {
        joined(parts, (n - 1) as nat) + parts[n - 1]
    }
}

proof fn lemma_joined_before(parts: Seq<Seq<PeriodicChainPattern>>, more: Seq<PeriodicChainPattern>, n: nat)
    requires
        n <= parts.len(),
    ensures
        joined(parts.push(more), n) == joined(parts, n),
    decreases n,
{
    if n > 0 {
        lemma_joined_before(parts, more, (n - 1) as nat);
    }
}

/// Whether each section has its chains in order.
pub open spec fn are_found(
    data: Seq<SectionView>,
    sections: Seq<SectionEvidence>,
    n: int,
    parts: Seq<Seq<PeriodicChainPattern>>,
) -> bool {
    &&& parts.len() == n
    &&& forall|i: int|
        0 <= i < n ==> are_detected(
            data[i].entities,
            sections[i].forms@,
            sections[i].solids@,
            #[trigger] parts[i],
        )
}

/// Finds the chains of a file. What was measured is given for each section and each of its
/// solids, in the order of the file.
pub fn detect_periodic_chains_bytes(
    input: &[u8],
    sections: Vec<SectionEvidence>,
) -> (out: Result<Vec<PeriodicChainPattern>, ReportError>)
    ensures
        match (reading(input@), out) {
            (Err(fault), Err(error)) => error == ReportError::Read(fault),
            (Ok((exchange, _)), Err(error)) => error == ReportError::NotMeasured && !fits_chains(
                exchange.data,
                sections@,
            ),
            (Ok((exchange, _)), Ok(chains)) => fits_chains(exchange.data, sections@) && exists|
                parts: Seq<Seq<PeriodicChainPattern>>,
            | #[trigger]
                are_found(exchange.data, sections@, sections@.len() as int, parts) && chains@
                    == joined(parts, parts.len()),
            _ => false,
        },
{
    let exchange = match read_exchange(input) {
        Err(error) => {
            return Err(ReportError::Read(error));
        },
        Ok((exchange, _)) => exchange,
    };
    let ghost data = exchange@.data;
    let ghost all = sections@;
    if sections.len() != exchange.data.len() {
        return Err(ReportError::NotMeasured);
    }
    let mut rest = sections;
    let mut out: Vec<PeriodicChainPattern> = Vec::new();
    let ghost mut parts: Seq<Seq<PeriodicChainPattern>> = Seq::empty();
    let mut n: usize = 0;
    while n < exchange.data.len()
        invariant
            n <= exchange.data@.len(),
            data == exchange@.data,
            all == sections@,
            reading(input@) matches Ok((read, _)) && read == exchange@,
            all.len() == data.len(),
            parts.len() == n,
            rest@ == all.skip(n as int),
            are_found(data, all, n as int, parts),
            forall|i: int|
                0 <= i < n ==> all[i].solids@.len() == solids_of(
                    (#[trigger] data[i]).entities,
                    data[i].entities.len(),
                ).len(),
            out@ == joined(parts, parts.len()),
        decreases exchange.data.len() - n,
    {
        let section = rest.remove(0);
        assert(section == all[n as int]);
        assert(rest@ =~= all.skip(n + 1));
        assert(data[n as int] == exchange.data@[n as int]@);
        assert(data[n as int].entities.len() == exchange.data@[n as int].entities@.len());
        let mut more = match detect_periodic_chains(
            &exchange.data[n].entities,
            &section.forms,
            section.solids,
        ) {
            Some(more) => more,
            None => {
                assert(!fits_chains(data, all));
                return Err(ReportError::NotMeasured);
            },
        };
        let ghost added = more@;
        let ghost before = out@;
        out.append(&mut more);
        proof {
            lemma_joined_before(parts, added, parts.len());
            let longer = parts.push(added);
            assert(out@ =~= before + added);
            assert(are_found(data, all, n + 1, longer)) by {
                assert forall|i: int| 0 <= i < longer.len() implies are_detected(
                    data[i].entities,
                    all[i].forms@,
                    all[i].solids@,
                    #[trigger] longer[i],
                ) by {
                    if i < parts.len() {
                        assert(longer[i] == parts[i]);
                    }
                }
            }
            parts = longer;
        }
        n = n + 1;
    }
    assert(are_found(data, all, all.len() as int, parts));
    Ok(out)
}

/// Whether extrusions are given for each section and name solids of it.
pub open spec fn fits_extrusions(
    data: Seq<SectionView>,
    found: Seq<Vec<RecoveredSolidExtrusion>>,
) -> bool {
    &&& found.len() == data.len()
    &&& forall|i: int, j: int|
        0 <= i < data.len() && 0 <= j < found[i]@.len() ==> solids_of(
            data[i].entities,
            data[i].entities.len(),
        ).contains((#[trigger] found[i]@[j]).solid_id)
}

/// The extrusions of the first `n` sections, one section after the other.
pub open spec fn extrusions_in(found: Seq<Vec<RecoveredSolidExtrusion>>, n: nat) -> Seq<
    RecoveredSolidExtrusion,
>
    decreases n,
{
    if n == 0 {
        Seq::empty()
    } else {
        extrusions_in(found, (n - 1) as nat) + found[n - 1]@
    }
}

fn find_extrusion_fit(
    entities: &Vec<EntityInstance>,
    found: &Vec<RecoveredSolidExtrusion>,
) -> (out: bool)
    ensures
        out == forall|j: int|
            0 <= j < found@.len() ==> solids_of(
                entities_view(entities@),
                entities_view(entities@).len(),
            ).contains((#[trigger] found@[j]).solid_id),
{
    let ghost views = entities_view(entities@);
    let solids = find_solids(entities);
    assert(views.len() == entities@.len());
    let mut i: usize = 0;
    while i < found.len()
        invariant
            i <= found.len(),
            solids@ == solids_of(views, views.len()),
            views == entities_view(entities@),
            forall|j: int|
                0 <= j < i ==> solids_of(views, views.len()).contains(
                    (#[trigger] found@[j]).solid_id,
                ),
        decreases found.len() - i,
    {
        if !list_contains(&solids, found[i].solid_id) {
            assert(!solids_of(views, views.len()).contains(found@[i as int].solid_id));
            return false;
        }
        i = i + 1;
    }
    true
}

/// Lists the extruded solids of a file. What was recovered is given for each section, in the
/// order of the file.
pub fn detect_solid_extrusions_bytes(
    input: &[u8],
    found: Vec<Vec<RecoveredSolidExtrusion>>,
) -> (out: Result<Vec<RecoveredSolidExtrusion>, ReportError>)
    ensures
        match (reading(input@), out) {
            (Err(fault), Err(error)) => error == ReportError::Read(fault),
            (Ok((exchange, _)), Err(error)) => error == ReportError::NotMeasured
                && !fits_extrusions(exchange.data, found@),
            (Ok((exchange, _)), Ok(solids)) => fits_extrusions(exchange.data, found@) && solids@
                == extrusions_in(found@, found@.len()),
            _ => false,
        },
{
    let exchange = match read_exchange(input) {
        Err(error) => {
            return Err(ReportError::Read(error));
        },
        Ok((exchange, _)) => exchange,
    };
    let ghost data = exchange@.data;
    let ghost all = found@;
    if found.len() != exchange.data.len() {
        return Err(ReportError::NotMeasured);
    }
    let mut rest = found;
    let mut out: Vec<RecoveredSolidExtrusion> = Vec::new();
    let mut n: usize = 0;
    while n < exchange.data.len()
        invariant
            n <= exchange.data@.len(),
            data == exchange@.data,
            all == found@,
            reading(input@) matches Ok((read, _)) && read == exchange@,
            all.len() == data.len(),
            rest@ == all.skip(n as int),
            forall|i: int, j: int|
                0 <= i < n && 0 <= j < all[i]@.len() ==> solids_of(
                    data[i].entities,
                    data[i].entities.len(),
                ).contains((#[trigger] all[i]@[j]).solid_id),
            out@ == extrusions_in(all, n as nat),
        decreases exchange.data.len() - n,
    {
        let mut section = rest.remove(0);
        assert(section@ == all[n as int]@);
        assert(rest@ =~= all.skip(n + 1));
        assert(data[n as int] == exchange.data@[n as int]@);
        let ghost views = data[n as int].entities;
        if !find_extrusion_fit(&exchange.data[n].entities, &section) {
            proof {
                let j = choose|j: int|
                    0 <= j < section@.len() && !solids_of(views, views.len()).contains(
                        (#[trigger] section@[j]).solid_id,
                    );
                assert(!solids_of(views, views.len()).contains(all[n as int]@[j].solid_id));
                assert(!fits_extrusions(data, all));
            }
            return Err(ReportError::NotMeasured);
        }
        let ghost before = out@;
        out.append(&mut section);
        assert(out@ =~= before + all[n as int]@);
        n = n + 1;
    }
    Ok(out)
}

} // verus!
