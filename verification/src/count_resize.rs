//! Changing a number of sites together with all that it governs.

use vstd::prelude::*;
use vstd::utf8::encode_utf8;

use crate::ast::{sections_view, EntityView, Exchange, ExchangeView, SectionView};
use crate::clean::{mapped, renumber_sections, with_data};
use crate::compatibility::{
    all_section_records, audit_exchange_compatibility, audits, CompatibilityAudit,
};
use crate::intern::{intern_section, interned};
use crate::parameters::{opposite, RecoveredCountParameter, SIGN};
use crate::patterns::{InstancePattern, PatternAnchor, PatternResizeStats};
use crate::periodic_bodies::{families_view, PeriodicBodyPattern, PeriodicFaceFamily};
use crate::periodic_resize::PeriodicBodyResizeStats;
use crate::read::{decode_input, decoded, parse_exchange, parsed, read_exchange, reading, StepError};
use crate::renumber::renumbered;
use crate::resize::{
    exchange_bytes, half_way, mid_count, only_at, reverse_list, CountAnchor, EditError,
};
use crate::write::{exchange_text, has_optional_sections};

verus! {

/// What changing a number of sites has changed.
#[derive(Debug)]
pub struct CountResizeStats {
    pub old_sites: usize,
    pub new_sites: usize,
    pub instances_per_site: usize,
    pub anchor: CountAnchor,
    pub body_resizes: Vec<PeriodicBodyResizeStats>,
    pub pattern_resizes: Vec<PatternResizeStats>,
}

/// What changing a number of sites gives.
#[derive(Debug)]
pub struct CountEditOutput {
    pub bytes: Vec<u8>,
    pub resize: CountResizeStats,
    pub patterns: Vec<InstancePattern>,
    pub periodic_bodies: Vec<PeriodicBodyPattern>,
    pub count_parameters: Vec<RecoveredCountParameter>,
    pub compatibility: CompatibilityAudit,
}

/// What resizing a row gives.
#[derive(Debug)]
pub struct PatternEditOutput {
    pub bytes: Vec<u8>,
    pub resize: PatternResizeStats,
    pub patterns: Vec<InstancePattern>,
    pub periodic_bodies: Vec<PeriodicBodyPattern>,
    pub count_parameters: Vec<RecoveredCountParameter>,
    pub compatibility: CompatibilityAudit,
}

/// What resizing a solid gives.
#[derive(Debug)]
pub struct PeriodicBodyEditOutput {
    pub bytes: Vec<u8>,
    pub resize: PeriodicBodyResizeStats,
}

/// A family of faces seen from the other end.
pub open spec fn is_family_reverse(a: PeriodicFaceFamily, b: PeriodicFaceFamily) -> bool {
    &&& b.face_ids@ == a.face_ids@.reverse()
    &&& b.phase == a.phase
    &&& b.span == a.span
    &&& b.orthogonal_center == a.orthogonal_center
    &&& b.bounds == a.bounds
    &&& b.edges == a.edges
    &&& b.max_residual == a.max_residual
}

/// A solid seen from its other end.
pub open spec fn is_body_reverse(a: PeriodicBodyPattern, b: PeriodicBodyPattern) -> bool {
    &&& b.solid_id == a.solid_id
    &&& forall|i: int| 0 <= i < 3 ==> #[trigger] b.axis@[i] == opposite(a.axis@[i])
    &&& b.pitch == a.pitch
    &&& b.sites == a.sites
    &&& b.coupled_instance_patterns@ == a.coupled_instance_patterns@
    &&& b.repeat_face_families@.len() == a.repeat_face_families@.len()
    &&& forall|i: int|
        0 <= i < a.repeat_face_families@.len() ==> is_family_reverse(
            #[trigger] a.repeat_face_families@[i],
            b.repeat_face_families@[i],
        )
    &&& b.repeat_faces == a.repeat_faces
    &&& b.faces_per_site == a.faces_per_site
    &&& b.stretch_face_ids@ == a.stretch_face_ids@
    &&& b.fixed_face_ids@ == a.fixed_face_ids@
    &&& b.total_faces == a.total_faces
    &&& b.max_residual == a.max_residual
}

fn turn(bits: u64) -> (out: u64)
    ensures
        out == opposite(bits),
{
    if bits >= SIGN {
        bits - SIGN
    } else {
        bits + SIGN
    }
}

/// A solid seen from its other end.
pub fn reverse_periodic_body(body: PeriodicBodyPattern) -> (out: PeriodicBodyPattern)
    ensures
        is_body_reverse(body, out),
{
    let axis = [turn(body.axis[0]), turn(body.axis[1]), turn(body.axis[2])];
    let ghost all = body.repeat_face_families@;
    let mut rest = reverse_list(body.repeat_face_families);
    let mut families: Vec<PeriodicFaceFamily> = Vec::new();
    assert(rest@ =~= all.skip(0).reverse());
    while rest.len() > 0
        invariant
            families@.len() + rest@.len() == all.len(),
            rest@ == all.skip(families@.len() as int).reverse(),
            forall|i: int|
                0 <= i < families@.len() ==> is_family_reverse(#[trigger] all[i], families@[i]),
        decreases rest.len(),
    {
        let ghost before = rest@;
        let ghost done = families@.len() as int;
        let family = rest.pop().unwrap();
        assert(family == all[done]);
        assert(before.drop_last() =~= all.skip(done + 1).reverse());
        families.push(
            PeriodicFaceFamily {
                face_ids: reverse_list(family.face_ids),
                phase: family.phase,
                span: family.span,
                orthogonal_center: family.orthogonal_center,
                bounds: family.bounds,
                edges: family.edges,
                max_residual: family.max_residual,
            },
        );
    }
    PeriodicBodyPattern {
        solid_id: body.solid_id,
        axis,
        pitch: body.pitch,
        sites: body.sites,
        coupled_instance_patterns: body.coupled_instance_patterns,
        repeat_face_families: families,
        repeat_faces: body.repeat_faces,
        faces_per_site: body.faces_per_site,
        stretch_face_ids: body.stretch_face_ids,
        fixed_face_ids: body.fixed_face_ids,
        total_faces: body.total_faces,
        max_residual: body.max_residual,
    }
}

/// Seen from the other end twice, a solid is what it was.
pub proof fn law_reverse_body_twice(
    a: PeriodicBodyPattern,
    b: PeriodicBodyPattern,
    c: PeriodicBodyPattern,
)
    requires
        is_body_reverse(a, b),
        is_body_reverse(b, c),
    ensures
        c.axis@ == a.axis@,
        c.repeat_face_families@.len() == a.repeat_face_families@.len(),
        forall|i: int|
            0 <= i < a.repeat_face_families@.len() ==> (
            #[trigger] c.repeat_face_families@[i]).face_ids@ == a.repeat_face_families@[i].face_ids@,
{
    assert forall|i: int| 0 <= i < 3 implies #[trigger] c.axis@[i] == a.axis@[i] by {
        assert(b.axis@[i] == opposite(a.axis@[i]));
    }
    assert(c.axis@ =~= a.axis@);
    assert forall|i: int| 0 <= i < a.repeat_face_families@.len() implies (
    #[trigger] c.repeat_face_families@[i]).face_ids@ == a.repeat_face_families@[i].face_ids@ by {
        assert(is_family_reverse(a.repeat_face_families@[i], b.repeat_face_families@[i]));
        assert(is_family_reverse(b.repeat_face_families@[i], c.repeat_face_families@[i]));
        assert(a.repeat_face_families@[i].face_ids@.reverse().reverse()
            =~= a.repeat_face_families@[i].face_ids@);
    }
}

/// Whether two parameters govern as much.
pub open spec fn same_scope(a: RecoveredCountParameter, b: RecoveredCountParameter) -> bool {
    &&& a.instances_per_site == b.instances_per_site
    &&& a.instance_patterns@.len() == b.instance_patterns@.len()
    &&& a.periodic_bodies@.len() == b.periodic_bodies@.len()
}

/// Whether a parameter is the one that an edit was to leave.
pub open spec fn confirms_count(
    candidate: RecoveredCountParameter,
    sites: usize,
    original: RecoveredCountParameter,
) -> bool {
    candidate.body_grammar_proven && candidate.sites == sites && same_scope(candidate, original)
}

fn is_confirmed(
    candidate: &RecoveredCountParameter,
    sites: usize,
    original: &RecoveredCountParameter,
) -> (out: bool)
    ensures
        out == confirms_count(*candidate, sites, *original),
{
    candidate.body_grammar_proven && candidate.sites == sites && candidate.instances_per_site
        == original.instances_per_site && candidate.instance_patterns.len()
        == original.instance_patterns.len() && candidate.periodic_bodies.len()
        == original.periodic_bodies.len()
}

/// The parameter that a first edit has left. There must be exactly one.
pub fn find_matching_count_parameter(
    parameters: &Vec<RecoveredCountParameter>,
    sites: usize,
    original: &RecoveredCountParameter,
) -> (out: Result<usize, EditError>)
    ensures
        match out {
            Ok(i) => only_at(
                parameters@.len(),
                |j: int| confirms_count(parameters@[j], sites, *original),
                i as int,
            ),
            Err(EditError::NotRediscovered) => forall|j: int|
                0 <= j < parameters@.len() ==> !confirms_count(
                    #[trigger] parameters@[j],
                    sites,
                    *original,
                ),
            Err(error) => error == EditError::Ambiguous && exists|i: int, j: int|
                0 <= i < j < parameters@.len() && confirms_count(
                    #[trigger] parameters@[i],
                    sites,
                    *original,
                ) && confirms_count(#[trigger] parameters@[j], sites, *original),
        },
{
    let ghost holds = |j: int| confirms_count(parameters@[j], sites, *original);
    let mut found: Option<usize> = None;
    let mut i: usize = 0;
    while i < parameters.len()
        invariant
            i <= parameters.len(),
            holds == (|j: int| confirms_count(parameters@[j], sites, *original)),
            match found {
                Some(k) => k < i && holds(k as int) && forall|j: int|
                    0 <= j < i && #[trigger] holds(j) ==> j == k,
                None => forall|j: int| 0 <= j < i ==> !#[trigger] holds(j),
            },
        decreases parameters.len() - i,
    {
        if is_confirmed(&parameters[i], sites, original) {
            assert(holds(i as int));
            if let Some(k) = found {
                assert(confirms_count(parameters@[k as int], sites, *original));
                assert(confirms_count(parameters@[i as int], sites, *original));
                return Err(EditError::Ambiguous);
            }
            found = Some(i);
        } else {
            assert(!holds(i as int));
        }
        i = i + 1;
    }
    match found {
        Some(k) => Ok(k),
        None => {
            assert forall|j: int| 0 <= j < parameters@.len() implies !confirms_count(
                #[trigger] parameters@[j],
                sites,
                *original,
            ) by {
                assert(!holds(j));
            }
            Err(EditError::NotRediscovered)
        },
    }
}

/// A solid that is to be resized: its place in the list of solids, the solid as it is seen from
/// the end that stays, and whether it grows.
#[derive(Debug)]
pub struct BodyStep {
    pub body: usize,
    pub directed: PeriodicBodyPattern,
    pub grows: bool,
}

/// A row that is to be resized, with its place in the list of rows.
#[derive(Debug)]
pub struct RowStep {
    pub row: usize,
    pub pattern: InstancePattern,
}

/// One change of a number of sites that keeps the start or the end: the file, the solids and the
/// rows that are to be resized, in order, and what the resizes so far have changed.
#[derive(Debug)]
pub struct CountEdit {
    pub exchange: Exchange,
    pub original: RecoveredCountParameter,
    pub bodies: Vec<BodyStep>,
    pub rows: Vec<RowStep>,
    pub new_sites: usize,
    pub anchor: CountAnchor,
    pub body_resizes: Vec<PeriodicBodyResizeStats>,
    pub pattern_resizes: Vec<PatternResizeStats>,
}

impl CountEdit {
    /// The solids are resized before the rows, all of the parameter's, in one section.
    pub open spec fn wf(&self) -> bool {
        &&& self.anchor != CountAnchor::Center
        &&& self.exchange.data@.len() == 1
        &&& !has_optional_sections(self.exchange@)
        &&& self.bodies@.len() == self.original.periodic_bodies@.len()
        &&& self.rows@.len() == self.original.instance_patterns@.len()
        &&& self.body_resizes@.len() <= self.bodies@.len()
        &&& self.pattern_resizes@.len() <= self.rows@.len()
        &&& self.pattern_resizes@.len() > 0 ==> self.body_resizes@.len() == self.bodies@.len()
    }

    /// The entities of the section.
    pub open spec fn entities(&self) -> Seq<EntityView> {
        self.exchange@.data[0].entities
    }
}

/// How a number of sites is changed.
#[derive(Debug)]
pub enum CountPlan {
    /// By one change.
    OneSide(CountEdit),
    /// By one change that keeps the start and leads to `mid_sites`, and a second one that keeps
    /// the end and leads to `new_sites`.
    BothSides { mid_sites: usize, new_sites: usize },
}

/// What was found in a file: rows of instances, solids that repeat, and the numbers of sites
/// that govern them.
#[derive(Debug)]
pub struct Semantics {
    pub patterns: Vec<InstancePattern>,
    pub bodies: Vec<PeriodicBodyPattern>,
    pub parameters: Vec<RecoveredCountParameter>,
}

/// Why a parameter cannot lead to a number of sites, if it cannot.
pub open spec fn count_refusal(
    parameters: Seq<RecoveredCountParameter>,
    index: usize,
    new_sites: usize,
) -> Option<EditError> {
    if index >= parameters.len() {
        Some(EditError::NotFound)
    } else if !parameters[index as int].body_grammar_proven
        || parameters[index as int].periodic_bodies@.len() == 0 {
        Some(EditError::NotProven)
    } else if new_sites == parameters[index as int].sites {
        Some(EditError::SameSites)
    } else if new_sites < 4 {
        Some(EditError::TooFewSites)
    } else {
        None
    }
}

fn refuse_count(
    parameters: &Vec<RecoveredCountParameter>,
    index: usize,
    new_sites: usize,
) -> (out: Option<EditError>)
    ensures
        out == count_refusal(parameters@, index, new_sites),
{
    if index >= parameters.len() {
        return Some(EditError::NotFound);
    }
    let parameter = &parameters[index];
    if !parameter.body_grammar_proven || parameter.periodic_bodies.len() == 0 {
        Some(EditError::NotProven)
    } else if new_sites == parameter.sites {
        Some(EditError::SameSites)
    } else if new_sites < 4 {
        Some(EditError::TooFewSites)
    } else {
        None
    }
}

/// Whether the solids and rows of a parameter are all in the lists.
pub open spec fn scope_exists(found: Semantics, index: int) -> bool {
    let parameter = found.parameters@[index];
    &&& forall|i: int|
        0 <= i < parameter.periodic_bodies@.len() ==> #[trigger] parameter.periodic_bodies@[i]
            < found.bodies@.len()
    &&& forall|i: int|
        0 <= i < parameter.instance_patterns@.len() ==> #[trigger] parameter.instance_patterns@[i]
            < found.patterns@.len()
}

/// Why a change at one end is refused, if it is.
pub open spec fn one_side_count_refusal(
    input: Seq<u8>,
    found: Semantics,
    index: usize,
    new_sites: usize,
) -> Option<EditError> {
    match reading(input) {
        Err(error) => Some(EditError::Read(error)),
        Ok((exchange, _)) => if exchange.data.len() != 1 {
            Some(EditError::Sections)
        } else if count_refusal(found.parameters@, index, new_sites) is Some {
            count_refusal(found.parameters@, index, new_sites)
        } else if !scope_exists(found, index as int) {
            Some(EditError::Disappeared)
        } else {
            None
        },
    }
}

/// The text of a file as an exchange structure, whatever sections it has.
pub open spec fn loose_reading(input: Seq<u8>) -> Result<ExchangeView, StepError> {
    match decoded(input) {
        Err(error) => Err(error),
        Ok((text, _)) => parsed(text),
    }
}

/// Why a change that keeps the centre is refused, if it is.
pub open spec fn center_count_refusal(
    input: Seq<u8>,
    found: Semantics,
    index: usize,
    new_sites: usize,
) -> Option<EditError> {
    match loose_reading(input) {
        Err(error) => Some(EditError::Read(error)),
        Ok(exchange) => if exchange.data.len() != 1 {
            Some(EditError::Sections)
        } else if count_refusal(found.parameters@, index, new_sites) is Some {
            count_refusal(found.parameters@, index, new_sites)
        } else if (new_sites - found.parameters@[index as int].sites) % 2 != 0 {
            Some(EditError::OddDelta)
        } else {
            None
        },
    }
}

/// Whether a solid is another one as it is seen from the end that stays.
pub open spec fn is_directed(
    body: PeriodicBodyPattern,
    directed: PeriodicBodyPattern,
    anchor: CountAnchor,
) -> bool {
    if anchor == CountAnchor::End {
        is_body_reverse(body, directed)
    } else {
        directed@ == body@
    }
}

/// Whether an edit is the one that was asked for: all the solids of the parameter, each of
/// which grows or shrinks at the end that does not stay, and all its rows.
pub open spec fn is_count_edit(
    edit: CountEdit,
    input: Seq<u8>,
    found: Semantics,
    index: int,
    new_sites: usize,
    anchor: CountAnchor,
) -> bool {
    let parameter = found.parameters@[index];
    &&& reading(input) matches Ok((exchange, _))
    &&& edit.exchange@ == exchange
    &&& edit.original@ == parameter@
    &&& edit.new_sites == new_sites
    &&& edit.anchor == anchor
    &&& edit.rows@.len() == parameter.instance_patterns@.len()
    &&& forall|i: int|
        0 <= i < edit.rows@.len() ==> (#[trigger] edit.rows@[i]).row
            == parameter.instance_patterns@[i] && edit.rows@[i].pattern@
            == found.patterns@[edit.rows@[i].row as int]@
    &&& edit.bodies@.len() == parameter.periodic_bodies@.len()
    &&& forall|i: int|
        0 <= i < edit.bodies@.len() ==> {
            let step = #[trigger] edit.bodies@[i];
            &&& step.body == parameter.periodic_bodies@[i]
            &&& is_directed(found.bodies@[step.body as int], step.directed, anchor)
            &&& step.grows == (new_sites > found.bodies@[step.body as int].sites)
        }
    &&& edit.body_resizes@.len() == 0
    &&& edit.pattern_resizes@.len() == 0
}

fn copy_family(family: &PeriodicFaceFamily) -> (out: PeriodicFaceFamily)
    ensures
        out@ == family@,
{
    PeriodicFaceFamily {
        face_ids: copy_items(&family.face_ids),
        phase: family.phase,
        span: family.span,
        orthogonal_center: family.orthogonal_center,
        bounds: family.bounds,
        edges: family.edges,
        max_residual: family.max_residual,
    }
}

fn copy_body(body: &PeriodicBodyPattern) -> (out: PeriodicBodyPattern)
    ensures
        out@ == body@,
{
    let ghost all = body.repeat_face_families@;
    let mut families: Vec<PeriodicFaceFamily> = Vec::new();
    let mut i: usize = 0;
    while i < body.repeat_face_families.len()
        invariant
            i <= body.repeat_face_families.len(),
            all == body.repeat_face_families@,
            families@.len() == i,
            forall|j: int| 0 <= j < i ==> (#[trigger] families@[j])@ == all[j]@,
        decreases body.repeat_face_families.len() - i,
    {
        families.push(copy_family(&body.repeat_face_families[i]));
        i = i + 1;
    }
    assert(families_view(families@) =~= families_view(all));
    PeriodicBodyPattern {
        solid_id: body.solid_id,
        axis: body.axis,
        pitch: body.pitch,
        sites: body.sites,
        coupled_instance_patterns: copy_items(&body.coupled_instance_patterns),
        repeat_face_families: families,
        repeat_faces: body.repeat_faces,
        faces_per_site: body.faces_per_site,
        stretch_face_ids: copy_items(&body.stretch_face_ids),
        fixed_face_ids: copy_items(&body.fixed_face_ids),
        total_faces: body.total_faces,
        max_residual: body.max_residual,
    }
}

fn copy_pattern(pattern: &InstancePattern) -> (out: InstancePattern)
    ensures
        out@ == pattern@,
{
    let mut style_signature: Vec<Vec<u64>> = Vec::new();
    let mut i: usize = 0;
    while i < pattern.style_signature.len()
        invariant
            i <= pattern.style_signature.len(),
            style_signature@.len() == i,
            forall|j: int|
                0 <= j < i ==> (#[trigger] style_signature@[j])@ == pattern.style_signature@[j]@,
        decreases pattern.style_signature.len() - i,
    {
        style_signature.push(copy_items(&pattern.style_signature[i]));
        i = i + 1;
    }
    let out = InstancePattern {
        parent_representation: pattern.parent_representation,
        representation_map: pattern.representation_map,
        item_ids: copy_items(&pattern.item_ids),
        style_signature,
        dimension: pattern.dimension,
        origin: pattern.origin,
        basis: copy_items(&pattern.basis),
        pitch: copy_items(&pattern.pitch),
        occupancy: copy_items(&pattern.occupancy),
        grid_shape: copy_items(&pattern.grid_shape),
        fill_ratio: pattern.fill_ratio,
        max_residual: pattern.max_residual,
    };
    assert(out@.style_signature =~= pattern@.style_signature);
    out
}

fn copy_parameter(parameter: &RecoveredCountParameter) -> (out: RecoveredCountParameter)
    ensures
        out@ == parameter@,
{
    RecoveredCountParameter {
        sites: parameter.sites,
        pitch: parameter.pitch,
        axis: parameter.axis,
        parent_representation: parameter.parent_representation,
        instance_patterns: copy_items(&parameter.instance_patterns),
        periodic_bodies: copy_items(&parameter.periodic_bodies),
        instances_per_site: parameter.instances_per_site,
        total_instances: parameter.total_instances,
        body_grammar_proven: parameter.body_grammar_proven,
        max_residual: parameter.max_residual,
    }
}

/// A solid as it is seen from the end that stays.
fn direct_body(body: &PeriodicBodyPattern, anchor: CountAnchor) -> (out: PeriodicBodyPattern)
    ensures
        is_directed(*body, out, anchor),
{
    let copy = copy_body(body);
    if anchor != CountAnchor::End {
        return copy;
    }
    let ghost same = copy;
    let out = reverse_periodic_body(copy);
    proof {
        let a = body.repeat_face_families@;
        let b = same.repeat_face_families@;
        assert(families_view(a) == families_view(b));
        assert(a.len() == families_view(a).len() && b.len() == families_view(b).len());
        assert forall|i: int| 0 <= i < a.len() implies is_family_reverse(
            #[trigger] a[i],
            out.repeat_face_families@[i],
        ) by {
            assert(families_view(a)[i] == families_view(b)[i]);
            assert(is_family_reverse(b[i], out.repeat_face_families@[i]));
        }
    }
    out
}

/// The places in a list are all below a bound.
fn all_below(list: &Vec<usize>, bound: usize) -> (out: bool)
    ensures
        out == forall|i: int| 0 <= i < list@.len() ==> #[trigger] list@[i] < bound,
{
    let mut i: usize = 0;
    while i < list.len()
        invariant
            i <= list.len(),
            forall|j: int| 0 <= j < i ==> #[trigger] list@[j] < bound,
        decreases list.len() - i,
    {
        if list[i] >= bound {
            assert(list@[i as int] >= bound);
            return false;
        }
        i = i + 1;
    }
    true
}

fn copy_items<T: Copy>(list: &Vec<T>) -> (out: Vec<T>)
    ensures
        out@ == list@,
{
    let mut out: Vec<T> = Vec::new();
    let mut i: usize = 0;
    while i < list.len()
        invariant
            i <= list.len(),
            out@ == list@.take(i as int),
        decreases list.len() - i,
    {
        out.push(list[i]);
        i = i + 1;
        assert(list@.take(i as int) =~= list@.take(i - 1).push(list@[i - 1]));
    }
    assert(list@.take(i as int) =~= list@);
    out
}

/// Chooses the solids and rows that one change at one end resizes.
pub fn resize_count_parameter_bytes_one_side(
    input: &[u8],
    found: &Semantics,
    parameter_index: usize,
    new_sites: usize,
    anchor: CountAnchor,
) -> (out: Result<CountEdit, EditError>)
    requires
        anchor != CountAnchor::Center,
    ensures
        match out {
            Err(error) => one_side_count_refusal(input@, *found, parameter_index, new_sites)
                == Some(error),
            Ok(edit) => {
                &&& one_side_count_refusal(input@, *found, parameter_index, new_sites) is None
                &&& is_count_edit(edit, input@, *found, parameter_index as int, new_sites, anchor)
                &&& edit.wf()
            },
        },
{
    let exchange = match read_exchange(input) {
        Err(error) => return Err(EditError::Read(error)),
        Ok((exchange, _)) => exchange,
    };
    if exchange.data.len() != 1 {
        return Err(EditError::Sections);
    }
    if let Some(error) = refuse_count(&found.parameters, parameter_index, new_sites) {
        return Err(error);
    }
    let parameter = &found.parameters[parameter_index];
    if !all_below(&parameter.periodic_bodies, found.bodies.len()) || !all_below(
        &parameter.instance_patterns,
        found.patterns.len(),
    ) {
        return Err(EditError::Disappeared);
    }
    let mut bodies: Vec<BodyStep> = Vec::new();
    let mut i: usize = 0;
    while i < parameter.periodic_bodies.len()
        invariant
            i <= parameter.periodic_bodies@.len(),
            bodies@.len() == i,
            forall|j: int|
                0 <= j < parameter.periodic_bodies@.len() ==> #[trigger]
                parameter.periodic_bodies@[j] < found.bodies@.len(),
            forall|j: int|
                0 <= j < i ==> {
                    let step = #[trigger] bodies@[j];
                    &&& step.body == parameter.periodic_bodies@[j]
                    &&& is_directed(found.bodies@[step.body as int], step.directed, anchor)
                    &&& step.grows == (new_sites > found.bodies@[step.body as int].sites)
                },
        decreases parameter.periodic_bodies.len() - i,
    {
        let body: usize = parameter.periodic_bodies[i];
        assert(parameter.periodic_bodies@[i as int] < found.bodies@.len());
        let directed = direct_body(&found.bodies[body], anchor);
        bodies.push(BodyStep { body, directed, grows: new_sites > found.bodies[body].sites });
        i = i + 1;
    }
    let mut rows: Vec<RowStep> = Vec::new();
    let mut k: usize = 0;
    while k < parameter.instance_patterns.len()
        invariant
            k <= parameter.instance_patterns@.len(),
            rows@.len() == k,
            forall|j: int|
                0 <= j < parameter.instance_patterns@.len() ==> #[trigger]
                parameter.instance_patterns@[j] < found.patterns@.len(),
            forall|j: int|
                0 <= j < k ==> (#[trigger] rows@[j]).row == parameter.instance_patterns@[j]
                    && rows@[j].pattern@ == found.patterns@[rows@[j].row as int]@,
        decreases parameter.instance_patterns.len() - k,
    {
        let row: usize = parameter.instance_patterns[k];
        assert(parameter.instance_patterns@[k as int] < found.patterns@.len());
        rows.push(RowStep { row, pattern: copy_pattern(&found.patterns[row]) });
        k = k + 1;
    }
    let original = copy_parameter(parameter);
    assert(original@ == parameter@);
    Ok(
        CountEdit {
            exchange,
            original,
            bodies,
            rows,
            new_sites,
            anchor,
            body_resizes: Vec::new(),
            pattern_resizes: Vec::new(),
        },
    )
}

/// Chooses how a number of sites is changed. Where the start or the end stays, one change does
/// it. Where the centre stays, both ends move by the same number of sites.
pub fn resize_count_parameter_bytes_with_anchor(
    input: &[u8],
    found: &Semantics,
    parameter_index: usize,
    new_sites: usize,
    anchor: CountAnchor,
) -> (out: Result<CountPlan, EditError>)
    ensures
        anchor != CountAnchor::Center ==> match out {
            Err(error) => one_side_count_refusal(input@, *found, parameter_index, new_sites)
                == Some(error),
            Ok(plan) => {
                &&& one_side_count_refusal(input@, *found, parameter_index, new_sites) is None
                &&& plan matches CountPlan::OneSide(edit)
                &&& is_count_edit(edit, input@, *found, parameter_index as int, new_sites, anchor)
                &&& edit.wf()
            },
        },
        anchor == CountAnchor::Center ==> match out {
            Err(error) => center_count_refusal(input@, *found, parameter_index, new_sites) == Some(
                error,
            ),
            Ok(plan) => {
                &&& center_count_refusal(input@, *found, parameter_index, new_sites) is None
                &&& plan matches CountPlan::BothSides { mid_sites, new_sites: end_sites }
                &&& mid_sites == half_way(
                    found.parameters@[parameter_index as int].sites,
                    new_sites,
                )
                &&& end_sites == new_sites
            },
        },
{
    if anchor != CountAnchor::Center {
        return match resize_count_parameter_bytes_one_side(
            input,
            found,
            parameter_index,
            new_sites,
            anchor,
        ) {
            Err(error) => Err(error),
            Ok(edit) => Ok(CountPlan::OneSide(edit)),
        };
    }
    let text = match decode_input(input) {
        Err(error) => return Err(EditError::Read(error)),
        Ok((text, _)) => text,
    };
    match parse_exchange(&text) {
        Err(error) => Err(EditError::Read(error)),
        Ok(exchange) => {
            if exchange.data.len() != 1 {
                return Err(EditError::Sections);
            }
            if let Some(error) = refuse_count(&found.parameters, parameter_index, new_sites) {
                return Err(error);
            }
            match mid_count(found.parameters[parameter_index].sites, new_sites) {
                None => Err(EditError::OddDelta),
                Some(mid_sites) => Ok(CountPlan::BothSides { mid_sites, new_sites }),
            }
        },
    }
}

/// Chooses how a number of sites is changed while the start stays.
pub fn resize_count_parameter_bytes(
    input: &[u8],
    found: &Semantics,
    parameter_index: usize,
    new_sites: usize,
) -> (out: Result<CountPlan, EditError>)
    ensures
        match out {
            Err(error) => one_side_count_refusal(input@, *found, parameter_index, new_sites)
                == Some(error),
            Ok(plan) => {
                &&& one_side_count_refusal(input@, *found, parameter_index, new_sites) is None
                &&& plan matches CountPlan::OneSide(edit)
                &&& is_count_edit(
                    edit,
                    input@,
                    *found,
                    parameter_index as int,
                    new_sites,
                    CountAnchor::Start,
                )
                &&& edit.wf()
            },
        },
{
    resize_count_parameter_bytes_with_anchor(
        input,
        found,
        parameter_index,
        new_sites,
        CountAnchor::Start,
    )
}

/// Accepts a change of a number of sites only where the number has grown.
pub fn expand_count_parameter_bytes(edited: CountEditOutput) -> (out: Result<
    CountEditOutput,
    EditError,
>)
    ensures
        match out {
            Ok(kept) => edited.resize.new_sites > edited.resize.old_sites && kept == edited,
            Err(error) => edited.resize.new_sites <= edited.resize.old_sites && error
                == EditError::NotGrowing,
        },
{
    if edited.resize.new_sites <= edited.resize.old_sites {
        return Err(EditError::NotGrowing);
    }
    Ok(edited)
}

/// Which end of a row stays where an end of the sites stays. The row may run with the sites or
/// against them; without a direction it cannot be resized.
pub open spec fn row_anchored(anchor: CountAnchor, forward: bool) -> PatternAnchor {
    if (anchor == CountAnchor::Start) == forward {
        PatternAnchor::Start
    } else {
        PatternAnchor::End
    }
}

/// Which end of a row stays where an end of the sites stays.
pub fn row_anchor(anchor: CountAnchor, forward: Option<bool>) -> (out: Result<
    PatternAnchor,
    EditError,
>)
    requires
        anchor != CountAnchor::Center,
    ensures
        out == match forward {
            None => Err::<PatternAnchor, EditError>(EditError::NoBasis),
            Some(forward) => Ok(row_anchored(anchor, forward)),
        },
{
    match forward {
        None => Err(EditError::NoBasis),
        Some(forward) => if (anchor == CountAnchor::Start) == forward {
            Ok(PatternAnchor::Start)
        } else {
            Ok(PatternAnchor::End)
        },
    }
}

/// A file after an edit of one of its sections: the copies in that section are merged, and all
/// sections numbered anew.
pub open spec fn settled(exchange: ExchangeView, section: int) -> ExchangeView {
    let merged = exchange.data.update(
        section,
        SectionView {
            meta: exchange.data[section].meta,
            entities: interned(exchange.data[section].entities),
        },
    );
    with_data(exchange, mapped(merged, |e: Seq<EntityView>| renumbered(e)))
}

/// Merges copies in the section that was edited and numbers all sections anew.
pub fn settle(exchange: Exchange, section: usize) -> (out: Exchange)
    requires
        section < exchange.data@.len(),
    ensures
        out@ == settled(exchange@, section as int),
{
    let ghost before = exchange@;
    let mut data = exchange.data;
    let mut edited = data.remove(section);
    let _ = intern_section(&mut edited.entities);
    data.insert(section, edited);
    assert(sections_view(data@) =~= before.data.update(
        section as int,
        SectionView {
            meta: before.data[section as int].meta,
            entities: interned(before.data[section as int].entities),
        },
    ));
    renumber_sections(&mut data);
    Exchange {
        header: exchange.header,
        anchor: exchange.anchor,
        reference: exchange.reference,
        data,
        signature: exchange.signature,
    }
}

/// Whether one of the parameters that were found confirms a change.
pub open spec fn some_count_confirms(
    parameters: Seq<RecoveredCountParameter>,
    sites: usize,
    original: RecoveredCountParameter,
) -> bool {
    exists|i: int|
        0 <= i < parameters.len() && confirms_count(#[trigger] parameters[i], sites, original)
}

fn count_is_confirmed(
    parameters: &Vec<RecoveredCountParameter>,
    sites: usize,
    original: &RecoveredCountParameter,
) -> (out: bool)
    ensures
        out == some_count_confirms(parameters@, sites, *original),
{
    let mut i: usize = 0;
    while i < parameters.len()
        invariant
            i <= parameters.len(),
            forall|j: int|
                0 <= j < i ==> !confirms_count(#[trigger] parameters@[j], sites, *original),
        decreases parameters.len() - i,
    {
        if is_confirmed(&parameters[i], sites, original) {
            assert(confirms_count(parameters@[i as int], sites, *original));
            return true;
        }
        i = i + 1;
    }
    false
}

/// A change of a number of sites that has resized all solids and rows of a parameter, and whose
/// file is settled.
#[derive(Debug)]
pub struct SettledEdit {
    pub exchange: Exchange,
    pub original: RecoveredCountParameter,
    pub new_sites: usize,
    pub anchor: CountAnchor,
    pub body_resizes: Vec<PeriodicBodyResizeStats>,
    pub pattern_resizes: Vec<PatternResizeStats>,
}

impl SettledEdit {
    /// There is one resize for each solid and one for each row.
    pub open spec fn wf(&self) -> bool {
        &&& !has_optional_sections(self.exchange@)
        &&& self.body_resizes@.len() == self.original.periodic_bodies@.len()
        &&& self.pattern_resizes@.len() == self.original.instance_patterns@.len()
    }
}

/// Accepts a change of a number of sites, where the number that was asked for is found in the
/// edited file with as many solids and rows.
pub fn finish_count_edit(edit: SettledEdit, found: Semantics) -> (out: Result<
    CountEditOutput,
    EditError,
>)
    requires
        edit.wf(),
    ensures
        out is Ok <==> some_count_confirms(found.parameters@, edit.new_sites, edit.original),
        match out {
            Err(error) => error == EditError::NotVerified,
            Ok(edited) => {
                &&& edited.bytes@ == encode_utf8(exchange_text(edit.exchange@))
                &&& edited.resize == (CountResizeStats {
                    old_sites: edit.original.sites,
                    new_sites: edit.new_sites,
                    instances_per_site: edit.original.instances_per_site,
                    anchor: edit.anchor,
                    body_resizes: edit.body_resizes,
                    pattern_resizes: edit.pattern_resizes,
                })
                &&& edited.resize.body_resizes@.len() == edit.original.periodic_bodies@.len()
                &&& edited.resize.pattern_resizes@.len() == edit.original.instance_patterns@.len()
                &&& edited.patterns == found.patterns
                &&& edited.periodic_bodies == found.bodies
                &&& edited.count_parameters == found.parameters
                &&& audits(edited.compatibility, all_section_records(edit.exchange@.data))
            },
        },
{
    if !count_is_confirmed(&found.parameters, edit.new_sites, &edit.original) {
        return Err(EditError::NotVerified);
    }
    let compatibility = audit_exchange_compatibility(&edit.exchange);
    let bytes = exchange_bytes(&edit.exchange);
    Ok(
        CountEditOutput {
            bytes,
            resize: CountResizeStats {
                old_sites: edit.original.sites,
                new_sites: edit.new_sites,
                instances_per_site: edit.original.instances_per_site,
                anchor: edit.anchor,
                body_resizes: edit.body_resizes,
                pattern_resizes: edit.pattern_resizes,
            },
            patterns: found.patterns,
            periodic_bodies: found.bodies,
            count_parameters: found.parameters,
            compatibility,
        },
    )
}

/// The outcome of two changes that keep the centre: that of the second one, with what both
/// have resized.
pub fn combine_count_edits(
    first: CountResizeStats,
    second: CountEditOutput,
    original: &RecoveredCountParameter,
    new_sites: usize,
) -> (out: CountEditOutput)
    ensures
        out.bytes == second.bytes,
        out.patterns == second.patterns,
        out.periodic_bodies == second.periodic_bodies,
        out.count_parameters == second.count_parameters,
        out.compatibility == second.compatibility,
        out.resize.old_sites == original.sites,
        out.resize.new_sites == new_sites,
        out.resize.instances_per_site == original.instances_per_site,
        out.resize.anchor == CountAnchor::Center,
        out.resize.body_resizes@ == first.body_resizes@ + second.resize.body_resizes@,
        out.resize.pattern_resizes@ == first.pattern_resizes@ + second.resize.pattern_resizes@,
{
    let mut body_resizes = first.body_resizes;
    let mut more_bodies = second.resize.body_resizes;
    body_resizes.append(&mut more_bodies);
    let mut pattern_resizes = first.pattern_resizes;
    let mut more_patterns = second.resize.pattern_resizes;
    pattern_resizes.append(&mut more_patterns);
    CountEditOutput {
        bytes: second.bytes,
        resize: CountResizeStats {
            old_sites: original.sites,
            new_sites,
            instances_per_site: original.instances_per_site,
            anchor: CountAnchor::Center,
            body_resizes,
            pattern_resizes,
        },
        patterns: second.patterns,
        periodic_bodies: second.periodic_bodies,
        count_parameters: second.count_parameters,
        compatibility: second.compatibility,
    }
}

} // verus!
