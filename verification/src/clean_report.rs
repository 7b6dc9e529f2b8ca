//! What a cleaning run gives together with what was found in its result.

use std::collections::HashSet;
use vstd::prelude::*;

use crate::ast::{entities_view, EntityInstance, Exchange, SectionView};
use crate::clean::CleanedExchange;
use crate::compatibility::CompatibilityAudit;
use crate::count_resize::Semantics;
use crate::graph::{simple_record, simple_record_of};
use crate::instance_lattices::is_instance;
use crate::minify::capped;
use crate::parameters::RecoveredCountParameter;
use crate::patterns::InstancePattern;
use crate::periodic_bodies::PeriodicBodyPattern;
use crate::read::Encoding;
use crate::stats::Stats;
use crate::text::same_text;

verus! {

broadcast use vstd::std_specs::hash::group_hash_axioms;

/// A cleaned file, and the rows, solids and numbers of sites in it. Their ids are those of the
/// file.
#[derive(Debug)]
pub struct CleanOutput {
    pub bytes: Vec<u8>,
    pub encoding: Encoding,
    pub stats: Stats,
    pub patterns: Vec<InstancePattern>,
    pub periodic_bodies: Vec<PeriodicBodyPattern>,
    pub count_parameters: Vec<RecoveredCountParameter>,
    pub compatibility: CompatibilityAudit,
}

/// Whether an id is that of an instance in one of some sections.
pub open spec fn names_instance(data: Seq<SectionView>, id: u64) -> bool {
    exists|k: int| 0 <= k < data.len() && is_instance((#[trigger] data[k]).entities, id)
}

/// Whether a row is made of instances of a file.
pub open spec fn row_is_there(data: Seq<SectionView>, pattern: InstancePattern) -> bool {
    forall|i: int|
        0 <= i < pattern.item_ids@.len() ==> names_instance(data, #[trigger] pattern.item_ids@[i])
}

/// Whether rows are made of instances of a file.
pub open spec fn rows_are_there(data: Seq<SectionView>, patterns: Seq<InstancePattern>) -> bool {
    forall|i: int| 0 <= i < patterns.len() ==> row_is_there(data, #[trigger] patterns[i])
}

fn add_instances(entities: &Vec<EntityInstance>, known: &mut HashSet<u64>)
    ensures
        forall|id: u64| #[trigger]
            final(known)@.contains(id) == (old(known)@.contains(id) || is_instance(
                entities_view(entities@),
                id,
            )),
{
    let ghost views = entities_view(entities@);
    let ghost before = known@;
    let mut i: usize = 0;
    assert forall|id: u64| #[trigger] known@.contains(id) == (before.contains(id) || is_instance(
        views.take(0),
        id,
    )) by {}
    while i < entities.len()
        invariant
            i <= entities.len(),
            views == entities_view(entities@),
            views.len() == entities@.len(),
            forall|id: u64| #[trigger]
                known@.contains(id) == (before.contains(id) || is_instance(
                    views.take(i as int),
                    id,
                )),
        decreases entities.len() - i,
    {
        let ghost so_far = known@;
        let ghost shorter = views.take(i as int);
        let ghost longer = views.take(i + 1);
        assert(views[i as int] == entities@[i as int]@);
        let id: u64 = crate::ast::entity_id(&entities[i]);
        let named = match simple_record_of(&entities[i]) {
            Some(record) => same_text(record.name.as_str(), "MAPPED_ITEM"),
            None => false,
        };
        if named {
            known.insert(id);
        }
        proof {
            assert forall|x: u64| #[trigger]
                known@.contains(x) == (before.contains(x) || is_instance(longer, x)) by {
                assert(so_far.contains(x) == (before.contains(x) || is_instance(shorter, x)));
                if is_instance(shorter, x) {
                    let k = choose|k: int|
                        0 <= k < shorter.len() && (#[trigger] shorter[k]).id() == x && (
                        simple_record(shorter[k]) matches Some(record) && record.name
                            == "MAPPED_ITEM"@);
                    assert(longer[k] == shorter[k]);
                    assert(is_instance(longer, x));
                }
                if named {
                    assert(longer[i as int] == views[i as int]);
                    assert(is_instance(longer, id));
                }
                if is_instance(longer, x) {
                    let k = choose|k: int|
                        0 <= k < longer.len() && (#[trigger] longer[k]).id() == x && (simple_record(
                            longer[k],
                        ) matches Some(record) && record.name == "MAPPED_ITEM"@);
                    if k < i {
                        assert(shorter[k] == longer[k]);
                        assert(is_instance(shorter, x));
                    } else {
                        assert(longer[k] == views[i as int]);
                    }
                }
            }
        }
        i = i + 1;
    }
    assert(views.take(i as int) =~= views);
}

fn find_rows(exchange: &Exchange, patterns: &Vec<InstancePattern>) -> (out: bool)
    ensures
        out == rows_are_there(exchange@.data, patterns@),
{
    let ghost data = exchange@.data;
    let mut known: HashSet<u64> = HashSet::new();
    let mut k: usize = 0;
    while k < exchange.data.len()
        invariant
            k <= exchange.data@.len(),
            data == exchange@.data,
            data.len() == exchange.data@.len(),
            forall|id: u64| #[trigger]
                known@.contains(id) == names_instance(data.take(k as int), id),
        decreases exchange.data.len() - k,
    {
        let ghost so_far = known@;
        let ghost shorter = data.take(k as int);
        let ghost longer = data.take(k + 1);
        assert(data[k as int] == exchange.data@[k as int]@);
        add_instances(&exchange.data[k].entities, &mut known);
        proof {
            assert forall|id: u64| #[trigger] known@.contains(id) == names_instance(longer, id) by {
                assert(so_far.contains(id) == names_instance(shorter, id));
                if names_instance(shorter, id) {
                    let j = choose|j: int|
                        0 <= j < shorter.len() && is_instance((#[trigger] shorter[j]).entities, id);
                    assert(longer[j] == shorter[j]);
                }
                if is_instance(data[k as int].entities, id) {
                    assert(longer[k as int] == data[k as int]);
                }
                if names_instance(longer, id) {
                    let j = choose|j: int|
                        0 <= j < longer.len() && is_instance((#[trigger] longer[j]).entities, id);
                    if j < k {
                        assert(shorter[j] == longer[j]);
                    }
                }
            }
        }
        k = k + 1;
    }
    assert(data.take(k as int) =~= data);
    let mut p: usize = 0;
    while p < patterns.len()
        invariant
            p <= patterns.len(),
            forall|id: u64| #[trigger] known@.contains(id) == names_instance(data, id),
            forall|j: int| 0 <= j < p ==> row_is_there(data, #[trigger] patterns@[j]),
            data == exchange@.data,
        decreases patterns.len() - p,
    {
        let items = &patterns[p].item_ids;
        let mut i: usize = 0;
        while i < items.len()
            invariant
                i <= items.len(),
                p < patterns.len(),
                items@ == patterns@[p as int].item_ids@,
                data == exchange@.data,
                forall|id: u64| #[trigger] known@.contains(id) == names_instance(data, id),
                forall|j: int| 0 <= j < i ==> names_instance(data, #[trigger] items@[j]),
            decreases items.len() - i,
        {
            if !known.contains(&items[i]) {
                assert(!names_instance(data, patterns@[p as int].item_ids@[i as int]));
                assert(!row_is_there(data, patterns@[p as int]));
                return false;
            }
            i = i + 1;
        }
        assert(row_is_there(data, patterns@[p as int]));
        p = p + 1;
    }
    true
}

/// Adds to a cleaned file what was found in it. Rows of other instances than those of the file
/// are refused.
pub fn report_clean(cleaned: CleanedExchange, found: Semantics) -> (out: Option<CleanOutput>)
    ensures
        out is Some == rows_are_there(cleaned.exchange@.data, found.patterns@),
        out matches Some(output) ==> output == (CleanOutput {
            bytes: cleaned.bytes,
            encoding: cleaned.encoding,
            stats: cleaned.stats,
            patterns: found.patterns,
            periodic_bodies: found.bodies,
            count_parameters: found.parameters,
            compatibility: cleaned.compatibility,
        }),
{
    if !find_rows(&cleaned.exchange, &found.patterns) {
        return None;
    }
    Some(
        CleanOutput {
            bytes: cleaned.bytes,
            encoding: cleaned.encoding,
            stats: cleaned.stats,
            patterns: found.patterns,
            periodic_bodies: found.bodies,
            count_parameters: found.parameters,
            compatibility: cleaned.compatibility,
        },
    )
}

/// How much of what repeats was found in a file.
#[derive(Debug, Clone, Copy, PartialEq, Eq, Structural)]
pub struct FoundCounts {
    pub instance_patterns_detected: usize,
    pub pattern_instances_detected: usize,
    pub periodic_body_patterns_detected: usize,
    pub periodic_body_repeat_faces: usize,
    pub count_parameters_detected: usize,
    pub count_parameters_with_body_grammar: usize,
}

/// How many instances the first `n` rows have.
pub open spec fn instances_in(patterns: Seq<InstancePattern>, n: nat) -> nat
    decreases n,
{
    if n == 0 {
        0
    } else {
        instances_in(patterns, (n - 1) as nat) + patterns[n - 1].item_ids@.len()
    }
}

/// How many faces of the first `n` solids repeat.
pub open spec fn repeat_faces_in(bodies: Seq<PeriodicBodyPattern>, n: nat) -> nat
    decreases n,
{
    if n == 0 {
        0
    } else {
        repeat_faces_in(bodies, (n - 1) as nat) + bodies[n - 1].repeat_faces as nat
    }
}

/// How many of the first `n` numbers of sites are proven by their solids.
pub open spec fn proven_in(parameters: Seq<RecoveredCountParameter>, n: nat) -> nat
    decreases n,
{
    if n == 0 {
        0
    } else {
        proven_in(parameters, (n - 1) as nat) + (if parameters[n - 1].body_grammar_proven {
            1nat
        } else {
            0nat
        })
    }
}

impl CleanOutput {
    /// Counts what was found. Sums that do not fit stay at the largest number.
    pub fn found_counts(&self) -> (out: FoundCounts)
        ensures
            out.instance_patterns_detected == self.patterns@.len(),
            out.pattern_instances_detected == capped(
                instances_in(self.patterns@, self.patterns@.len()),
            ),
            out.periodic_body_patterns_detected == self.periodic_bodies@.len(),
            out.periodic_body_repeat_faces == capped(
                repeat_faces_in(self.periodic_bodies@, self.periodic_bodies@.len()),
            ),
            out.count_parameters_detected == self.count_parameters@.len(),
            out.count_parameters_with_body_grammar == proven_in(
                self.count_parameters@,
                self.count_parameters@.len(),
            ),
    {
        let mut instances: usize = 0;
        let mut i: usize = 0;
        while i < self.patterns.len()
            invariant
                i <= self.patterns@.len(),
                instances == capped(instances_in(self.patterns@, i as nat)),
            decreases self.patterns.len() - i,
        {
            instances = instances.saturating_add(self.patterns[i].item_ids.len());
            i = i + 1;
        }
        let mut faces: usize = 0;
        let mut j: usize = 0;
        while j < self.periodic_bodies.len()
            invariant
                j <= self.periodic_bodies@.len(),
                faces == capped(repeat_faces_in(self.periodic_bodies@, j as nat)),
            decreases self.periodic_bodies.len() - j,
        {
            faces = faces.saturating_add(self.periodic_bodies[j].repeat_faces);
            j = j + 1;
        }
        let mut proven: usize = 0;
        let mut k: usize = 0;
        while k < self.count_parameters.len()
            invariant
                proven <= k <= self.count_parameters@.len(),
                proven == proven_in(self.count_parameters@, k as nat),
            decreases self.count_parameters.len() - k,
        {
            if self.count_parameters[k].body_grammar_proven {
                proven = proven + 1;
            }
            k = k + 1;
        }
        FoundCounts {
            instance_patterns_detected: self.patterns.len(),
            pattern_instances_detected: instances,
            periodic_body_patterns_detected: self.periodic_bodies.len(),
            periodic_body_repeat_faces: faces,
            count_parameters_detected: self.count_parameters.len(),
            count_parameters_with_body_grammar: proven,
        }
    }
}

} // verus!
