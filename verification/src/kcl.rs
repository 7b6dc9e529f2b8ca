//! Models as KCL programs. Only what KCL builds exactly is written; the rest is refused.
//!
//! The numbers in a program are written by the caller, who has them as doubles.

use vstd::prelude::*;

use crate::cad_ir::{is_polygon, only_moves, CadNode, NodeId, PatternSpec, Profile2d, Scalar};
use crate::cad_model::{all_exist, edge, is_low, CadModel, ModelError};
use crate::text::{decimal, push_decimal};

verus! {

/// Why a model cannot be written.
#[derive(Debug, Clone, Copy, PartialEq, Eq, Structural)]
pub enum KclError {
    /// The model is not sound.
    Model(ModelError),
    /// A profile is not extruded along the third axis.
    NotVertical,
    /// A profile is not one polygon.
    NotPolygon,
    /// A transform does more than move.
    NotTranslation,
    /// A row has no instances.
    EmptyPattern,
    /// The step of a row is zero or not finite, or a number of it has no exact text.
    BadStep,
    /// A number has no exact text.
    Inexact,
    /// A node has no form in KCL.
    Unsupported,
}

/// The numbers of a node as text. Of an extrusion: the first corner, the differences between
/// the corners, and the length. Of a movement: the vector. Of a row: the distance and the axis.
/// Nothing where a number has no exact text, or where the distance is zero or not finite.
pub struct KclNumbers {
    pub of: Vec<Option<Vec<String>>>,
}

/// How many numbers a node needs.
pub open spec fn numbers_needed(node: CadNode) -> nat {
    match node {
        CadNode::Extrude { profile, .. } => if profile.loops@.len() == 1 {
            2 * profile.loops@[0].curves@.len() + 1
        } else {
            0
        },
        CadNode::Transform { .. } => 3,
        CadNode::Pattern { .. } => 4,
        _ => 0,
    }
}

/// Whether each node has the numbers that it needs.
pub open spec fn numbers_fit(nodes: Seq<CadNode>, numbers: KclNumbers) -> bool {
    &&& numbers.of@.len() == nodes.len()
    &&& forall|i: int|
        0 <= i < nodes.len() ==> match #[trigger] numbers.of@[i] {
            Some(list) => list@.len() >= numbers_needed(nodes[i]),
            None => true,
        }
}

/// The name of the solid that a node is.
pub open spec fn solid(id: int) -> Seq<char> {
    "n"@ + decimal(id as nat)
}

/// Pairs of numbers, each as a line of a sketch.
pub open spec fn sketch_lines(list: Seq<String>, n: int) -> Seq<char>
    decreases n,
{
    if n <= 1 {
        Seq::empty()
    } else {
        sketch_lines(list, n - 1) + "  |> line(end = ["@ + list[2 * n - 2]@ + ", "@ + list[2 * n
            - 1]@ + "])\n"@
    }
}

/// A polygon as a sketch.
pub open spec fn sketch_text(id: int, corners: int, list: Seq<String>) -> Seq<char> {
    "s"@ + decimal(id as nat) + " = startSketchOn(XY)\np"@ + decimal(id as nat)
        + " = startProfile(s"@ + decimal(id as nat) + ", at = ["@ + list[0]@ + ", "@ + list[1]@
        + "])\n"@ + sketch_lines(list, corners) + "  |> close()\n"@
}

/// A node as a statement.
pub open spec fn node_text(node: CadNode, id: int, numbers: Option<Vec<String>>) -> Result<
    Seq<char>,
    KclError,
> {
    match node {
        CadNode::Extrude { profile, vector } => if vector@[0].magnitude() != 0
            || vector@[1].magnitude() != 0 {
            Err(KclError::NotVertical)
        } else if profile.loops@.len() != 1 || !is_polygon(profile.loops@[0].curves@) {
            Err(KclError::NotPolygon)
        } else {
            let corners = profile.loops@[0].curves@.len() as int;
            match numbers {
                None => Err(KclError::Inexact),
                Some(list) => Ok(
                    sketch_text(id, corners, list@) + solid(id) + " = extrude(p"@ + decimal(
                        id as nat,
                    ) + ", length = "@ + list@[2 * corners]@ + ")\n\n"@,
                ),
            }
        },
        CadNode::Transform { transform, child } => if !only_moves(transform.matrix) {
            Err(KclError::NotTranslation)
        } else {
            match numbers {
                None => Err(KclError::Inexact),
                Some(list) => Ok(
                    solid(id) + " = "@ + solid(child.0 as int) + " |> translate(xyz = ["@
                        + list@[0]@ + ", "@ + list@[1]@ + ", "@ + list@[2]@
                        + "], global = true)\n\n"@,
                ),
            }
        },
        CadNode::Pattern { pattern, child } => match pattern {
            PatternSpec::Linear { count, .. } => if count == 0 {
                Err(KclError::EmptyPattern)
            } else {
                match numbers {
                    None => Err(KclError::BadStep),
                    Some(list) => Ok(
                        solid(id) + " = "@ + solid(child.0 as int)
                            + " |> patternLinear3d(instances = "@ + decimal(count as nat)
                            + ", distance = "@ + list@[0]@ + ", axis = ["@ + list@[1]@ + ", "@
                            + list@[2]@ + ", "@ + list@[3]@ + "])\n\n"@,
                    ),
                }
            },
            _ => Err(KclError::Unsupported),
        },
        _ => Err(KclError::Unsupported),
    }
}

/// The nodes that are written, after those in `done`, to write a node: first its parts, each
/// of which only once, then itself.
pub open spec fn visited(nodes: Seq<CadNode>, id: int, done: Seq<usize>, height: nat) -> Seq<usize>
    decreases height, 0nat,
{
    if height == 0 || done.contains(id as usize) {
        done
    } else {
        all_visited(nodes, nodes[id].parts(), done, (height - 1) as nat).push(id as usize)
    }
}

/// The nodes that are written, after those in `done`, to write some nodes in order.
pub open spec fn all_visited(
    nodes: Seq<CadNode>,
    ids: Seq<NodeId>,
    done: Seq<usize>,
    height: nat,
) -> Seq<usize>
    decreases height, ids.len() + 1,
{
    if ids.len() == 0 {
        done
    } else {
        visited(
            nodes,
            ids.last().0 as int,
            all_visited(nodes, ids.drop_last(), done, height),
            height,
        )
    }
}

/// Nodes as statements, up to the first one that cannot be written.
pub open spec fn nodes_text(
    nodes: Seq<CadNode>,
    numbers: Seq<Option<Vec<String>>>,
    order: Seq<usize>,
) -> Result<Seq<char>, KclError>
    decreases order.len(),
{
    if order.len() == 0 {
        Ok(Seq::empty())
    } else {
        match nodes_text(nodes, numbers, order.drop_last()) {
            Err(error) => Err(error),
            Ok(text) => match node_text(
                nodes[order.last() as int],
                order.last() as int,
                numbers[order.last() as int],
            ) {
                Err(error) => Err(error),
                Ok(more) => Ok(text + more),
            },
        }
    }
}

/// A model as a program.
pub open spec fn kcl_text(model: CadModel, numbers: KclNumbers) -> Result<Seq<char>, KclError> {
    match model.fault() {
        Some(error) => Err(KclError::Model(error)),
        None => nodes_text(
            model.nodes@,
            numbers.of@,
            all_visited(model.nodes@, model.roots@, Seq::empty(), model.nodes@.len()),
        ),
    }
}

fn is_listed(list: &Vec<usize>, wanted: usize) -> (out: bool)
    ensures
        out == list@.contains(wanted),
{
    let mut i: usize = 0;
    while i < list.len()
        invariant
            i <= list@.len(),
            forall|j: int| 0 <= j < i ==> #[trigger] list@[j] != wanted,
        decreases list.len() - i,
    {
        if list[i] == wanted {
            assert(list@[i as int] == wanted);
            return true;
        }
        i = i + 1;
    }
    false
}

/// The nodes of a list are numbers of nodes.
spec fn in_model(list: Seq<usize>, n: nat) -> bool {
    forall|i: int| 0 <= i < list.len() ==> #[trigger] list[i] < n
}

fn visit_node(model: &CadModel, id: usize, done: &mut Vec<usize>, height: usize)
    requires
        id < model.nodes@.len(),
        in_model(old(done)@, model.nodes@.len()),
        forall|i: int|
            0 <= i < model.nodes@.len() ==> all_exist(
                (#[trigger] model.nodes@[i]).parts(),
                model.nodes@.len(),
            ),
    ensures
        final(done)@ == visited(model.nodes@, id as int, old(done)@, height as nat),
        in_model(final(done)@, model.nodes@.len()),
    decreases height, 0nat,
{
    if height == 0 || is_listed(done, id) {
        return;
    }
    let children = model.nodes[id].children();
    assert(all_exist(model.nodes@[id as int].parts(), model.nodes@.len()));
    visit_nodes(model, &children, done, height - 1);
    done.push(id);
}

fn visit_nodes(model: &CadModel, ids: &Vec<NodeId>, done: &mut Vec<usize>, height: usize)
    requires
        all_exist(ids@, model.nodes@.len()),
        in_model(old(done)@, model.nodes@.len()),
        forall|i: int|
            0 <= i < model.nodes@.len() ==> all_exist(
                (#[trigger] model.nodes@[i]).parts(),
                model.nodes@.len(),
            ),
    ensures
        final(done)@ == all_visited(model.nodes@, ids@, old(done)@, height as nat),
        in_model(final(done)@, model.nodes@.len()),
    decreases height, 1nat,
{
    let mut i: usize = 0;
    assert(ids@.take(0) =~= Seq::empty());
    while i < ids.len()
        invariant
            i <= ids@.len(),
            all_exist(ids@, model.nodes@.len()),
            forall|i: int|
                0 <= i < model.nodes@.len() ==> all_exist(
                    (#[trigger] model.nodes@[i]).parts(),
                    model.nodes@.len(),
                ),
            in_model(done@, model.nodes@.len()),
            done@ == all_visited(model.nodes@, ids@.take(i as int), old(done)@, height as nat),
        decreases ids.len() - i,
    {
        assert(ids@[i as int].0 < model.nodes@.len());
        visit_node(model, ids[i].0, done, height);
        i = i + 1;
        assert(ids@.take(i as int).drop_last() =~= ids@.take(i - 1));
        assert(ids@.take(i as int).last() == ids@[i - 1]);
    }
    assert(ids@.take(i as int) =~= ids@);
}

fn push_solid(out: &mut String, id: usize)
    ensures
        final(out)@ == old(out)@ + solid(id as int),
{
    out.append("n");
    push_decimal(out, id as u64);
    assert(out@ =~= old(out)@ + solid(id as int));
}

/// Writes a polygon as a sketch.
pub fn emit_polygon_sketch(out: &mut String, id: usize, corners: usize, list: &Vec<String>)
    requires
        corners >= 3,
        list@.len() >= 2 * corners,
    ensures
        final(out)@ == old(out)@ + sketch_text(id as int, corners as int, list@),
{
    let ghost start = out@;
    out.append("s");
    push_decimal(out, id as u64);
    out.append(" = startSketchOn(XY)\np");
    push_decimal(out, id as u64);
    out.append(" = startProfile(s");
    push_decimal(out, id as u64);
    out.append(", at = [");
    out.append(list[0].as_str());
    out.append(", ");
    out.append(list[1].as_str());
    out.append("])\n");
    let ghost head = "s"@ + decimal(id as nat) + " = startSketchOn(XY)\np"@ + decimal(id as nat)
        + " = startProfile(s"@ + decimal(id as nat) + ", at = ["@ + list@[0]@ + ", "@ + list@[1]@
        + "])\n"@;
    assert(out@ =~= start + head);
    let mut n: usize = 1;
    assert(sketch_lines(list@, 1) =~= Seq::empty());
    while n < corners
        invariant
            1 <= n <= corners,
            list@.len() >= 2 * corners,
            out@ == start + head + sketch_lines(list@, n as int),
        decreases corners - n,
    {
        assert(2 * n + 1 < list.len());
        out.append("  |> line(end = [");
        out.append(list[2 * n].as_str());
        out.append(", ");
        out.append(list[2 * n + 1].as_str());
        out.append("])\n");
        n = n + 1;
        assert(out@ =~= start + head + sketch_lines(list@, n as int));
    }
    out.append("  |> close()\n");
    assert(out@ =~= start + sketch_text(id as int, corners as int, list@));
}

fn emit_extrude(
    out: &mut String,
    id: usize,
    profile: &Profile2d,
    vector: &[Scalar; 3],
    list: &Vec<String>,
) -> (result: Result<(), KclError>)
    requires
        profile.loops@.len() == 1 ==> list@.len() >= 2 * profile.loops@[0].curves@.len() + 1,
    ensures
        match result {
            Err(error) => if vector@[0].magnitude() != 0 || vector@[1].magnitude() != 0 {
                error == KclError::NotVertical
            } else {
                error == KclError::NotPolygon && (profile.loops@.len() != 1 || !is_polygon(
                    profile.loops@[0].curves@,
                ))
            },
            Ok(()) => {
                let corners = profile.loops@[0].curves@.len() as int;
                &&& vector@[0].magnitude() == 0 && vector@[1].magnitude() == 0
                &&& profile.loops@.len() == 1 && is_polygon(profile.loops@[0].curves@)
                &&& final(out)@ == old(out)@ + (sketch_text(id as int, corners, list@) + solid(
                    id as int,
                ) + " = extrude(p"@ + decimal(id as nat) + ", length = "@ + list@[2 * corners]@
                    + ")\n\n"@)
            },
        },
{
    if !vector[0].is_zero() || !vector[1].is_zero() {
        return Err(KclError::NotVertical);
    }
    match profile.single_polygon_points() {
        None => Err(KclError::NotPolygon),
        Some(points) => {
            let corners: usize = points.len();
            assert(corners == profile.loops@[0].curves@.len());
            emit_polygon_sketch(out, id, corners, list);
            push_solid(out, id);
            out.append(" = extrude(p");
            push_decimal(out, id as u64);
            out.append(", length = ");
            assert(2 * corners < list.len());
            out.append(list[2 * corners].as_str());
            out.append(")\n\n");
            assert(out@ =~= old(out)@ + (sketch_text(id as int, corners as int, list@) + solid(
                id as int,
            ) + " = extrude(p"@ + decimal(id as nat) + ", length = "@ + list@[2 * corners]@
                + ")\n\n"@));
            Ok(())
        },
    }
}

/// Writes a node as a statement.
pub fn emit_node(
    out: &mut String,
    node: &CadNode,
    id: usize,
    numbers: &Option<Vec<String>>,
) -> (result: Result<(), KclError>)
    requires
        match *numbers {
            Some(list) => list@.len() >= numbers_needed(*node),
            None => true,
        },
    ensures
        match result {
            Ok(()) => node_text(*node, id as int, *numbers) matches Ok(text) && final(out)@ == old(
                out,
            )@ + text,
            Err(error) => node_text(*node, id as int, *numbers) == Err::<Seq<char>, KclError>(
                error,
            ),
        },
{
    match node {
        CadNode::Extrude { profile, vector } => match numbers {
            Some(list) => emit_extrude(out, id, profile, vector, list),
            None => if !vector[0].is_zero() || !vector[1].is_zero() {
                Err(KclError::NotVertical)
            } else if profile.single_polygon_points().is_none() {
                Err(KclError::NotPolygon)
            } else {
                Err(KclError::Inexact)
            },
        },
        CadNode::Transform { transform, child } => {
            if transform.pure_translation().is_none() {
                return Err(KclError::NotTranslation);
            }
            match numbers {
                Some(list) => {
                    push_solid(out, id);
                    out.append(" = ");
                    push_solid(out, child.0);
                    out.append(" |> translate(xyz = [");
                    out.append(list[0].as_str());
                    out.append(", ");
                    out.append(list[1].as_str());
                    out.append(", ");
                    out.append(list[2].as_str());
                    out.append("], global = true)\n\n");
                    assert(out@ =~= old(out)@ + node_text(*node, id as int, *numbers)->Ok_0);
                    Ok(())
                },
                None => Err(KclError::Inexact),
            }
        },
        CadNode::Pattern { pattern, child } => match pattern {
            PatternSpec::Linear { count, .. } => {
                if *count == 0 {
                    return Err(KclError::EmptyPattern);
                }
                match numbers {
                    None => Err(KclError::BadStep),
                    Some(list) => {
                        push_solid(out, id);
                        out.append(" = ");
                        push_solid(out, child.0);
                        out.append(" |> patternLinear3d(instances = ");
                        push_decimal(out, *count as u64);
                        out.append(", distance = ");
                        out.append(list[0].as_str());
                        out.append(", axis = [");
                        out.append(list[1].as_str());
                        out.append(", ");
                        out.append(list[2].as_str());
                        out.append(", ");
                        out.append(list[3].as_str());
                        out.append("])\n\n");
                        assert(out@ =~= old(out)@ + node_text(*node, id as int, *numbers)->Ok_0);
                        Ok(())
                    },
                }
            },
            _ => Err(KclError::Unsupported),
        },
        _ => Err(KclError::Unsupported),
    }
}

/// Writes a model as a program.
pub fn emit_kcl(model: &CadModel, numbers: &KclNumbers) -> (out: Result<String, KclError>)
    requires
        numbers_fit(model.nodes@, *numbers),
    ensures
        match out {
            Ok(text) => kcl_text(*model, *numbers) == Ok::<Seq<char>, KclError>(text@),
            Err(error) => kcl_text(*model, *numbers) == Err::<Seq<char>, KclError>(error),
        },
{
    match model.validate() {
        Err(error) => return Err(KclError::Model(error)),
        Ok(()) => {},
    }
    proof {
        crate::cad_model::lemma_no_fault(
            model.nodes@,
            model.provenance@,
            model.nodes@.len() as int,
        );
    }
    let mut order: Vec<usize> = Vec::new();
    visit_nodes(model, &model.roots, &mut order, model.nodes.len());
    let mut text = String::new();
    let mut i: usize = 0;
    assert(order@.take(0) =~= Seq::empty());
    assert(text@ =~= Seq::empty());
    while i < order.len()
        invariant
            i <= order@.len(),
            model.fault() is None,
            numbers_fit(model.nodes@, *numbers),
            in_model(order@, model.nodes@.len()),
            order@ == all_visited(
                model.nodes@,
                model.roots@,
                Seq::empty(),
                model.nodes@.len(),
            ),
            nodes_text(model.nodes@, numbers.of@, order@.take(i as int)) == Ok::<
                Seq<char>,
                KclError,
            >(text@),
        decreases order.len() - i,
    {
        let id: usize = order[i];
        assert(order@[i as int] < model.nodes@.len());
        assert(order@.take(i + 1).drop_last() =~= order@.take(i as int));
        assert(order@.take(i + 1).last() == id);
        assert(match numbers.of@[id as int] {
            Some(list) => list@.len() >= numbers_needed(model.nodes@[id as int]),
            None => true,
        });
        match emit_node(&mut text, &model.nodes[id], id, &numbers.of[id]) {
            Err(error) => {
                proof {
                    lemma_error_stays(model.nodes@, numbers.of@, order@, i + 1);
                }
                return Err(error);
            },
            Ok(()) => {},
        }
        i = i + 1;
    }
    assert(order@.take(i as int) =~= order@);
    Ok(text)
}

/// What cannot be written at first cannot be written with more behind it.
proof fn lemma_error_stays(
    nodes: Seq<CadNode>,
    numbers: Seq<Option<Vec<String>>>,
    order: Seq<usize>,
    n: int,
)
    requires
        0 <= n <= order.len(),
        nodes_text(nodes, numbers, order.take(n)) is Err,
    ensures
        nodes_text(nodes, numbers, order) == nodes_text(nodes, numbers, order.take(n)),
    decreases order.len() - n,
{
    if n < order.len() {
        assert(order.take(n + 1).drop_last() =~= order.take(n));
        lemma_error_stays(nodes, numbers, order, n + 1);
    } else {
        assert(order.take(n) =~= order);
    }
}

/// Whether each node of a list comes after all that it is made of.
pub open spec fn parts_first(nodes: Seq<CadNode>, order: Seq<usize>) -> bool {
    forall|j: int, b: int|
        #![trigger edge(nodes, order[j] as int, b)]
        0 <= j < order.len() && edge(nodes, order[j] as int, b) ==> order.take(j).contains(
            b as usize,
        )
}

/// In a sound model a node is written after all that it is made of.
pub proof fn law_parts_first(nodes: Seq<CadNode>, ids: Seq<NodeId>, done: Seq<usize>, height: nat)
    requires
        parts_first(nodes, done),
        forall|i: int|
            0 <= i < nodes.len() ==> all_exist((#[trigger] nodes[i]).parts(), nodes.len()),
        forall|i: int|
            0 <= i < ids.len() ==> is_low(nodes, (#[trigger] ids[i]).0 as int, height) && ids[i].0
                < nodes.len(),
    ensures
        parts_first(nodes, all_visited(nodes, ids, done, height)),
        forall|x: usize|
            done.contains(x) ==> #[trigger] all_visited(nodes, ids, done, height).contains(x),
        forall|i: int|
            0 <= i < ids.len() ==> all_visited(nodes, ids, done, height).contains(
                (#[trigger] ids[i]).0,
            ),
    decreases height, ids.len() + 1,
{
    if ids.len() > 0 {
        let before = all_visited(nodes, ids.drop_last(), done, height);
        assert forall|i: int| 0 <= i < ids.len() - 1 implies is_low(
            nodes,
            (#[trigger] ids.drop_last()[i]).0 as int,
            height,
        ) && ids.drop_last()[i].0 < nodes.len() by {
            assert(ids.drop_last()[i] == ids[i]);
        }
        law_parts_first(nodes, ids.drop_last(), done, height);
        assert(is_low(nodes, ids[ids.len() - 1].0 as int, height));
        lemma_one_visited(nodes, ids.last().0 as int, before, height);
        let after = all_visited(nodes, ids, done, height);
        assert forall|i: int| 0 <= i < ids.len() implies after.contains(
            (#[trigger] ids[i]).0,
        ) by {
            if i < ids.len() - 1 {
                assert(before.contains(ids.drop_last()[i].0));
            }
        }
    }
}

proof fn lemma_one_visited(nodes: Seq<CadNode>, id: int, done: Seq<usize>, height: nat)
    requires
        0 <= id < nodes.len(),
        id <= usize::MAX,
        parts_first(nodes, done),
        is_low(nodes, id, height),
        forall|i: int|
            0 <= i < nodes.len() ==> all_exist((#[trigger] nodes[i]).parts(), nodes.len()),
    ensures
        parts_first(nodes, visited(nodes, id, done, height)),
        forall|x: usize|
            done.contains(x) ==> #[trigger] visited(nodes, id, done, height).contains(x),
        visited(nodes, id, done, height).contains(id as usize),
    decreases height, 0nat,
{
    let after = visited(nodes, id, done, height);
    if !done.contains(id as usize) {
        let parts = nodes[id].parts();
        let below = (height - 1) as nat;
        assert(all_exist(parts, nodes.len()));
        assert forall|i: int| 0 <= i < parts.len() implies is_low(
            nodes,
            (#[trigger] parts[i]).0 as int,
            below,
        ) && parts[i].0 < nodes.len() by {
            assert(parts.contains(parts[i]));
            assert(edge(nodes, id, parts[i].0 as int));
        }
        law_parts_first(nodes, parts, done, below);
        let before = all_visited(nodes, parts, done, below);
        assert(after == before.push(id as usize));
        assert(after[before.len() as int] == id);
        assert forall|x: usize| done.contains(x) implies #[trigger] after.contains(x) by {
            assert(before.contains(x));
            let k = choose|k: int| 0 <= k < before.len() && before[k] == x;
            assert(after[k] == x);
        }
        assert forall|j: int, b: int|
            #![trigger edge(nodes, after[j] as int, b)]
            0 <= j < after.len() && edge(nodes, after[j] as int, b) implies after.take(
            j,
        ).contains(b as usize) by {
            if j < before.len() {
                assert(edge(nodes, before[j] as int, b));
                assert(after.take(j) =~= before.take(j));
            } else {
                assert(after.take(j) =~= before);
                let k = choose|k: int| 0 <= k < parts.len() && parts[k] == NodeId(b as usize);
                assert(parts.contains(NodeId(b as usize)));
                assert(before.contains(parts[k].0));
            }
        }
    }
}

} // verus!
