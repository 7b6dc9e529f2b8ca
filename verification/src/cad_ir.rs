//! Constructive models: a graph of nodes that builds solids.

use vstd::prelude::*;

verus! {

/// The number of a node in a model. It has nothing to do with entity numbers.
#[derive(Debug, Clone, Copy, PartialEq, Eq, Structural, PartialOrd, Ord, Hash)]
pub struct NodeId(pub usize);

/// How a profile is turned along a path.
#[derive(Debug, Clone, Copy, PartialEq, Eq, Structural)]
pub enum SweepFrame {
    Fixed,
    ParallelTransport,
    Frenet,
}

#[derive(Debug, Clone, Copy, PartialEq, Eq, Structural)]
pub enum BooleanOp {
    Union,
    Intersection,
    Difference,
}

/// How sure a node is.
#[derive(Debug, Clone, Copy, PartialEq, Eq, Structural)]
pub enum ProofStatus {
    Exact,
    WithinTolerance,
    HeuristicCandidate,
}

/// The bit pattern of a double.
#[derive(Debug, Clone, Copy, PartialEq, Eq, Structural)]
pub struct Scalar(pub u64);

/// The bit pattern of infinity. Larger magnitudes are no numbers.
pub const INFINITY_BITS: u64 = 0x7ff0000000000000;

pub const SIGN_BIT: u64 = 0x8000000000000000;

/// The bit pattern of one.
pub const ONE_BITS: u64 = 0x3ff0000000000000;

impl Scalar {
    /// The bit pattern of the absolute value.
    pub open spec fn magnitude(self) -> int {
        if self.0 >= SIGN_BIT {
            self.0 - SIGN_BIT
        } else {
            self.0 as int
        }
    }

    /// Whether two doubles are equal as numbers: both zeros are, and what is no number equals
    /// nothing.
    pub open spec fn same(self, other: Scalar) -> bool {
        ||| self.magnitude() == 0 && other.magnitude() == 0
        ||| self == other && self.magnitude() <= INFINITY_BITS
    }

    fn size(self) -> (out: u64)
        ensures
            out == self.magnitude(),
    {
        if self.0 >= SIGN_BIT {
            self.0 - SIGN_BIT
        } else {
            self.0
        }
    }

    /// Whether two doubles are equal as numbers.
    pub fn equals(self, other: Scalar) -> (out: bool)
        ensures
            out == self.same(other),
    {
        let a: u64 = self.size();
        let b: u64 = other.size();
        (a == 0 && b == 0) || (self.0 == other.0 && a <= INFINITY_BITS)
    }

    /// Whether a double is zero.
    pub fn is_zero(self) -> (out: bool)
        ensures
            out == (self.magnitude() == 0),
    {
        self.size() == 0
    }
}

/// A node that keeps the boundary representation of a solid.
#[derive(Debug)]
pub struct BrepFallback {
    pub source_entity_ids: Vec<u64>,
    pub estimated_faces: usize,
    pub estimated_edges: usize,
    pub estimated_control_points: usize,
}

/// A sum that stops at the largest number.
pub open spec fn bounded(n: nat) -> u64 {
    if n > u64::MAX {
        u64::MAX
    } else {
        n as u64
    }
}

fn add_up(a: u64, b: u64) -> (out: u64)
    ensures
        forall|m: nat, n: nat|
            a == bounded(m) && b == bounded(n) ==> out == #[trigger] bounded(m + n),
{
    a.saturating_add(b)
}

fn add_len(a: u64, n: usize) -> (out: u64)
    ensures
        forall|m: nat| a == bounded(m) ==> out == #[trigger] bounded(m + n as nat),
{
    a.saturating_add(n as u64)
}

impl BrepFallback {
    /// What keeping a boundary representation costs: more than any construction.
    pub open spec fn cost(&self) -> nat {
        (100 + self.estimated_faces * 8 + self.estimated_edges * 3
            + self.estimated_control_points) as nat
    }

    /// What keeping a boundary representation costs.
    pub fn complexity(&self) -> (out: u64)
        ensures
            out == bounded(self.cost()),
    {
        let sum: u128 = 100 + self.estimated_faces as u128 * 8 + self.estimated_edges as u128 * 3
            + self.estimated_control_points as u128;
        if sum > u64::MAX as u128 {
            u64::MAX
        } else {
            sum as u64
        }
    }
}

/// Where a node comes from.
#[derive(Debug)]
pub struct Provenance {
    pub source_entity_ids: Vec<u64>,
    pub proof: ProofStatus,
    pub max_residual: Option<Scalar>,
}

#[derive(Debug)]
pub enum Primitive {
    Box { size: [Scalar; 3] },
    Cylinder { radius: Scalar, height: Scalar },
    Sphere { radius: Scalar },
}

#[derive(Debug)]
pub enum Curve2d {
    Line { start: [Scalar; 2], end: [Scalar; 2] },
    CircleArc {
        center: [Scalar; 2],
        radius: Scalar,
        start_angle: Scalar,
        end_angle: Scalar,
    },
    Bezier { control_points: Vec<[Scalar; 2]> },
    BSpline {
        degree: usize,
        control_points: Vec<[Scalar; 2]>,
        knots: Vec<Scalar>,
        weights: Option<Vec<Scalar>>,
    },
}

/// The length of a list of weights, if there is one.
pub open spec fn weight_count(weights: Option<Vec<Scalar>>) -> nat {
    match weights {
        Some(list) => list@.len(),
        None => 0,
    }
}

fn count_weights(weights: &Option<Vec<Scalar>>) -> (out: usize)
    ensures
        out == weight_count(*weights),
{
    match weights {
        Some(list) => list.len(),
        None => 0,
    }
}

impl Curve2d {
    pub open spec fn cost(&self) -> nat {
        match self {
            Curve2d::Line { .. } => 1,
            Curve2d::CircleArc { .. } => 2,
            Curve2d::Bezier { control_points } => 2 + control_points@.len(),
            Curve2d::BSpline { control_points, knots, weights, .. } => 4 + control_points@.len()
                + knots@.len() + weight_count(*weights),
        }
    }

    pub fn complexity(&self) -> (out: u64)
        ensures
            out == bounded(self.cost()),
    {
        match self {
            Curve2d::Line { .. } => 1,
            Curve2d::CircleArc { .. } => 2,
            Curve2d::Bezier { control_points } => add_len(2, control_points.len()),
            Curve2d::BSpline { control_points, knots, weights, .. } => {
                let a: u64 = add_len(4, control_points.len());
                let b: u64 = add_len(a, knots.len());
                add_len(b, count_weights(weights))
            },
        }
    }
}

#[derive(Debug)]
pub struct ProfileLoop {
    pub curves: Vec<Curve2d>,
}

pub open spec fn curves_cost(curves: Seq<Curve2d>) -> nat
    decreases curves.len(),
{
    if curves.len() == 0 {
        0
    } else {
        curves_cost(curves.drop_last()) + curves.last().cost()
    }
}

impl ProfileLoop {
    fn complexity(&self) -> (out: u64)
        ensures
            out == bounded(1 + curves_cost(self.curves@)),
    {
        let mut out: u64 = 1;
        let mut i: usize = 0;
        while i < self.curves.len()
            invariant
                i <= self.curves@.len(),
                out == bounded(1 + curves_cost(self.curves@.take(i as int))),
            decreases self.curves.len() - i,
        {
            let next: u64 = self.curves[i].complexity();
            assert(self.curves@.take(i + 1).drop_last() =~= self.curves@.take(i as int));
            assert(1 + curves_cost(self.curves@.take(i + 1)) == 1 + curves_cost(
                self.curves@.take(i as int),
            ) + self.curves@[i as int].cost());
            out = add_up(out, next);
            i = i + 1;
        }
        assert(self.curves@.take(i as int) =~= self.curves@);
        out
    }
}

/// The outline of a solid: closed loops of curves.
#[derive(Debug)]
pub struct Profile2d {
    pub loops: Vec<ProfileLoop>,
}

pub open spec fn loops_cost(loops: Seq<ProfileLoop>) -> nat
    decreases loops.len(),
{
    if loops.len() == 0 {
        0
    } else {
        loops_cost(loops.drop_last()) + (1 + curves_cost(loops.last().curves@))
    }
}

/// Whether two points are the same.
pub open spec fn same_point(a: [Scalar; 2], b: [Scalar; 2]) -> bool {
    a@[0].same(b@[0]) && a@[1].same(b@[1])
}

/// Whether curves are lines, each of which starts where the one before ends, the first one
/// where the last one ends.
pub open spec fn is_polygon(curves: Seq<Curve2d>) -> bool {
    &&& curves.len() >= 3
    &&& forall|i: int| 0 <= i < curves.len() ==> (#[trigger] curves[i]) is Line
    &&& forall|i: int|
        1 <= i < curves.len() ==> same_point(
            curves[i - 1]->Line_end,
            #[trigger] curves[i]->Line_start,
        )
    &&& same_point(curves.last()->Line_end, curves[0]->Line_start)
}

impl Profile2d {
    /// A profile of one loop of lines through points.
    pub fn polygon(points: &Vec<[Scalar; 2]>) -> (out: Option<Profile2d>)
        ensures
            out is None == (points@.len() < 3),
            out matches Some(profile) ==> profile.loops@.len() == 1 && ({
                let curves = profile.loops@[0].curves@;
                &&& curves.len() == points@.len()
                &&& forall|i: int|
                    0 <= i < curves.len() ==> #[trigger] curves[i] == (Curve2d::Line {
                        start: points@[i],
                        end: points@[if i + 1 == points@.len() {
                            0
                        } else {
                            i + 1
                        }],
                    })
            }),
    {
        if points.len() < 3 {
            return None;
        }
        let mut curves: Vec<Curve2d> = Vec::new();
        let mut i: usize = 0;
        while i < points.len()
            invariant
                i <= points@.len(),
                curves@.len() == i,
                forall|j: int|
                    0 <= j < i ==> #[trigger] curves@[j] == (Curve2d::Line {
                        start: points@[j],
                        end: points@[if j + 1 == points@.len() {
                            0
                        } else {
                            j + 1
                        }],
                    }),
            decreases points.len() - i,
        {
            let next: usize = if i + 1 == points.len() {
                0
            } else {
                i + 1
            };
            curves.push(Curve2d::Line { start: points[i], end: points[next] });
            i = i + 1;
        }
        let mut loops: Vec<ProfileLoop> = Vec::new();
        loops.push(ProfileLoop { curves });
        Some(Profile2d { loops })
    }

    pub fn complexity(&self) -> (out: u64)
        ensures
            out == bounded(loops_cost(self.loops@)),
    {
        let mut out: u64 = 0;
        let mut i: usize = 0;
        while i < self.loops.len()
            invariant
                i <= self.loops@.len(),
                out == bounded(loops_cost(self.loops@.take(i as int))),
            decreases self.loops.len() - i,
        {
            let next: u64 = self.loops[i].complexity();
            assert(self.loops@.take(i + 1).drop_last() =~= self.loops@.take(i as int));
            out = add_up(out, next);
            i = i + 1;
        }
        assert(self.loops@.take(i as int) =~= self.loops@);
        out
    }

    /// The corners of a profile that is one polygon.
    pub fn single_polygon_points(&self) -> (out: Option<Vec<[Scalar; 2]>>)
        ensures
            out is Some == (self.loops@.len() == 1 && is_polygon(self.loops@[0].curves@)),
            out matches Some(points) ==> points@ == Seq::new(
                self.loops@[0].curves@.len(),
                |i: int| self.loops@[0].curves@[i]->Line_start,
            ),
    {
        if self.loops.len() != 1 {
            return None;
        }
        let curves = &self.loops[0].curves;
        if curves.len() < 3 {
            return None;
        }
        let mut points: Vec<[Scalar; 2]> = Vec::new();
        let mut previous: Option<[Scalar; 2]> = None;
        let mut i: usize = 0;
        while i < curves.len()
            invariant
                i <= curves@.len(),
                self.loops@.len() == 1,
                *curves == self.loops@[0].curves,
                curves@.len() >= 3,
                points@.len() == i,
                previous is Some == (i > 0),
                previous matches Some(end) ==> end == curves@[i - 1]->Line_end,
                forall|j: int|
                    0 <= j < i ==> (#[trigger] curves@[j]) is Line && points@[j]
                        == curves@[j]->Line_start,
                forall|j: int|
                    1 <= j < i ==> same_point(
                        curves@[j - 1]->Line_end,
                        #[trigger] curves@[j]->Line_start,
                    ),
            decreases curves.len() - i,
        {
            match &curves[i] {
                Curve2d::Line { start, end } => {
                    if let Some(last) = previous {
                        if !last[0].equals(start[0]) || !last[1].equals(start[1]) {
                            assert(!same_point(
                                curves@[i - 1]->Line_end,
                                curves@[i as int]->Line_start,
                            ));
                            return None;
                        }
                    }
                    points.push(*start);
                    previous = Some(*end);
                },
                _ => {
                    assert(!(curves@[i as int] is Line));
                    return None;
                },
            }
            i = i + 1;
        }
        let first = points[0];
        assert(points@[0] == curves@[0]->Line_start);
        match previous {
            Some(last) => {
                if !last[0].equals(first[0]) || !last[1].equals(first[1]) {
                    return None;
                }
            },
            None => {
                return None;
            },
        }
        assert(points@ =~= Seq::new(
            self.loops@[0].curves@.len(),
            |j: int| self.loops@[0].curves@[j]->Line_start,
        ));
        Some(points)
    }
}

/// A polygon gives back its corners, where each coordinate is a number.
pub proof fn law_polygon_round_trip(points: Seq<[Scalar; 2]>, curves: Seq<Curve2d>)
    requires
        points.len() >= 3,
        curves.len() == points.len(),
        forall|i: int|
            0 <= i < points.len() ==> (#[trigger] points[i])@[0].magnitude() <= INFINITY_BITS
                && points[i]@[1].magnitude() <= INFINITY_BITS,
        forall|i: int|
            0 <= i < curves.len() ==> #[trigger] curves[i] == (Curve2d::Line {
                start: points[i],
                end: points[if i + 1 == points.len() {
                    0
                } else {
                    i + 1
                }],
            }),
    ensures
        is_polygon(curves),
        Seq::new(curves.len(), |i: int| curves[i]->Line_start) == points,
{
    assert forall|i: int| 1 <= i < curves.len() implies same_point(
        curves[i - 1]->Line_end,
        #[trigger] curves[i]->Line_start,
    ) by {
        assert(curves[i - 1]->Line_end == points[i]);
        assert(points[i]@[0].same(points[i]@[0]));
    }
    assert(curves.last()->Line_end == points[0]);
    assert(points[0]@[0].same(points[0]@[0]));
    assert(Seq::new(curves.len(), |i: int| curves[i]->Line_start) =~= points);
}

#[derive(Debug)]
pub enum Path3d {
    Polyline { points: Vec<[Scalar; 3]> },
    BSpline {
        degree: usize,
        control_points: Vec<[Scalar; 3]>,
        knots: Vec<Scalar>,
        weights: Option<Vec<Scalar>>,
    },
}

impl Path3d {
    pub open spec fn cost(&self) -> nat {
        match self {
            Path3d::Polyline { points } => 1 + points@.len(),
            Path3d::BSpline { control_points, knots, weights, .. } => 4 + control_points@.len()
                + knots@.len() + weight_count(*weights),
        }
    }

    pub fn complexity(&self) -> (out: u64)
        ensures
            out == bounded(self.cost()),
    {
        match self {
            Path3d::Polyline { points } => add_len(1, points.len()),
            Path3d::BSpline { control_points, knots, weights, .. } => {
                let a: u64 = add_len(4, control_points.len());
                let b: u64 = add_len(a, knots.len());
                add_len(b, count_weights(weights))
            },
        }
    }
}

#[derive(Debug, Clone, Copy)]
pub struct Axis3 {
    pub origin: [Scalar; 3],
    pub direction: [Scalar; 3],
}

#[derive(Debug, Clone, Copy)]
pub struct RigidTransform {
    pub matrix: [[Scalar; 4]; 4],
}

/// The part of the unit matrix at a row and a column.
pub open spec fn unit_part(row: int, column: int) -> Scalar {
    if row == column {
        Scalar(ONE_BITS)
    } else {
        Scalar(0)
    }
}

/// Whether a matrix only moves.
pub open spec fn only_moves(matrix: [[Scalar; 4]; 4]) -> bool {
    forall|row: int, column: int|
        0 <= row < 4 && 0 <= column < 4 && !(column == 3 && row < 3) ==> (
        #[trigger] matrix@[row]@[column]).same(unit_part(row, column))
}

impl RigidTransform {
    /// The transform that changes nothing.
    pub fn identity() -> (out: RigidTransform)
        ensures
            forall|row: int, column: int|
                0 <= row < 4 && 0 <= column < 4 ==> #[trigger] out.matrix@[row]@[column]
                    == unit_part(row, column),
    {
        let z = Scalar(0);
        let one = Scalar(ONE_BITS);
        RigidTransform { matrix: [[one, z, z, z], [z, one, z, z], [z, z, one, z], [z, z, z, one]] }
    }

    /// The transform that moves by a vector.
    pub fn translation_mm(xyz: [Scalar; 3]) -> (out: RigidTransform)
        ensures
            only_moves(out.matrix),
            forall|row: int| 0 <= row < 3 ==> #[trigger] out.matrix@[row]@[3] == xyz@[row],
    {
        let z = Scalar(0);
        let one = Scalar(ONE_BITS);
        RigidTransform {
            matrix: [[one, z, z, xyz[0]], [z, one, z, xyz[1]], [z, z, one, xyz[2]], [z, z, z, one]],
        }
    }

    /// The vector by which a transform that only moves moves.
    pub fn pure_translation(&self) -> (out: Option<[Scalar; 3]>)
        ensures
            out is Some == only_moves(self.matrix),
            out matches Some(xyz) ==> forall|row: int|
                0 <= row < 3 ==> #[trigger] xyz@[row] == self.matrix@[row]@[3],
    {
        let mut row: usize = 0;
        while row < 4
            invariant
                row <= 4,
                forall|r: int, c: int|
                    0 <= r < row && 0 <= c < 4 && !(c == 3 && r < 3) ==> (
                    #[trigger] self.matrix@[r]@[c]).same(unit_part(r, c)),
            decreases 4 - row,
        {
            let mut column: usize = 0;
            while column < 4
                invariant
                    row < 4,
                    column <= 4,
                    forall|r: int, c: int|
                        0 <= r < row && 0 <= c < 4 && !(c == 3 && r < 3) ==> (
                        #[trigger] self.matrix@[r]@[c]).same(unit_part(r, c)),
                    forall|c: int|
                        0 <= c < column && !(c == 3 && row < 3) ==> (
                        #[trigger] self.matrix@[row as int]@[c]).same(unit_part(row as int, c)),
                decreases 4 - column,
            {
                let wanted = if row == column {
                    Scalar(ONE_BITS)
                } else {
                    Scalar(0)
                };
                if !(column == 3 && row < 3) && !self.matrix[row][column].equals(wanted) {
                    assert(!self.matrix@[row as int]@[column as int].same(
                        unit_part(row as int, column as int),
                    ));
                    return None;
                }
                column = column + 1;
            }
            row = row + 1;
        }
        Some([self.matrix[0][3], self.matrix[1][3], self.matrix[2][3]])
    }
}

#[derive(Debug)]
pub enum PatternSpec {
    Linear { count: usize, step: [Scalar; 3] },
    Grid {
        counts: [usize; 3],
        step_vectors: [[Scalar; 3]; 3],
        occupancy: Option<Vec<[usize; 3]>>,
    },
    Polar { count: usize, axis: Axis3, total_angle: Scalar, rotate_instances: bool },
}

impl PatternSpec {
    pub open spec fn cost(&self) -> nat {
        match self {
            PatternSpec::Linear { .. } => 2,
            PatternSpec::Grid { occupancy, .. } => 4 + match occupancy {
                Some(sites) => sites@.len(),
                None => 0,
            },
            PatternSpec::Polar { .. } => 4,
        }
    }

    pub fn complexity(&self) -> (out: u64)
        ensures
            out == bounded(self.cost()),
    {
        match self {
            PatternSpec::Linear { .. } => 2,
            PatternSpec::Grid { occupancy, .. } => match occupancy {
                Some(sites) => add_len(4, sites.len()),
                None => 4,
            },
            PatternSpec::Polar { .. } => 4,
        }
    }
}

#[derive(Debug)]
pub enum CadNode {
    Primitive(Primitive),
    Extrude { profile: Profile2d, vector: [Scalar; 3] },
    Revolve { profile: Profile2d, axis: Axis3, angle: Scalar },
    Sweep { profile: Profile2d, path: Path3d, frame: SweepFrame },
    Boolean { op: BooleanOp, children: Vec<NodeId> },
    Transform { transform: RigidTransform, child: NodeId },
    Pattern { pattern: PatternSpec, child: NodeId },
    Assembly { children: Vec<NodeId> },
    BrepFallback(BrepFallback),
}

impl CadNode {
    /// The nodes that a node is made of.
    pub open spec fn parts(&self) -> Seq<NodeId> {
        match self {
            CadNode::Boolean { children, .. } => children@,
            CadNode::Assembly { children } => children@,
            CadNode::Transform { child, .. } => seq![*child],
            CadNode::Pattern { child, .. } => seq![*child],
            _ => Seq::empty(),
        }
    }

    /// The nodes that a node is made of.
    pub fn children(&self) -> (out: Vec<NodeId>)
        ensures
            out@ == self.parts(),
    {
        match self {
            CadNode::Boolean { children, .. } => copy_nodes(children),
            CadNode::Assembly { children } => copy_nodes(children),
            CadNode::Transform { child, .. } => one_node(*child),
            CadNode::Pattern { child, .. } => one_node(*child),
            _ => Vec::new(),
        }
    }

    /// What a node costs without its parts.
    pub open spec fn cost(&self) -> nat {
        match self {
            CadNode::Primitive(_) => 1,
            CadNode::Extrude { profile, .. } => 1 + loops_cost(profile.loops@),
            CadNode::Revolve { profile, .. } => 1 + loops_cost(profile.loops@),
            CadNode::Sweep { profile, path, .. } => 2 + loops_cost(profile.loops@) + path.cost(),
            CadNode::Boolean { children, .. } => 1 + children@.len(),
            CadNode::Transform { .. } => 2,
            CadNode::Pattern { pattern, .. } => 2 + pattern.cost(),
            CadNode::Assembly { children } => 1 + children@.len(),
            CadNode::BrepFallback(fallback) => fallback.cost(),
        }
    }

    pub fn local_complexity(&self) -> (out: u64)
        ensures
            out == bounded(self.cost()),
    {
        match self {
            CadNode::Primitive(_) => 1,
            CadNode::Extrude { profile, .. } => add_up(1, profile.complexity()),
            CadNode::Revolve { profile, .. } => add_up(1, profile.complexity()),
            CadNode::Sweep { profile, path, .. } => {
                let a: u64 = add_up(2, profile.complexity());
                add_up(a, path.complexity())
            },
            CadNode::Boolean { children, .. } => add_len(1, children.len()),
            CadNode::Transform { .. } => 2,
            CadNode::Pattern { pattern, .. } => add_up(2, pattern.complexity()),
            CadNode::Assembly { children } => add_len(1, children.len()),
            CadNode::BrepFallback(fallback) => fallback.complexity(),
        }
    }
}

fn one_node(id: NodeId) -> (out: Vec<NodeId>)
    ensures
        out@ == seq![id],
{
    let mut out: Vec<NodeId> = Vec::new();
    out.push(id);
    assert(out@ =~= seq![id]);
    out
}

fn copy_nodes(list: &Vec<NodeId>) -> (out: Vec<NodeId>)
    ensures
        out@ == list@,
{
    let mut out: Vec<NodeId> = Vec::new();
    let mut i: usize = 0;
    while i < list.len()
        invariant
            i <= list@.len(),
            out@ == list@.take(i as int),
        decreases list.len() - i,
    {
        out.push(list[i]);
        i = i + 1;
        assert(list@.take(i as int) =~= list@.take(i - 1).push(list@[i - 1]));
    }
    assert(list@.take(i as int) =~= list@);
    out
}

/// Keeping a boundary representation never costs less than a hundred, and costs more the more
/// faces, edges and control points there are.
pub proof fn law_fallback_is_expensive(fallback: BrepFallback)
    ensures
        fallback.cost() >= 100,
        fallback.cost() >= fallback.estimated_faces * 8,
        fallback.cost() >= fallback.estimated_edges * 3,
        fallback.cost() >= fallback.estimated_control_points,
{
}

/// What a fragment of a model was recovered from.
#[derive(Debug)]
pub enum CadFragmentSource {
    InstancePattern { parent_representation: u64, representation_map: u64, item_ids: Vec<u64> },
    SolidExtrusion { solid_id: u64, cap_face_ids: [u64; 2], side_face_ids: Vec<u64> },
    SolidRevolution { solid_id: u64, face_ids: Vec<u64> },
}

} // verus!
