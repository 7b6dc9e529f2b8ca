//! Curves of a profile that were found around a solid.

use vstd::prelude::*;

use crate::cad_ir::{Curve2d, Scalar, INFINITY_BITS, SIGN_BIT};

verus! {

/// A curve of a profile, and the edges that it was found at.
#[derive(Debug)]
pub enum RecoveredProfileCurve {
    Line { source_edge_ids: Vec<u64>, start: [Scalar; 2], end: [Scalar; 2] },
    CircleArc {
        source_edge_ids: Vec<u64>,
        center: [Scalar; 2],
        radius: Scalar,
        start_angle: Scalar,
        end_angle: Scalar,
    },
    Bezier { source_edge_ids: Vec<u64>, control_points: Vec<[Scalar; 2]> },
    BSpline {
        source_edge_ids: Vec<u64>,
        degree: usize,
        control_points: Vec<[Scalar; 2]>,
        knots: Vec<Scalar>,
        weights: Option<Vec<Scalar>>,
    },
}

/// What is wrong with a curve.
#[derive(Debug, Clone, Copy, PartialEq, Eq, Structural)]
pub enum CurveError {
    NoSourceEdges,
    BadLine,
    BadArc,
    BadBezier,
    DegreeOverflow,
    KnotOverflow,
    BadSpline,
    BadWeights,
}

impl Scalar {
    pub open spec fn is_finite(self) -> bool {
        self.magnitude() < INFINITY_BITS
    }

    /// A number that orders finite doubles as they are ordered.
    pub open spec fn order(self) -> int {
        if self.0 >= SIGN_BIT {
            -self.magnitude()
        } else {
            self.magnitude()
        }
    }

    pub open spec fn is_positive(self) -> bool {
        self.is_finite() && self.order() > 0
    }

    pub fn finite(self) -> (out: bool)
        ensures
            out == self.is_finite(),
    {
        if self.0 >= SIGN_BIT {
            self.0 - SIGN_BIT < INFINITY_BITS
        } else {
            self.0 < INFINITY_BITS
        }
    }

    /// Whether a finite double is less than another.
    pub fn less(self, other: Scalar) -> (out: bool)
        ensures
            out == (self.order() < other.order()),
    {
        let a_negative = self.0 >= SIGN_BIT;
        let b_negative = other.0 >= SIGN_BIT;
        let a: u64 = if a_negative {
            self.0 - SIGN_BIT
        } else {
            self.0
        };
        let b: u64 = if b_negative {
            other.0 - SIGN_BIT
        } else {
            other.0
        };
        if a_negative {
            if b_negative {
                a > b
            } else {
                a > 0 || b > 0
            }
        } else {
            !b_negative && a < b
        }
    }

    pub fn positive(self) -> (out: bool)
        ensures
            out == self.is_positive(),
    {
        self.finite() && Scalar(0).less(self)
    }
}

pub open spec fn is_finite_point(point: [Scalar; 2]) -> bool {
    point@[0].is_finite() && point@[1].is_finite()
}

fn finite_point(point: [Scalar; 2]) -> (out: bool)
    ensures
        out == is_finite_point(point),
{
    point[0].finite() && point[1].finite()
}

pub open spec fn are_finite_points(points: Seq<[Scalar; 2]>) -> bool {
    forall|i: int| 0 <= i < points.len() ==> is_finite_point(#[trigger] points[i])
}

fn finite_points(points: &Vec<[Scalar; 2]>) -> (out: bool)
    ensures
        out == are_finite_points(points@),
{
    let mut i: usize = 0;
    while i < points.len()
        invariant
            i <= points.len(),
            forall|j: int| 0 <= j < i ==> is_finite_point(#[trigger] points@[j]),
        decreases points.len() - i,
    {
        if !finite_point(points[i]) {
            assert(!is_finite_point(points@[i as int]));
            return false;
        }
        i = i + 1;
    }
    true
}

pub open spec fn is_same_point(a: [Scalar; 2], b: [Scalar; 2]) -> bool {
    a@[0].same(b@[0]) && a@[1].same(b@[1])
}

/// Whether the first and the last knots are each repeated as often as a curve needs that begins
/// and ends at its outermost control points.
pub open spec fn is_clamped(knots: Seq<Scalar>, order: int) -> bool {
    &&& knots.len() >= 2 * order
    &&& forall|i: int| 0 <= i < order ==> (#[trigger] knots[i]).same(knots[0])
    &&& forall|i: int|
        knots.len() - order <= i < knots.len() ==> (#[trigger] knots[i]).same(
            knots[knots.len() - 1],
        )
}

/// Whether a knot is not less than the one before it.
pub open spec fn is_rise(knots: Seq<Scalar>, i: int) -> bool {
    knots[i - 1].order() <= knots[i].order()
}

/// Whether knots never fall.
pub open spec fn never_fall(knots: Seq<Scalar>) -> bool {
    forall|i: int| 1 <= i < knots.len() ==> #[trigger] is_rise(knots, i)
}

/// Whether a spline has as many knots as it needs, and they are in order.
pub open spec fn is_spline(degree: int, points: Seq<[Scalar; 2]>, knots: Seq<Scalar>) -> bool {
    &&& degree > 0
    &&& points.len() >= degree + 1
    &&& knots.len() == points.len() + degree + 1
    &&& are_finite_points(points)
    &&& forall|i: int| 0 <= i < knots.len() ==> (#[trigger] knots[i]).is_finite()
    &&& never_fall(knots)
    &&& !knots[0].same(knots[knots.len() - 1])
    &&& is_clamped(knots, degree + 1)
}

/// Whether weights belong to as many control points.
pub open spec fn are_weights(weights: Seq<Scalar>, points: nat) -> bool {
    weights.len() == points && forall|i: int|
        0 <= i < weights.len() ==> (#[trigger] weights[i]).is_positive()
}

impl RecoveredProfileCurve {
    /// The edges that the curve was found at.
    pub open spec fn sources(&self) -> Seq<u64> {
        match self {
            RecoveredProfileCurve::Line { source_edge_ids, .. } => source_edge_ids@,
            RecoveredProfileCurve::CircleArc { source_edge_ids, .. } => source_edge_ids@,
            RecoveredProfileCurve::Bezier { source_edge_ids, .. } => source_edge_ids@,
            RecoveredProfileCurve::BSpline { source_edge_ids, .. } => source_edge_ids@,
        }
    }

    /// The edges that the curve was found at.
    pub fn source_edge_ids(&self) -> (out: &Vec<u64>)
        ensures
            out@ == self.sources(),
    {
        match self {
            RecoveredProfileCurve::Line { source_edge_ids, .. } => source_edge_ids,
            RecoveredProfileCurve::CircleArc { source_edge_ids, .. } => source_edge_ids,
            RecoveredProfileCurve::Bezier { source_edge_ids, .. } => source_edge_ids,
            RecoveredProfileCurve::BSpline { source_edge_ids, .. } => source_edge_ids,
        }
    }

    /// What is wrong with the form of the curve.
    pub open spec fn fault(&self) -> Option<CurveError> {
        match self {
            RecoveredProfileCurve::Line { start, end, .. } => if !is_finite_point(*start)
                || !is_finite_point(*end) || is_same_point(*start, *end) {
                Some(CurveError::BadLine)
            } else {
                None
            },
            RecoveredProfileCurve::CircleArc { center, radius, start_angle, end_angle, .. } => if
            !is_finite_point(*center) || !radius.is_positive() || !start_angle.is_finite()
                || !end_angle.is_finite() {
                Some(CurveError::BadArc)
            } else {
                None
            },
            RecoveredProfileCurve::Bezier { control_points, .. } => if control_points@.len() < 2
                || !are_finite_points(control_points@) {
                Some(CurveError::BadBezier)
            } else {
                None
            },
            RecoveredProfileCurve::BSpline { degree, control_points, knots, weights, .. } => if
            *degree + 1 > usize::MAX {
                Some(CurveError::DegreeOverflow)
            } else if control_points@.len() + *degree + 1 > usize::MAX {
                Some(CurveError::KnotOverflow)
            } else if !is_spline(*degree as int, control_points@, knots@) {
                Some(CurveError::BadSpline)
            } else {
                match weights {
                    Some(weights) => if are_weights(weights@, control_points@.len()) {
                        None
                    } else {
                        Some(CurveError::BadWeights)
                    },
                    None => None,
                }
            },
        }
    }

    /// What is wrong with the form of the curve.
    pub fn geometry_fault(&self) -> (out: Option<CurveError>)
        ensures
            out == self.fault(),
    {
        match self {
            RecoveredProfileCurve::Line { start, end, .. } => if !finite_point(*start)
                || !finite_point(*end) || (start[0].equals(end[0]) && start[1].equals(end[1])) {
                Some(CurveError::BadLine)
            } else {
                None
            },
            RecoveredProfileCurve::CircleArc { center, radius, start_angle, end_angle, .. } => if
            !finite_point(*center) || !radius.positive() || !start_angle.finite()
                || !end_angle.finite() {
                Some(CurveError::BadArc)
            } else {
                None
            },
            RecoveredProfileCurve::Bezier { control_points, .. } => if control_points.len() < 2
                || !finite_points(control_points) {
                Some(CurveError::BadBezier)
            } else {
                None
            },
            RecoveredProfileCurve::BSpline { degree, control_points, knots, weights, .. } => {
                let order: usize = match degree.checked_add(1) {
                    Some(order) => order,
                    None => {
                        return Some(CurveError::DegreeOverflow);
                    },
                };
                if control_points.len().checked_add(order).is_none() {
                    return Some(CurveError::KnotOverflow);
                }
                if !find_spline(*degree, control_points, knots) {
                    return Some(CurveError::BadSpline);
                }
                match weights {
                    Some(weights) => if find_weights(weights, control_points.len()) {
                        None
                    } else {
                        Some(CurveError::BadWeights)
                    },
                    None => None,
                }
            },
        }
    }
}

pub(crate) fn find_spline(degree: usize, points: &Vec<[Scalar; 2]>, knots: &Vec<Scalar>) -> (out: bool)
    requires
        points@.len() + degree + 1 <= usize::MAX,
    ensures
        out == is_spline(degree as int, points@, knots@),
{
    degree > 0 && points.len() >= degree + 1 && knots.len() == points.len() + degree + 1
        && finite_points(points) && are_knots(knots, degree + 1)
}

pub(crate) fn find_weights(weights: &Vec<Scalar>, points: usize) -> (out: bool)
    ensures
        out == are_weights(weights@, points as nat),
{
    weights.len() == points && all_positive(weights)
}

fn all_positive(values: &Vec<Scalar>) -> (out: bool)
    ensures
        out == forall|i: int| 0 <= i < values@.len() ==> (#[trigger] values@[i]).is_positive(),
{
    let mut i: usize = 0;
    while i < values.len()
        invariant
            i <= values.len(),
            forall|j: int| 0 <= j < i ==> (#[trigger] values@[j]).is_positive(),
        decreases values.len() - i,
    {
        if !values[i].positive() {
            assert(!values@[i as int].is_positive());
            return false;
        }
        i = i + 1;
    }
    true
}

/// Whether enough knots are finite, never fall, are not all the same, and are clamped.
fn are_knots(knots: &Vec<Scalar>, order: usize) -> (out: bool)
    requires
        0 < order,
        knots@.len() >= 2 * order,
    ensures
        out == ((forall|i: int| 0 <= i < knots@.len() ==> (#[trigger] knots@[i]).is_finite())
            && never_fall(knots@) && !knots@[0].same(knots@[knots@.len() - 1]) && is_clamped(
            knots@,
            order as int,
        )),
{
    let n: usize = knots.len();
    if knots[0].equals(knots[n - 1]) {
        return false;
    }
    let mut i: usize = 0;
    while i < n
        invariant
            i <= n,
            n == knots@.len(),
            0 < order,
            knots@.len() >= 2 * order,
            forall|j: int| 0 <= j < i ==> (#[trigger] knots@[j]).is_finite(),
            forall|j: int| 1 <= j < i ==> #[trigger] is_rise(knots@, j),
            forall|j: int| 0 <= j < i && j < order ==> (#[trigger] knots@[j]).same(knots@[0]),
            forall|j: int|
                n - order <= j < i ==> (#[trigger] knots@[j]).same(knots@[n - 1]),
        decreases n - i,
    {
        if !knots[i].finite() {
            assert(!knots@[i as int].is_finite());
            return false;
        }
        if i > 0 && knots[i].less(knots[i - 1]) {
            assert(!is_rise(knots@, i as int));
            return false;
        }
        if i < order && !knots[i].equals(knots[0]) {
            assert(!knots@[i as int].same(knots@[0]));
            return false;
        }
        if i >= n - order && !knots[i].equals(knots[n - 1]) {
            assert(!knots@[i as int].same(knots@[n - 1]));
            return false;
        }
        i = i + 1;
    }
    true
}

/// Whether a curve of a model is one that was found.
pub open spec fn is_copy(found: RecoveredProfileCurve, curve: Curve2d) -> bool {
    match (found, curve) {
        (RecoveredProfileCurve::Line { start, end, .. }, Curve2d::Line { start: a, end: b }) => start
            == a && end == b,
        (
            RecoveredProfileCurve::CircleArc { center, radius, start_angle, end_angle, .. },
            Curve2d::CircleArc { center: c, radius: r, start_angle: a, end_angle: b },
        ) => center == c && radius == r && start_angle == a && end_angle == b,
        (
            RecoveredProfileCurve::Bezier { control_points, .. },
            Curve2d::Bezier { control_points: points },
        ) => control_points@ == points@,
        (
            RecoveredProfileCurve::BSpline { degree, control_points, knots, weights, .. },
            Curve2d::BSpline { degree: d, control_points: points, knots: k, weights: w },
        ) => degree == d && control_points@ == points@ && knots@ == k@ && (match (weights, w) {
            (Some(a), Some(b)) => a@ == b@,
            (None, None) => true,
            _ => false,
        }),
        _ => false,
    }
}

fn copy_points(points: &Vec<[Scalar; 2]>) -> (out: Vec<[Scalar; 2]>)
    ensures
        out@ == points@,
{
    let mut out: Vec<[Scalar; 2]> = Vec::new();
    let mut i: usize = 0;
    while i < points.len()
        invariant
            i <= points.len(),
            out@ == points@.take(i as int),
        decreases points.len() - i,
    {
        out.push(points[i]);
        i = i + 1;
        assert(out@ =~= points@.take(i as int));
    }
    assert(out@ =~= points@);
    out
}

fn copy_scalars(values: &Vec<Scalar>) -> (out: Vec<Scalar>)
    ensures
        out@ == values@,
{
    let mut out: Vec<Scalar> = Vec::new();
    let mut i: usize = 0;
    while i < values.len()
        invariant
            i <= values.len(),
            out@ == values@.take(i as int),
        decreases values.len() - i,
    {
        out.push(values[i]);
        i = i + 1;
        assert(out@ =~= values@.take(i as int));
    }
    assert(out@ =~= values@);
    out
}

/// The curve of a model for one that was found.
pub fn to_curve(found: &RecoveredProfileCurve) -> (out: Curve2d)
    ensures
        is_copy(*found, out),
{
    match found {
        RecoveredProfileCurve::Line { start, end, .. } => Curve2d::Line { start: *start, end: *end },
        RecoveredProfileCurve::CircleArc { center, radius, start_angle, end_angle, .. } => {
            Curve2d::CircleArc {
                center: *center,
                radius: *radius,
                start_angle: *start_angle,
                end_angle: *end_angle,
            }
        },
        RecoveredProfileCurve::Bezier { control_points, .. } => Curve2d::Bezier {
            control_points: copy_points(control_points),
        },
        RecoveredProfileCurve::BSpline { degree, control_points, knots, weights, .. } => {
            Curve2d::BSpline {
                degree: *degree,
                control_points: copy_points(control_points),
                knots: copy_scalars(knots),
                weights: match weights {
                    Some(weights) => Some(copy_scalars(weights)),
                    None => None,
                },
            }
        },
    }
}

} // verus!
