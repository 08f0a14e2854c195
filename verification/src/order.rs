//! How the order of two points follows from the comparisons of their
//! coordinates.
//!
//! A point is ordered by its x-coordinate first and its y-coordinate second.
//! Coordinates are compared with a partial order (an incomparable pair yields
//! `None`); the functions here take those comparison outcomes and decide.

use std::cmp::Ordering;
use vstd::prelude::*;

verus! {

/// The opposite of an ordering (`Less` and `Greater` swap).
pub open spec fn reversed(o: Ordering) -> Ordering {
    match o {
        Ordering::Less => Ordering::Greater,
        Ordering::Equal => Ordering::Equal,
        Ordering::Greater => Ordering::Less,
    }
}

/// The outcome of comparing two values the other way round: an incomparable
/// pair stays incomparable.
pub open spec fn reversed_outcome(o: Option<Ordering>) -> Option<Ordering> {
    match o {
        Some(v) => Some(reversed(v)),
        None => None,
    }
}

/// Total order of two points given the outcomes of comparing their x- and
/// y-coordinates: x decides unless it is equal or incomparable, then y decides,
/// and incomparable y-coordinates count as equal.
pub open spec fn point_order(x: Option<Ordering>, y: Option<Ordering>) -> Ordering {
    match x {
        Some(Ordering::Less) => Ordering::Less,
        Some(Ordering::Greater) => Ordering::Greater,
        _ => match y {
            Some(o) => o,
            None => Ordering::Equal,
        },
    }
}

/// Whether the pair of coordinates `(x1, y1)` comes no later than `(x2, y2)`
/// as a tuple under `<=`: x decides unless equal, then `y1 <= y2`; any
/// incomparable coordinate that is consulted makes the answer `false`.
pub open spec fn tuple_le(x: Option<Ordering>, y: Option<Ordering>) -> bool {
    match x {
        Some(Ordering::Less) => true,
        Some(Ordering::Equal) => match y {
            Some(Ordering::Less) | Some(Ordering::Equal) => true,
            _ => false,
        },
        _ => false,
    }
}

/// Orders two points lexicographically, x first and then y, from the outcomes
/// `x` and `y` of comparing their coordinates.
pub fn lexicographic_order(x: Option<Ordering>, y: Option<Ordering>) -> (r: Ordering)
    ensures
        r == point_order(x, y),
{
    match x {
        Some(Ordering::Less) => Ordering::Less,
        Some(Ordering::Greater) => Ordering::Greater,
        _ => match y {
            Some(o) => o,
            None => Ordering::Equal,
        },
    }
}

/// Decides `(x1, y1) <= (x2, y2)` from the outcomes `x` and `y` of comparing
/// the coordinates.
pub fn lexicographic_le(x: Option<Ordering>, y: Option<Ordering>) -> (r: bool)
    ensures
        r == tuple_le(x, y),
{
    match x {
        Some(Ordering::Less) => true,
        Some(Ordering::Equal) => match y {
            Some(Ordering::Less) => true,
            Some(Ordering::Equal) => true,
            _ => false,
        },
        _ => false,
    }
}

/// The order of points is antisymmetric: comparing `b` with `a` gives the
/// reverse of comparing `a` with `b`, whenever each coordinate comparison
/// reverses too (as it does for floating-point numbers, `NaN` included).
pub proof fn lemma_order_antisymmetric(x: Option<Ordering>, y: Option<Ordering>)
    ensures
        point_order(reversed_outcome(x), reversed_outcome(y)) == reversed(point_order(x, y)),
{
}

/// Two points are equal in the order exactly when neither coordinate tells
/// them apart.
pub proof fn lemma_order_equal(x: Option<Ordering>, y: Option<Ordering>)
    ensures
        point_order(x, y) == Ordering::Equal <==> (x != Some(Ordering::Less) && x != Some(
            Ordering::Greater,
        ) && y != Some(Ordering::Less) && y != Some(Ordering::Greater)),
{
}

/// Where every consulted comparison is defined, `<=` on coordinate pairs
/// agrees with the order of points: the pair is `<=` exactly when the order is
/// not `Greater`.
pub proof fn lemma_le_agrees_with_order(x: Option<Ordering>, y: Option<Ordering>)
    requires
        x is Some,
        x == Some(Ordering::Equal) ==> y is Some,
    ensures
        tuple_le(x, y) <==> point_order(x, y) != Ordering::Greater,
{
}

/// Of two distinct points whose coordinates are all comparable, exactly one
/// comes no later than the other as a pair: swapping the arguments flips the
/// answer of `<=`.
pub proof fn lemma_le_flips(x: Option<Ordering>, y: Option<Ordering>)
    requires
        x is Some,
        y is Some,
        !(x == Some(Ordering::Equal) && y == Some(Ordering::Equal)),
    ensures
        tuple_le(reversed_outcome(x), reversed_outcome(y)) == !tuple_le(x, y),
{
}

/// The outcome of comparing two coordinates that are ordered totally (any
/// floating-point values other than `NaN` compare as some integers do).
pub open spec fn compare_totally(u: int, v: int) -> Option<Ordering> {
    if u < v {
        Some(Ordering::Less)
    } else if u == v {
        Some(Ordering::Equal)
    } else {
        Some(Ordering::Greater)
    }
}

/// The order of the points `a` and `b` when their coordinates are ordered
/// totally.
pub open spec fn order_of_points(a: (int, int), b: (int, int)) -> Ordering {
    point_order(compare_totally(a.0, b.0), compare_totally(a.1, b.1))
}

/// Where coordinates are ordered totally, the order of points is transitive:
/// `a <= b` and `b <= c` give `a <= c`, strictly if either step is strict.
pub proof fn lemma_order_transitive(a: (int, int), b: (int, int), c: (int, int))
    requires
        order_of_points(a, b) != Ordering::Greater,
        order_of_points(b, c) != Ordering::Greater,
    ensures
        order_of_points(a, c) != Ordering::Greater,
        order_of_points(a, b) == Ordering::Less || order_of_points(b, c) == Ordering::Less
            ==> order_of_points(a, c) == Ordering::Less,
{
}

} // verus!
