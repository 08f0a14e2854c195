//! Segments and the events that drive a sweep.
//!
//! The point type `P` is left open: the geometry that compares and combines
//! coordinates lives with it, while a segment's identity and the order of its
//! endpoints are decided here.

use crate::order::{lexicographic_le, tuple_le};
use std::cmp::Ordering;
use vstd::prelude::*;

verus! {

/// A line segment defined by two endpoints.
#[derive(Debug, Clone, Copy, PartialEq)]
pub struct Segment<P> {
    /// Start point (leftmost, or bottommost if vertical).
    pub p: P,
    /// End point.
    pub q: P,
    /// Segment ID for tracking.
    pub id: usize,
}

impl<P> Segment<P> {
    /// Creates a segment with its endpoints in order: `p` comes first when
    /// `(p.x, p.y) <= (q.x, q.y)`, else the two are swapped. `x_order` and
    /// `y_order` are the outcomes of comparing `p.x` with `q.x` and `p.y` with
    /// `q.y`.
    pub fn new(p: P, q: P, id: usize, x_order: Option<Ordering>, y_order: Option<Ordering>) -> (s:
        Self)
        ensures
            s.id == id,
            tuple_le(x_order, y_order) ==> s.p == p && s.q == q,
            !tuple_le(x_order, y_order) ==> s.p == q && s.q == p,
    {
        if lexicographic_le(x_order, y_order) {
            Segment { p, q, id }
        } else {
            Segment { p: q, q: p, id }
        }
    }
}

/// `i` is the first position in `segments` of a segment with identifier `id`.
pub open spec fn is_first_with_id<P>(segments: Seq<Segment<P>>, id: usize, i: int) -> bool {
    &&& 0 <= i < segments.len()
    &&& segments[i].id == id
    &&& forall|j: int| 0 <= j < i ==> segments[j].id != id
}

/// Whether some segment in `segments` has identifier `id`.
pub open spec fn has_id<P>(segments: Seq<Segment<P>>, id: usize) -> bool {
    exists|i: int| 0 <= i < segments.len() && segments[i].id == id
}

/// The position of the first segment with identifier `id`, if there is one.
pub fn index_of_id<P>(segments: &[Segment<P>], id: usize) -> (r: Option<usize>)
    ensures
        match r {
            Some(i) => is_first_with_id(segments@, id, i as int),
            None => !has_id(segments@, id),
        },
{
    let mut i: usize = 0;
    while i < segments.len()
        invariant
            i <= segments@.len(),
            forall|j: int| 0 <= j < i ==> segments@[j].id != id,
        decreases segments@.len() - i,
    {
        if segments[i].id == id {
            return Some(i);
        }
        i = i + 1;
    }
    None
}

/// Types of sweep events.
#[derive(Debug, Clone, Copy, PartialEq, Eq, Structural)]
pub enum EventType {
    /// Segment begins at this point.
    Start,
    /// Segment ends at this point.
    End,
    /// Two segments intersect at this point.
    Intersection,
}

/// A sweep event at a given point.
#[derive(Debug, Clone)]
pub struct SweepEvent<P> {
    /// Location of the event.
    pub point: P,
    /// Type of event.
    pub event_type: EventType,
    /// Segment ID(s) involved.
    pub segment_ids: Vec<usize>,
}

} // verus!
