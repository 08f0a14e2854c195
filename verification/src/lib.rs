//! Line-sweep computational geometry: the combinatorial core.
//!
//! The coordinates of the geometry are floating-point numbers, which this
//! crate never touches. What it holds, generic over the point type, is the
//! logic around them: how per-coordinate comparisons decide the order of
//! points, the sweep events of a set of segments, the status structure of a
//! segment sweep, and the bookkeeping of the segment-intersection and
//! rectangle-overlap sweeps.
//!
//! - [`order`] — lexicographic order of points from coordinate comparisons
//! - [`event`] — segments and sweep events
//! - [`identified`] — items known by an identifier, and removal by identifier
//! - [`status`] — the active segments of a sweep, in order
//! - [`segment`] — the event queue and the state of a segment-intersection sweep
//! - [`rectangle`] — the active set and reported pairs of an overlap sweep

pub mod order;
pub mod event;
pub mod identified;
pub mod status;
pub mod segment;
pub mod rectangle;
