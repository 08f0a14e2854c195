//! The event queue of the segment-intersection sweep (Bentley-Ottmann
//! approach).
//!
//! Every segment yields two events: it starts at its first endpoint and ends
//! at its second. Ordering the queue compares points and is done by the owner
//! of the point type, as are the intersection tests; the sweep keeps the
//! active segments and records what the tests found.

use crate::event::{EventType, Segment, SweepEvent};
use crate::status::{insertion_index, without_id, Status};
use vstd::prelude::*;

verus! {

/// `event` is the event at which `segment` enters the sweep.
pub open spec fn is_start_of<P>(event: SweepEvent<P>, segment: Segment<P>) -> bool {
    &&& event.point == segment.p
    &&& event.event_type == EventType::Start
    &&& event.segment_ids@ == seq![segment.id]
}

/// `event` is the event at which `segment` leaves the sweep.
pub open spec fn is_end_of<P>(event: SweepEvent<P>, segment: Segment<P>) -> bool {
    &&& event.point == segment.q
    &&& event.event_type == EventType::End
    &&& event.segment_ids@ == seq![segment.id]
}

/// The events of the `i`-th segment: its start at position `i`, its end at
/// position `n + i`, where `n` is the number of segments.
pub open spec fn holds_events_of<P>(
    events: Seq<SweepEvent<P>>,
    segments: Seq<Segment<P>>,
    i: int,
) -> bool {
    &&& is_start_of(events[i], segments[i])
    &&& is_end_of(events[segments.len() + i], segments[i])
}

/// Builds the initial event queue: a start event at the first endpoint of
/// each segment, in order, then an end event at the second endpoint of each,
/// in order, each naming its segment. With every start ahead of every end, a
/// stable sort by point puts a segment that starts at a point before one that
/// ends there, so segments that only touch at that point are both active
/// when the later one starts.
pub fn event_queue<P: Copy>(segments: &[Segment<P>]) -> (events: Vec<SweepEvent<P>>)
    ensures
        events@.len() == 2 * segments@.len(),
        forall|i: int| 0 <= i < segments@.len() ==> #[trigger] holds_events_of(events@, segments@, i),
{
    let n = segments.len();
    let mut events: Vec<SweepEvent<P>> = Vec::new();
    let mut k: usize = 0;
    while k < n
        invariant
            n == segments@.len(),
            k <= n,
            events@.len() == k,
            forall|i: int| 0 <= i < k ==> #[trigger] is_start_of(events@[i], segments@[i]),
        decreases n - k,
    {
        let seg = segments[k];
        let mut ids: Vec<usize> = Vec::new();
        ids.push(seg.id);
        let ghost before = events@;
        events.push(SweepEvent { point: seg.p, event_type: EventType::Start, segment_ids: ids });
        proof {
            assert(ids@ =~= seq![seg.id]);
            assert forall|i: int| 0 <= i < k + 1 implies #[trigger] is_start_of(
                events@[i],
                segments@[i],
            ) by {
                if i < k {
                    assert(events@[i] == before[i]);
                }
            }
        }
        k = k + 1;
    }
    let mut k: usize = 0;
    while k < n
        invariant
            n == segments@.len(),
            k <= n,
            events@.len() == n + k,
            forall|i: int| 0 <= i < n ==> #[trigger] is_start_of(events@[i], segments@[i]),
            forall|i: int| 0 <= i < k ==> #[trigger] is_end_of(events@[n + i], segments@[i]),
        decreases n - k,
    {
        let seg = segments[k];
        let mut ids: Vec<usize> = Vec::new();
        ids.push(seg.id);
        let ghost before = events@;
        events.push(SweepEvent { point: seg.q, event_type: EventType::End, segment_ids: ids });
        proof {
            assert(ids@ =~= seq![seg.id]);
            assert forall|i: int| 0 <= i < n implies #[trigger] is_start_of(
                events@[i],
                segments@[i],
            ) by {
                assert(events@[i] == before[i]);
            }
            assert forall|i: int| 0 <= i < k + 1 implies #[trigger] is_end_of(
                events@[n + i],
                segments@[i],
            ) by {
                if i < k {
                    assert(events@[n + i] == before[n + i]);
                }
            }
        }
        k = k + 1;
    }
    proof {
        assert forall|i: int| 0 <= i < n implies #[trigger] holds_events_of(events@, segments@, i) by {
            assert(is_start_of(events@[i], segments@[i]));
            assert(is_end_of(events@[n + i], segments@[i]));
        }
    }
    events
}

/// What is recorded when segment `id` starts and is tested against the first
/// `upto` active segments: for each test that found a point, in order, the
/// point together with the new segment's identifier and the active one's.
pub open spec fn hits_upto<P>(
    id: usize,
    active: Seq<Segment<P>>,
    hits: Seq<Option<P>>,
    upto: int,
) -> Seq<(P, Seq<usize>)>
    decreases upto,
{
    if upto <= 0 {
        Seq::empty()
    } else {
        let before = hits_upto(id, active, hits, upto - 1);
        match hits[upto - 1] {
            Some(pt) => before.push((pt, seq![id, active[upto - 1].id])),
            None => before,
        }
    }
}

/// What is recorded when segment `id` starts: one entry per active segment
/// that the intersection test met (`hits[k]` answers for `active[k]`).
pub open spec fn hits_found<P>(id: usize, active: Seq<Segment<P>>, hits: Seq<Option<P>>) -> Seq<
    (P, Seq<usize>),
> {
    hits_upto(id, active, hits, active.len() as int)
}

/// How many of the first `upto` intersection tests found a point.
pub open spec fn count_hits<P>(hits: Seq<Option<P>>, upto: int) -> int
    decreases upto,
{
    if upto <= 0 {
        0
    } else {
        count_hits(hits, upto - 1) + if hits[upto - 1] is Some {
            1int
        } else {
            0int
        }
    }
}

/// How many of the intersection tests found a point.
pub open spec fn count_all_hits<P>(hits: Seq<Option<P>>) -> int {
    count_hits(hits, hits.len() as int)
}

/// More tests never found fewer points.
proof fn lemma_count_hits_monotone<P>(hits: Seq<Option<P>>, a: int, b: int)
    requires
        0 <= a <= b,
    ensures
        count_hits(hits, a) <= count_hits(hits, b),
    decreases b - a,
{
    if a < b {
        lemma_count_hits_monotone(hits, a, b - 1);
    }
}

/// The tests before the `k`-th found no fewer than none, and those up to
/// and including it no more than all.
proof fn lemma_count_hits_within<P>(hits: Seq<Option<P>>, k: int)
    requires
        0 <= k < hits.len(),
    ensures
        0 <= count_hits(hits, k),
        count_hits(hits, k + 1) <= count_all_hits(hits),
{
    lemma_count_hits_monotone(hits, 0, k);
    lemma_count_hits_monotone(hits, k + 1, hits.len() as int);
}

/// Every test that found a point is recorded, in the order of the active
/// segments, as that point with the new segment's identifier and the
/// identifier of the active segment that was tested, whatever the other
/// tests answered; and nothing else is recorded.
pub proof fn lemma_hits_upto_exact<P>(
    id: usize,
    active: Seq<Segment<P>>,
    hits: Seq<Option<P>>,
    upto: int,
)
    requires
        hits.len() == active.len(),
        0 <= upto <= hits.len(),
    ensures
        hits_upto(id, active, hits, upto).len() == count_hits(hits, upto),
        forall|k: int|
            0 <= k < upto && (#[trigger] hits[k]) is Some ==> hits_upto(id, active, hits, upto)[count_hits(
                hits,
                k,
            )] == (hits[k].unwrap(), seq![id, active[k].id]),
    decreases upto,
{
    if upto > 0 {
        lemma_hits_upto_exact(id, active, hits, upto - 1);
        let prev = hits_upto(id, active, hits, upto - 1);
        let cur = hits_upto(id, active, hits, upto);
        assert forall|k: int|
            0 <= k < upto && (#[trigger] hits[k]) is Some implies cur[count_hits(hits, k)] == (
            hits[k].unwrap(),
            seq![id, active[k].id],
        ) by {
            lemma_count_hits_monotone(hits, 0, k);
            if k < upto - 1 {
                lemma_count_hits_monotone(hits, k + 1, upto - 1);
                assert(count_hits(hits, k) < prev.len());
                assert(cur[count_hits(hits, k)] == prev[count_hits(hits, k)]);
            } else {
                assert(count_hits(hits, k) == prev.len());
                assert(cur == prev.push((hits[k].unwrap(), seq![id, active[k].id])));
            }
        }
    }
}

/// What a start records is exactly one entry per test that found a point:
/// the entry for the `k`-th active segment comes after those of the earlier
/// ones, and pairs the point with the new segment's identifier and that of
/// the `k`-th active segment.
pub proof fn lemma_hits_found_exact<P>(id: usize, active: Seq<Segment<P>>, hits: Seq<Option<P>>)
    requires
        hits.len() == active.len(),
    ensures
        hits_found(id, active, hits).len() == count_hits(hits, hits.len() as int),
        forall|k: int|
            0 <= k < hits.len() && (#[trigger] hits[k]) is Some ==> hits_found(id, active, hits)[count_hits(
                hits,
                k,
            )] == (hits[k].unwrap(), seq![id, active[k].id]),
{
    lemma_hits_upto_exact(id, active, hits, hits.len() as int);
}

/// Every recorded intersection names exactly two segments.
pub open spec fn names_two_segments<P>(found: Seq<(P, Seq<usize>)>) -> bool {
    forall|i: int| 0 <= i < found.len() ==> (#[trigger] found[i]).1.len() == 2
}

/// The view of recorded intersections, identifiers taken as sequences.
pub open spec fn found_view<P>(found: Seq<(P, Vec<usize>)>) -> Seq<(P, Seq<usize>)> {
    found.map_values(|r: (P, Vec<usize>)| (r.0, r.1@))
}

/// Every entry recorded for a new segment names two segments.
proof fn lemma_hits_upto_name_two<P>(
    id: usize,
    active: Seq<Segment<P>>,
    hits: Seq<Option<P>>,
    upto: int,
)
    ensures
        names_two_segments(hits_upto(id, active, hits, upto)),
    decreases upto,
{
    if upto > 0 {
        lemma_hits_upto_name_two(id, active, hits, upto - 1);
    }
}

/// The state of a segment-intersection sweep: the active segments in order
/// along the sweep line, and the intersections recorded so far.
pub struct IntersectionSweep<P> {
    status: Status<P>,
    found: Vec<(P, Vec<usize>)>,
}

impl<P: Copy> IntersectionSweep<P> {
    /// The active segments, in order along the sweep line.
    pub closed spec fn active_segments(&self) -> Seq<Segment<P>> {
        self.status@
    }

    /// The intersections recorded so far, in the order they were found.
    pub closed spec fn recorded(&self) -> Seq<(P, Seq<usize>)> {
        found_view(self.found@)
    }

    /// Every recorded intersection names exactly two segments.
    pub open spec fn well_formed(&self) -> bool {
        names_two_segments(self.recorded())
    }

    /// A sweep before the first event: nothing active, nothing recorded.
    pub fn new() -> (s: Self)
        ensures
            s.well_formed(),
            s.active_segments() == Seq::<Segment<P>>::empty(),
            s.recorded() == Seq::<(P, Seq<usize>)>::empty(),
    {
        let s = IntersectionSweep { status: Status::new(), found: Vec::new() };
        assert(s.recorded() =~= Seq::<(P, Seq<usize>)>::empty());
        s
    }

    /// The active segments, in order along the sweep line.
    pub fn active(&self) -> (r: &[Segment<P>])
        ensures
            r@ == self.active_segments(),
    {
        self.status.segments()
    }

    /// The start of `segment`: it is tested against every active segment
    /// (`hits[k]` is the intersection point with the `k`-th, if any), each
    /// point found is recorded with the two segments' identifiers, the new
    /// one first, and the segment becomes active before the first active
    /// segment that lies above it (`lies_above[k]`).
    pub fn start(&mut self, segment: Segment<P>, hits: &[Option<P>], lies_above: &[bool])
        requires
            old(self).well_formed(),
            hits@.len() == old(self).active_segments().len(),
            lies_above@.len() == old(self).active_segments().len(),
        ensures
            final(self).well_formed(),
            final(self).active_segments() == old(self).active_segments().insert(
                insertion_index(lies_above@),
                segment,
            ),
            final(self).recorded() == old(self).recorded() + hits_found(
                segment.id,
                old(self).active_segments(),
                hits@,
            ),
            forall|i: int|
                0 <= i < old(self).recorded().len() ==> #[trigger] final(self).recorded()[i] == old(self).recorded()[i],
            final(self).recorded().len() == old(self).recorded().len() + count_all_hits(hits@),
            forall|k: int|
                0 <= k < hits@.len() && (#[trigger] hits@[k]) is Some ==> final(self).recorded()[old(self).recorded().len() + count_hits(hits@, k)] == (
                    hits@[k].unwrap(),
                    seq![segment.id, old(self).active_segments()[k].id],
                ),
    {
        let n = hits.len();
        let mut k: usize = 0;
        let ghost mut done: int = 0int;
        let ghost start_found = self.recorded();
        proof {
            assert(start_found + hits_upto(segment.id, self.status@, hits@, 0) =~= start_found);
        }
        while k < n
            invariant
                n == hits@.len(),
                n == self.status@.len(),
                k <= n,
                done == k,
                self.status@ == old(self).status@,
                self.recorded() == start_found + hits_upto(segment.id, self.status@, hits@, done),
                start_found == old(self).recorded(),
            decreases n - k,
        {
            match hits[k] {
                Some(pt) => {
                    let active = self.status.segments();
                    let mut ids: Vec<usize> = Vec::new();
                    ids.push(segment.id);
                    ids.push(active[k].id);
                    let ghost before = self.found@;
                    self.found.push((pt, ids));
                    proof {
                        assert(ids@ =~= seq![segment.id, self.status@[done].id]);
                        assert(found_view(self.found@) =~= found_view(before).push(
                            (pt, ids@),
                        ));
                        assert(self.recorded() =~= start_found + hits_upto(
                            segment.id,
                            self.status@,
                            hits@,
                            done + 1,
                        ));
                    }
                },
                None => {},
            }
            k = k + 1;
            proof {
                done = done + 1;
            }
        }
        self.status.insert(segment, lies_above);
        proof {
            lemma_recorded_name_two_segments(start_found, segment.id, old(self).status@, hits@);
            lemma_hits_found_exact(segment.id, old(self).status@, hits@);
            let added = hits_found(segment.id, old(self).status@, hits@);
            assert forall|k: int|
                0 <= k < hits@.len() && (#[trigger] hits@[k]) is Some implies self.recorded()[start_found.len() + count_hits(hits@, k)] == (
                hits@[k].unwrap(),
                seq![segment.id, old(self).status@[k].id],
            ) by {
                lemma_count_hits_within(hits@, k);
                assert(self.recorded()[start_found.len() + count_hits(hits@, k)] == added[count_hits(hits@, k)]);
            }
        }
    }

    /// The end of segment `segment_id`: it stops being active. The recorded
    /// intersections stay as they are.
    pub fn end(&mut self, segment_id: usize)
        requires
            old(self).well_formed(),
        ensures
            final(self).well_formed(),
            final(self).active_segments() == without_id(old(self).active_segments(), segment_id),
            final(self).recorded() == old(self).recorded(),
    {
        self.status.remove(segment_id);
    }

    /// Ends the sweep and hands out the recorded intersections, in the order
    /// they were found.
    pub fn into_found(self) -> (r: Vec<(P, Vec<usize>)>)
        requires
            self.well_formed(),
        ensures
            found_view(r@) == self.recorded(),
            forall|i: int| 0 <= i < r@.len() ==> (#[trigger] r@[i]).1@.len() == 2,
    {
        let r = self.found;
        assert forall|i: int| 0 <= i < r@.len() implies (#[trigger] r@[i]).1@.len() == 2 by {
            assert(found_view(r@)[i] == (r@[i].0, r@[i].1@));
        }
        r
    }
}

/// Recording the hits of a new segment keeps every recorded intersection
/// naming exactly two segments.
pub proof fn lemma_recorded_name_two_segments<P>(
    recorded: Seq<(P, Seq<usize>)>,
    id: usize,
    active: Seq<Segment<P>>,
    hits: Seq<Option<P>>,
)
    requires
        names_two_segments(recorded),
    ensures
        names_two_segments(recorded + hits_found(id, active, hits)),
{
    lemma_hits_upto_name_two(id, active, hits, active.len() as int);
    let all = recorded + hits_found(id, active, hits);
    assert forall|i: int| 0 <= i < all.len() implies (#[trigger] all[i]).1.len() == 2 by {
        if i >= recorded.len() {
            assert(all[i] == hits_found(id, active, hits)[i - recorded.len()]);
        }
    }
}

} // verus!
