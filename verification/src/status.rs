//! Status structure for the line sweep algorithm.
//!
//! Maintains an ordered sequence of active segments during the sweep,
//! supporting insert, remove, and neighbor queries. The order is that of the
//! segments' y-positions at the sweep line; where a new segment goes is told
//! by which active segments lie above it.

use crate::event::{has_id, index_of_id, is_first_with_id, Segment};
use crate::identified::{
    lemma_without_ident_from, lemma_without_ident_lacks, remove_ident, without_ident,
};
use vstd::prelude::*;

verus! {

/// `i` is the first position at which `flags` holds `true`.
pub open spec fn is_first_true(flags: Seq<bool>, i: int) -> bool {
    &&& 0 <= i < flags.len()
    &&& flags[i]
    &&& forall|j: int| 0 <= j < i ==> !flags[j]
}

/// Where a segment is inserted, given for each active segment whether it lies
/// above the new one: before the first that does, or at the end if none does.
pub open spec fn insertion_index(lies_above: Seq<bool>) -> int {
    if exists|i: int| is_first_true(lies_above, i) {
        choose|i: int| is_first_true(lies_above, i)
    } else {
        lies_above.len() as int
    }
}

/// The segments of `segments` whose identifier is not `id`, in their order.
pub open spec fn without_id<P>(segments: Seq<Segment<P>>, id: usize) -> Seq<Segment<P>> {
    without_ident(segments, id)
}

/// The neighbors `(above, below)` of the first segment with identifier `id`:
/// the segments are kept from bottom to top, so the one above is the next in
/// the sequence and the one below is the previous; neither if there is no
/// such segment.
pub open spec fn neighbor_ids<P>(segments: Seq<Segment<P>>, id: usize) -> (
    Option<usize>,
    Option<usize>,
) {
    if exists|i: int| is_first_with_id(segments, id, i) {
        let i = choose|i: int| is_first_with_id(segments, id, i);
        (
            if i + 1 < segments.len() {
                Some(segments[i + 1].id)
            } else {
                None
            },
            if i > 0 {
                Some(segments[i - 1].id)
            } else {
                None
            },
        )
    } else {
        (None, None)
    }
}

/// A first `true` position is unique.
proof fn lemma_first_true_unique(flags: Seq<bool>, i: int, j: int)
    requires
        is_first_true(flags, i),
        is_first_true(flags, j),
    ensures
        i == j,
{
    if i < j {
        assert(!flags[i]);
    } else if j < i {
        assert(!flags[j]);
    }
}

/// A first position of an identifier is unique.
proof fn lemma_first_with_id_unique<P>(segments: Seq<Segment<P>>, id: usize, i: int, j: int)
    requires
        is_first_with_id(segments, id, i),
        is_first_with_id(segments, id, j),
    ensures
        i == j,
{
    if i < j {
        assert(segments[i].id != id);
    } else if j < i {
        assert(segments[j].id != id);
    }
}

/// The insertion position lies within the sequence or just past its end.
pub proof fn lemma_insertion_index_bounds(lies_above: Seq<bool>)
    ensures
        0 <= insertion_index(lies_above) <= lies_above.len(),
{
    if exists|i: int| is_first_true(lies_above, i) {
        let c = choose|i: int| is_first_true(lies_above, i);
        assert(is_first_true(lies_above, c));
    }
}

/// A segment is inserted right before the first active segment that lies
/// above it: every active segment before the insertion position lies no
/// higher, and the one at the position, if any, lies above. When none lies
/// above, the position is the end.
pub proof fn lemma_insertion_index_first_above(lies_above: Seq<bool>)
    ensures
        0 <= insertion_index(lies_above) <= lies_above.len(),
        forall|i: int| 0 <= i < insertion_index(lies_above) ==> !lies_above[i],
        insertion_index(lies_above) < lies_above.len() ==> lies_above[insertion_index(lies_above)],
        (forall|i: int| 0 <= i < lies_above.len() ==> !lies_above[i]) ==> insertion_index(lies_above)
            == lies_above.len(),
{
    if exists|i: int| is_first_true(lies_above, i) {
        let c = choose|i: int| is_first_true(lies_above, i);
        assert(is_first_true(lies_above, c));
    } else {
        assert forall|i: int| 0 <= i < lies_above.len() implies !lies_above[i] by {
            if lies_above[i] {
                let first = lemma_first_true_exists(lies_above, i);
                assert(is_first_true(lies_above, first));
            }
        }
    }
}

/// Filtering out an identifier that no segment carries changes nothing.
proof fn lemma_without_absent_id<P>(segments: Seq<Segment<P>>, id: usize)
    requires
        !has_id(segments, id),
    ensures
        without_id(segments, id) == segments,
    decreases segments.len(),
{
    reveal_with_fuel(Seq::<_>::filter, 1);
    if segments.len() > 0 {
        let rest = segments.drop_last();
        assert(!has_id(rest, id)) by {
            if has_id(rest, id) {
                let i = choose|i: int| 0 <= i < rest.len() && rest[i].id == id;
                assert(segments[i].id == id);
            }
        }
        lemma_without_absent_id(rest, id);
        assert(segments[segments.len() - 1].id != id);
        assert(rest.push(segments.last()) =~= segments);
    } else {
        assert(without_id(segments, id) =~= segments);
    }
}

/// Once a segment is removed, it has no neighbors.
pub proof fn lemma_removed_has_no_neighbors<P>(segments: Seq<Segment<P>>, id: usize)
    ensures
        neighbor_ids(without_id(segments, id), id) == (None::<usize>, None::<usize>),
{
    let rest = without_id(segments, id);
    assert(!exists|i: int| is_first_with_id(rest, id, i)) by {
        if exists|i: int| is_first_with_id(rest, id, i) {
            let i = choose|i: int| is_first_with_id(rest, id, i);
            lemma_without_ident_lacks(segments, id, i);
        }
    }
}

/// A newly inserted segment has as neighbors `(above, below)` the segments
/// just after and just before the place where it went, provided its
/// identifier was not active before.
pub proof fn lemma_inserted_neighbors<P>(
    segments: Seq<Segment<P>>,
    segment: Segment<P>,
    lies_above: Seq<bool>,
)
    requires
        lies_above.len() == segments.len(),
        !has_id(segments, segment.id),
    ensures
        ({
            let pos = insertion_index(lies_above);
            neighbor_ids(segments.insert(pos, segment), segment.id) == (
                if pos < segments.len() {
                    Some(segments[pos].id)
                } else {
                    None
                },
                if pos > 0 {
                    Some(segments[pos - 1].id)
                } else {
                    None
                },
            )
        }),
{
    let pos = insertion_index(lies_above);
    lemma_insertion_index_bounds(lies_above);
    let after = segments.insert(pos, segment);
    assert(is_first_with_id(after, segment.id, pos)) by {
        assert forall|j: int| 0 <= j < pos implies after[j].id != segment.id by {
            assert(after[j] == segments[j]);
        }
    }
    let c = choose|i: int| is_first_with_id(after, segment.id, i);
    lemma_first_with_id_unique(after, segment.id, pos, c);
    if pos > 0 {
        assert(after[pos - 1] == segments[pos - 1]);
    }
    if pos < segments.len() {
        assert(after[pos + 1] == segments[pos]);
    }
}

/// Filtering out an identifier distributes over concatenation.
proof fn lemma_without_id_add<P>(a: Seq<Segment<P>>, b: Seq<Segment<P>>, id: usize)
    ensures
        without_id(a + b, id) == without_id(a, id) + without_id(b, id),
    decreases b.len(),
{
    reveal_with_fuel(Seq::<_>::filter, 1);
    if b.len() == 0 {
        assert(a + b =~= a);
        assert(without_id(a, id) + without_id(b, id) =~= without_id(a, id));
    } else {
        lemma_without_id_add(a, b.drop_last(), id);
        assert((a + b).drop_last() =~= a + b.drop_last());
        assert((a + b).last() == b.last());
        if b.last().id != id {
            assert(without_id(a, id) + without_id(b.drop_last(), id).push(b.last()) =~= (
            without_id(a, id) + without_id(b.drop_last(), id)).push(b.last()));
        }
    }
}

/// Filtering a single segment by its own identifier leaves nothing.
proof fn lemma_without_own_id<P>(segment: Segment<P>)
    ensures
        without_id(Seq::<Segment<P>>::empty().push(segment), segment.id) == Seq::<Segment<P>>::empty(),
{
    let single = Seq::<Segment<P>>::empty().push(segment);
    reveal_with_fuel(Seq::<_>::filter, 2);
    assert(single.drop_last() =~= Seq::<Segment<P>>::empty());
}

/// Removing a segment right after inserting it gives back the status as it
/// was, provided no segment with its identifier was active before.
pub proof fn lemma_remove_undoes_insert<P>(
    segments: Seq<Segment<P>>,
    segment: Segment<P>,
    lies_above: Seq<bool>,
)
    requires
        lies_above.len() == segments.len(),
        !has_id(segments, segment.id),
    ensures
        without_id(segments.insert(insertion_index(lies_above), segment), segment.id) == segments,
{
    let id = segment.id;
    let pos = insertion_index(lies_above);
    lemma_insertion_index_bounds(lies_above);
    let front = segments.take(pos);
    let back = segments.skip(pos);
    assert(!has_id(front, id)) by {
        if has_id(front, id) {
            let i = choose|i: int| 0 <= i < front.len() && front[i].id == id;
            assert(segments[i].id == id);
        }
    }
    assert(!has_id(back, id)) by {
        if has_id(back, id) {
            let i = choose|i: int| 0 <= i < back.len() && back[i].id == id;
            assert(segments[pos + i].id == id);
        }
    }
    assert(segments.insert(pos, segment) =~= front + Seq::<Segment<P>>::empty().push(segment)
        + back);
    assert(front + back =~= segments);
    lemma_without_id_around(front, segment, back);
}

/// Filtering out the identifier of a segment placed between two runs of
/// segments that do not carry it leaves just the two runs.
proof fn lemma_without_id_around<P>(
    front: Seq<Segment<P>>,
    segment: Segment<P>,
    back: Seq<Segment<P>>,
)
    requires
        !has_id(front, segment.id),
        !has_id(back, segment.id),
    ensures
        without_id(front + Seq::<Segment<P>>::empty().push(segment) + back, segment.id) == front
            + back,
{
    let id = segment.id;
    let single = Seq::<Segment<P>>::empty().push(segment);
    lemma_without_absent_id(front, id);
    lemma_without_absent_id(back, id);
    lemma_without_id_add(front + single, back, id);
    lemma_without_id_add(front, single, id);
    lemma_without_own_id(segment);
    assert(without_id(front + single, id) =~= front);
}

/// `le` is a total preorder: any two segments compare, and comparisons chain.
pub open spec fn is_total_preorder<P>(le: spec_fn(Segment<P>, Segment<P>) -> bool) -> bool {
    &&& forall|a: Segment<P>, b: Segment<P>| #[trigger] le(a, b) || le(b, a)
    &&& forall|a: Segment<P>, b: Segment<P>, c: Segment<P>|
        #[trigger] le(a, b) && #[trigger] le(b, c) ==> le(a, c)
}

/// The segments stand in the order `le` (each no later than every one after
/// it).
pub open spec fn sorted_by<P>(
    segments: Seq<Segment<P>>,
    le: spec_fn(Segment<P>, Segment<P>) -> bool,
) -> bool {
    forall|i: int, j: int| 0 <= i < j < segments.len() ==> le(#[trigger] segments[i], #[trigger] segments[j])
}

/// Insertion keeps the active segments in order: if they are sorted by a
/// total preorder `le` (at the sweep line, "lies no higher than") and each
/// answer tells whether an active segment lies strictly above the new one,
/// the new segment lands where the sequence stays sorted.
pub proof fn lemma_insert_keeps_order<P>(
    segments: Seq<Segment<P>>,
    segment: Segment<P>,
    lies_above: Seq<bool>,
    le: spec_fn(Segment<P>, Segment<P>) -> bool,
)
    requires
        is_total_preorder(le),
        sorted_by(segments, le),
        lies_above.len() == segments.len(),
        forall|i: int| 0 <= i < segments.len() ==> lies_above[i] == !le(segments[i], segment),
    ensures
        sorted_by(segments.insert(insertion_index(lies_above), segment), le),
{
    let pos = insertion_index(lies_above);
    lemma_insertion_index_bounds(lies_above);
    let after = segments.insert(pos, segment);
    if pos < segments.len() {
        assert(is_first_true(lies_above, pos)) by {
            let c = choose|i: int| is_first_true(lies_above, i);
            assert(is_first_true(lies_above, c));
        }
    } else {
        assert(!exists|i: int| is_first_true(lies_above, i));
        assert forall|i: int| 0 <= i < segments.len() implies !lies_above[i] by {
            if lies_above[i] {
                let first = lemma_first_true_exists(lies_above, i);
                assert(is_first_true(lies_above, first));
            }
        }
    }
    assert forall|i: int, j: int| 0 <= i < j < after.len() implies le(
        #[trigger] after[i],
        #[trigger] after[j],
    ) by {
        if j < pos {
            assert(le(segments[i], segments[j]));
        } else if j == pos {
            assert(!lies_above[i]);
        } else if i < pos {
            assert(!lies_above[i]);
            assert(lies_above[pos]);
            assert(le(segment, segments[pos]));
            if j - 1 > pos {
                assert(le(segments[pos], segments[j - 1]));
            }
            assert(le(segment, segments[j - 1]));
        } else if i == pos {
            assert(lies_above[pos]);
            assert(le(segment, segments[pos]));
            if j - 1 > pos {
                assert(le(segments[pos], segments[j - 1]));
            }
        } else {
            assert(le(segments[i - 1], segments[j - 1]));
        }
    }
}

/// If `flags` holds `true` at `i`, it has a first `true` at or before `i`.
proof fn lemma_first_true_exists(flags: Seq<bool>, i: int) -> (first: int)
    requires
        0 <= i < flags.len(),
        flags[i],
    ensures
        is_first_true(flags, first),
    decreases i,
{
    if exists|j: int| 0 <= j < i && flags[j] {
        let j = choose|j: int| 0 <= j < i && flags[j];
        lemma_first_true_exists(flags, j)
    } else {
        i
    }
}

/// Removal keeps the active segments in order: the segments that remain are
/// sorted by any order the status was sorted by.
pub proof fn lemma_remove_keeps_order<P>(
    segments: Seq<Segment<P>>,
    id: usize,
    le: spec_fn(Segment<P>, Segment<P>) -> bool,
)
    requires
        sorted_by(segments, le),
    ensures
        sorted_by(without_id(segments, id), le),
    decreases segments.len(),
{
    reveal_with_fuel(Seq::<_>::filter, 1);
    if segments.len() > 0 {
        let rest = segments.drop_last();
        let last = segments.last();
        lemma_remove_keeps_order(rest, id, le);
        let kept = without_id(rest, id);
        if last.id != id {
            assert forall|i: int, j: int| 0 <= i < j < kept.push(last).len() implies le(
                #[trigger] kept.push(last)[i],
                #[trigger] kept.push(last)[j],
            ) by {
                if j < kept.len() {
                    assert(le(kept[i], kept[j]));
                } else {
                    assert(kept.contains(kept[i]));
                    lemma_without_ident_from(rest, id, kept[i]);
                    let k = choose|k: int| 0 <= k < rest.len() && rest[k] == kept[i];
                    assert(le(segments[k], segments[segments.len() - 1]));
                }
            }
        }
    }
}

/// A simple status structure using a sorted vector of segments.
///
/// In a production implementation this would be a balanced BST (e.g., red-black tree),
/// but a sorted vector suffices for correctness and clarity.
pub struct Status<P> {
    segments: Vec<Segment<P>>,
}

impl<P> View for Status<P> {
    type V = Seq<Segment<P>>;

    /// The active segments, in order.
    closed spec fn view(&self) -> Seq<Segment<P>> {
        self.segments@
    }
}

impl<P> Status<P> {
    /// Create an empty status structure.
    pub fn new() -> (s: Self)
        ensures
            s@ == Seq::<Segment<P>>::empty(),
    {
        Status { segments: Vec::new() }
    }

    /// Insert a segment into the status structure, before the first active
    /// segment that lies above it (`lies_above[i]` tells whether the `i`-th
    /// active segment lies above the new one at the current sweep x), or at
    /// the end if none does.
    pub fn insert(&mut self, segment: Segment<P>, lies_above: &[bool])
        requires
            lies_above@.len() == old(self)@.len(),
        ensures
            final(self)@ == old(self)@.insert(insertion_index(lies_above@), segment),
            0 <= insertion_index(lies_above@) <= old(self)@.len(),
            forall|i: int| 0 <= i < insertion_index(lies_above@) ==> !lies_above@[i],
            insertion_index(lies_above@) < old(self)@.len() ==> lies_above@[insertion_index(
                lies_above@,
            )],
    {
        proof {
            lemma_insertion_index_first_above(lies_above@);
        }
        let mut pos: usize = 0;
        while pos < lies_above.len() && !lies_above[pos]
            invariant
                pos <= lies_above@.len(),
                forall|j: int| 0 <= j < pos ==> !lies_above@[j],
            decreases lies_above@.len() - pos,
        {
            pos = pos + 1;
        }
        proof {
            if pos < lies_above@.len() {
                assert(is_first_true(lies_above@, pos as int));
                let c = choose|i: int| is_first_true(lies_above@, i);
                lemma_first_true_unique(lies_above@, pos as int, c);
            } else {
                assert(!exists|i: int| is_first_true(lies_above@, i));
            }
        }
        self.segments.insert(pos, segment);
    }

    /// Remove every segment with identifier `segment_id`; the others keep
    /// their order.
    pub fn remove(&mut self, segment_id: usize)
        ensures
            final(self)@ == without_id(old(self)@, segment_id),
    {
        remove_ident(&mut self.segments, segment_id);
    }

    /// Get the segments currently in the status structure.
    pub fn segments(&self) -> (r: &[Segment<P>])
        ensures
            r@ == self@,
    {
        self.segments.as_slice()
    }

    /// Find the neighbors of a given segment ID at the current sweep position.
    /// Returns (above, below) segment IDs: the segments are kept from bottom
    /// to top, so above is the next one and below the previous one.
    pub fn neighbors(&self, segment_id: usize) -> (r: (Option<usize>, Option<usize>))
        ensures
            r == neighbor_ids(self@, segment_id),
    {
        let idx = index_of_id(self.segments.as_slice(), segment_id);
        match idx {
            Some(i) => {
                assert(is_first_with_id(self.segments@, segment_id, i as int));
                proof {
                    let c = choose|j: int| is_first_with_id(self.segments@, segment_id, j);
                    lemma_first_with_id_unique(self.segments@, segment_id, i as int, c);
                }
                let n = self.segments.len();
                let above = if i + 1 < n {
                    Some(self.segments[i + 1].id)
                } else {
                    None
                };
                let below = if i > 0 {
                    Some(self.segments[i - 1].id)
                } else {
                    None
                };
                (above, below)
            },
            None => {
                assert(!exists|j: int| is_first_with_id(self.segments@, segment_id, j));
                (None, None)
            },
        }
    }

    /// Number of active segments.
    pub fn len(&self) -> (r: usize)
        ensures
            r == self@.len(),
    {
        self.segments.len()
    }

    /// Whether the status is empty.
    pub fn is_empty(&self) -> (r: bool)
        ensures
            r == (self@.len() == 0),
    {
        self.segments.is_empty()
    }
}

impl<P> Default for Status<P> {
    fn default() -> (s: Self)
        ensures
            s@ == Seq::<Segment<P>>::empty(),
    {
        Self::new()
    }
}

} // verus!
