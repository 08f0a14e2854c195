//! Bookkeeping of the sweep that finds overlapping axis-aligned rectangles.
//!
//! The sweep walks the rectangles' left and right edges in order of x. A
//! rectangle becomes active at its left edge and stops being active at its
//! right edge; when it becomes active it is tested against every active
//! rectangle, and each overlapping pair is reported once, as
//! `(smaller id, larger id)`. The geometric test itself is made by the owner
//! of the coordinates and handed in as one answer per active rectangle.

use crate::identified::{remove_ident, without_ident};
use vstd::prelude::*;

verus! {

/// Lexicographic `<` on pairs of identifiers.
pub open spec fn pair_lt(a: (usize, usize), b: (usize, usize)) -> bool {
    a.0 < b.0 || (a.0 == b.0 && a.1 < b.1)
}

/// The pairs in `s` increase strictly, so none occurs twice.
pub open spec fn strictly_sorted(s: Seq<(usize, usize)>) -> bool {
    forall|i: int, j: int| 0 <= i < j < s.len() ==> pair_lt(s[i], s[j])
}

/// A pair written with its smaller identifier first.
pub open spec fn normalized(a: usize, b: usize) -> (usize, usize) {
    if a < b {
        (a, b)
    } else {
        (b, a)
    }
}

/// The pairs found when rectangle `rect_id` becomes active and is tested
/// against the first `upto` active rectangles: one for each of them that
/// overlaps it.
pub open spec fn pairs_found_upto(
    rect_id: usize,
    active: Seq<usize>,
    overlaps: Seq<bool>,
    upto: int,
) -> Set<(usize, usize)> {
    Set::new(
        |p: (usize, usize)|
            exists|k: int| 0 <= k < upto && overlaps[k] && p == normalized(rect_id, active[k]),
    )
}

/// The pairs found when rectangle `rect_id` becomes active: one for each
/// active rectangle that overlaps it (`overlaps[k]` answers for `active[k]`).
pub open spec fn pairs_found(rect_id: usize, active: Seq<usize>, overlaps: Seq<bool>) -> Set<
    (usize, usize),
> {
    pairs_found_upto(rect_id, active, overlaps, active.len() as int)
}

/// The pairs found when a rectangle becomes active are exactly the pairs of it
/// with each active rectangle that overlaps it, smaller identifier first:
/// every answer `true` gives its pair, whatever the other answers, and no
/// pair comes from anywhere else.
pub proof fn lemma_pairs_found_exact(rect_id: usize, active: Seq<usize>, overlaps: Seq<bool>)
    requires
        overlaps.len() == active.len(),
    ensures
        forall|k: int|
            0 <= k < active.len() && #[trigger] overlaps[k] ==> pairs_found(
                rect_id,
                active,
                overlaps,
            ).contains(
                (if rect_id < active[k] {
                    (rect_id, active[k])
                } else {
                    (active[k], rect_id)
                }),
            ),
        forall|q: (usize, usize)|
            #[trigger] pairs_found(rect_id, active, overlaps).contains(q) ==> exists|k: int|
                0 <= k < active.len() && overlaps[k] && q == (if rect_id < active[k] {
                    (rect_id, active[k])
                } else {
                    (active[k], rect_id)
                }),
        forall|q: (usize, usize)| #[trigger]
            pairs_found(rect_id, active, overlaps).contains(q) ==> q.0 <= q.1 && (q.0 == rect_id
                || q.1 == rect_id),
{
    assert forall|k: int| 0 <= k < active.len() && #[trigger] overlaps[k] implies pairs_found(
        rect_id,
        active,
        overlaps,
    ).contains(
        (if rect_id < active[k] {
            (rect_id, active[k])
        } else {
            (active[k], rect_id)
        }),
    ) by {
        assert(normalized(rect_id, active[k]) == (if rect_id < active[k] {
            (rect_id, active[k])
        } else {
            (active[k], rect_id)
        }));
    }
}

/// The identifiers of `active` other than `rect_id`, in their order.
pub open spec fn without(active: Seq<usize>, rect_id: usize) -> Seq<usize> {
    without_ident(active, rect_id)
}

/// Adds `p` to a strictly sorted sequence of pairs, where it belongs, unless
/// it is there already.
fn add_pair(pairs: &mut Vec<(usize, usize)>, p: (usize, usize))
    requires
        strictly_sorted(old(pairs)@),
    ensures
        strictly_sorted(final(pairs)@),
        final(pairs)@.to_set() == old(pairs)@.to_set().insert(p),
{
    let mut i: usize = 0;
    while i < pairs.len() && (pairs[i].0 < p.0 || (pairs[i].0 == p.0 && pairs[i].1 < p.1))
        invariant
            i <= pairs@.len(),
            forall|j: int| 0 <= j < i ==> pair_lt(#[trigger] pairs@[j], p),
        decreases pairs@.len() - i,
    {
        i = i + 1;
    }
    if i < pairs.len() && pairs[i].0 == p.0 && pairs[i].1 == p.1 {
        proof {
            assert(pairs@.to_set().insert(p) =~= pairs@.to_set()) by {
                assert(pairs@[i as int] == p);
            }
        }
        return;
    }
    let ghost before = pairs@;
    pairs.insert(i, p);
    proof {
        assert forall|a: int, b: int| 0 <= a < b < pairs@.len() implies pair_lt(
            pairs@[a],
            pairs@[b],
        ) by {
            if b < i {
            } else if b == i {
                assert(pair_lt(before[a], p));
            } else if a < i {
                assert(pair_lt(before[a], p));
                assert(!pair_lt(before[i as int], p));
                if i + 1 < b {
                    assert(pair_lt(before[i as int], before[b - 1]));
                }
            } else if a == i {
                assert(!pair_lt(before[i as int], p));
                if i + 1 < b {
                    assert(pair_lt(before[i as int], before[b - 1]));
                }
            } else {
                assert(pair_lt(before[a - 1], before[b - 1]));
            }
        }
        assert forall|q: (usize, usize)|
            #[trigger] before.to_set().insert(p).contains(q) implies pairs@.to_set().contains(
                q,
            ) by {
            if q == p {
                assert(pairs@[i as int] == p);
            } else {
                let j = choose|j: int| 0 <= j < before.len() && before[j] == q;
                if j < i {
                    assert(pairs@[j] == q);
                } else {
                    assert(pairs@[j + 1] == q);
                }
            }
        }
        assert forall|q: (usize, usize)|
            #[trigger] pairs@.to_set().contains(q) implies before.to_set().insert(p).contains(
                q,
            ) by {
            if q != p {
                let j = choose|j: int| 0 <= j < pairs@.len() && pairs@[j] == q;
                if j < i {
                    assert(before[j] == q);
                } else {
                    assert(before[j - 1] == q);
                }
            }
        }
        assert(pairs@.to_set() =~= before.to_set().insert(p));
    }
}

/// The state of a rectangle-overlap sweep: the rectangles active at the sweep
/// line, in the order they became active, and the overlapping pairs reported
/// so far.
pub struct OverlapSweep {
    active: Vec<usize>,
    pairs: Vec<(usize, usize)>,
}

impl OverlapSweep {
    /// The identifiers of the active rectangles, in the order they became
    /// active.
    pub closed spec fn active_ids(&self) -> Seq<usize> {
        self.active@
    }

    /// The pairs reported so far, in increasing order.
    pub closed spec fn reported(&self) -> Seq<(usize, usize)> {
        self.pairs@
    }

    /// The reported pairs increase strictly and each has its smaller
    /// identifier first.
    pub open spec fn well_formed(&self) -> bool {
        &&& strictly_sorted(self.reported())
        &&& forall|i: int|
            0 <= i < self.reported().len() ==> (#[trigger] self.reported()[i]).0 <= self.reported()[i].1
    }

    /// A sweep before the first edge: nothing active, nothing reported.
    pub fn new() -> (s: Self)
        ensures
            s.well_formed(),
            s.active_ids() == Seq::<usize>::empty(),
            s.reported() == Seq::<(usize, usize)>::empty(),
    {
        OverlapSweep { active: Vec::new(), pairs: Vec::new() }
    }

    /// The identifiers of the active rectangles, in the order they became
    /// active.
    pub fn active(&self) -> (r: &[usize])
        ensures
            r@ == self.active_ids(),
    {
        self.active.as_slice()
    }

    /// The left edge of rectangle `rect_id`: each active rectangle that
    /// overlaps it (`overlaps[k]` answers for the `k`-th active one) gives
    /// the pair of the two, reported unless it was already; then the
    /// rectangle becomes active.
    pub fn start(&mut self, rect_id: usize, overlaps: &[bool])
        requires
            old(self).well_formed(),
            overlaps@.len() == old(self).active_ids().len(),
        ensures
            final(self).well_formed(),
            final(self).active_ids() == old(self).active_ids().push(rect_id),
            final(self).reported().to_set() == old(self).reported().to_set().union(
                pairs_found(rect_id, old(self).active_ids(), overlaps@),
            ),
            forall|q: (usize, usize)| #[trigger]
                old(self).reported().contains(q) ==> final(self).reported().contains(q),
            forall|k: int|
                0 <= k < overlaps@.len() && #[trigger] overlaps@[k] ==> final(self).reported().contains(
                    (if rect_id < old(self).active_ids()[k] {
                        (rect_id, old(self).active_ids()[k])
                    } else {
                        (old(self).active_ids()[k], rect_id)
                    }),
                ),
            forall|q: (usize, usize)| #[trigger]
                final(self).reported().contains(q) ==> old(self).reported().contains(q) || exists|
                    k: int,
                |
                    0 <= k < overlaps@.len() && overlaps@[k] && q == (if rect_id < old(self).active_ids()[k] {
                        (rect_id, old(self).active_ids()[k])
                    } else {
                        (old(self).active_ids()[k], rect_id)
                    }),
    {
        let n = self.active.len();
        let mut k: usize = 0;
        proof {
            assert(pairs_found_upto(rect_id, self.active@, overlaps@, 0) =~= Set::empty());
            assert(self.pairs@.to_set().union(Set::empty()) =~= self.pairs@.to_set());
        }
        while k < n
            invariant
                n == self.active@.len(),
                n == overlaps@.len(),
                k <= n,
                self.active@ == old(self).active@,
                self.well_formed(),
                self.pairs@.to_set() == old(self).pairs@.to_set().union(
                    pairs_found_upto(rect_id, self.active@, overlaps@, k as int),
                ),
            decreases n - k,
        {
            let ghost before = self.pairs@;
            if overlaps[k] {
                let other = self.active[k];
                let p = if rect_id < other {
                    (rect_id, other)
                } else {
                    (other, rect_id)
                };
                add_pair(&mut self.pairs, p);
                proof {
                    assert forall|i: int| 0 <= i < self.pairs@.len() implies (
                    #[trigger] self.pairs@[i]).0 <= self.pairs@[i].1 by {
                        if self.pairs@[i] != p {
                            assert(self.pairs@.to_set().contains(self.pairs@[i]));
                            assert(before.to_set().contains(self.pairs@[i]));
                            let j = choose|j: int| 0 <= j < before.len() && before[j] == self.pairs@[i];
                            assert(before[j].0 <= before[j].1);
                        }
                    }
                    assert(pairs_found_upto(rect_id, self.active@, overlaps@, k + 1) =~= pairs_found_upto(
                        rect_id,
                        self.active@,
                        overlaps@,
                        k as int,
                    ).insert(p));
                    assert(self.pairs@.to_set() =~= old(self).pairs@.to_set().union(
                        pairs_found_upto(rect_id, self.active@, overlaps@, k + 1),
                    ));
                }
            } else {
                proof {
                    assert(pairs_found_upto(rect_id, self.active@, overlaps@, k + 1) =~= pairs_found_upto(
                        rect_id,
                        self.active@,
                        overlaps@,
                        k as int,
                    ));
                }
            }
            k = k + 1;
        }
        self.active.push(rect_id);
        proof {
            let found = pairs_found(rect_id, old(self).active@, overlaps@);
            lemma_pairs_found_exact(rect_id, old(self).active@, overlaps@);
            assert forall|q: (usize, usize)| #[trigger]
                old(self).pairs@.contains(q) implies self.pairs@.contains(q) by {
                assert(old(self).pairs@.to_set().contains(q));
                assert(self.pairs@.to_set().contains(q));
            }
            assert forall|k: int| 0 <= k < overlaps@.len() && #[trigger] overlaps@[k] implies self.pairs@.contains(
                (if rect_id < old(self).active@[k] {
                    (rect_id, old(self).active@[k])
                } else {
                    (old(self).active@[k], rect_id)
                }),
            ) by {
                let p = (if rect_id < old(self).active@[k] {
                    (rect_id, old(self).active@[k])
                } else {
                    (old(self).active@[k], rect_id)
                });
                assert(found.contains(p));
                assert(self.pairs@.to_set().contains(p));
            }
            assert forall|q: (usize, usize)| #[trigger] self.pairs@.contains(q) implies old(self).pairs@.contains(q) || exists|k: int|
                0 <= k < overlaps@.len() && overlaps@[k] && q == (if rect_id < old(self).active@[k] {
                    (rect_id, old(self).active@[k])
                } else {
                    (old(self).active@[k], rect_id)
                }) by {
                assert(self.pairs@.to_set().contains(q));
                if !old(self).pairs@.contains(q) {
                    assert(!old(self).pairs@.to_set().contains(q));
                    assert(found.contains(q));
                }
            }
        }
    }

    /// The right edge of rectangle `rect_id`: it stops being active. The
    /// reported pairs stay as they are.
    pub fn end(&mut self, rect_id: usize)
        requires
            old(self).well_formed(),
        ensures
            final(self).well_formed(),
            final(self).active_ids() == without(old(self).active_ids(), rect_id),
            final(self).reported() == old(self).reported(),
    {
        remove_ident(&mut self.active, rect_id);
    }

    /// Ends the sweep and hands out the reported pairs, sorted, without
    /// duplicates, each with its smaller identifier first.
    pub fn into_pairs(self) -> (r: Vec<(usize, usize)>)
        requires
            self.well_formed(),
        ensures
            r@ == self.reported(),
            strictly_sorted(r@),
            forall|i: int| 0 <= i < r@.len() ==> (#[trigger] r@[i]).0 <= r@[i].1,
    {
        self.pairs
    }
}

} // verus!
