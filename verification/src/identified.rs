//! Items that carry a segment or rectangle identifier, and the removal of
//! every item with a given identifier from a sequence.

use crate::event::Segment;
use vstd::prelude::*;

verus! {

/// An item known by an identifier.
pub trait Identified {
    /// The item's identifier.
    spec fn ident(&self) -> usize;

    /// Reads the item's identifier.
    fn identifier(&self) -> (r: usize)
        ensures
            r == self.ident(),
    ;
}

impl<P> Identified for Segment<P> {
    open spec fn ident(&self) -> usize {
        self.id
    }

    fn identifier(&self) -> (r: usize) {
        self.id
    }
}

impl Identified for usize {
    open spec fn ident(&self) -> usize {
        *self
    }

    fn identifier(&self) -> (r: usize) {
        *self
    }
}

/// Whether an item does not carry identifier `id`.
pub open spec fn lacks_ident<T: Identified>(id: usize) -> spec_fn(T) -> bool {
    |x: T| x.ident() != id
}

/// The items of `items` whose identifier is not `id`, in their order.
pub open spec fn without_ident<T: Identified>(items: Seq<T>, id: usize) -> Seq<T> {
    items.filter(lacks_ident(id))
}

/// What is left after removal was there before.
pub proof fn lemma_without_ident_from<T: Identified>(items: Seq<T>, id: usize, x: T)
    requires
        without_ident(items, id).contains(x),
    ensures
        items.contains(x),
{
    items.lemma_filter_contains_rev(lacks_ident(id), x);
}

/// Nothing left after removal carries the removed identifier.
pub proof fn lemma_without_ident_lacks<T: Identified>(items: Seq<T>, id: usize, i: int)
    requires
        0 <= i < without_ident(items, id).len(),
    ensures
        without_ident(items, id)[i].ident() != id,
{
    items.lemma_filter_pred(lacks_ident(id), i);
}

/// Removes every item with identifier `id`; the others keep their order.
pub fn remove_ident<T: Identified>(items: &mut Vec<T>, id: usize)
    ensures
        final(items)@ == without_ident(old(items)@, id),
{
    let ghost original = items@;
    let ghost mut k: int = 0;
    let mut i: usize = 0;
    proof {
        reveal_with_fuel(Seq::<_>::filter, 1);
        assert(original.take(0) =~= Seq::<T>::empty());
        assert(items@.take(0) =~= Seq::<T>::empty());
        assert(items@.skip(0) =~= original.skip(0));
    }
    while i < items.len()
        invariant
            i <= items@.len(),
            0 <= k <= original.len(),
            items@.len() - i == original.len() - k,
            items@.take(i as int) == without_ident(original.take(k), id),
            items@.skip(i as int) == original.skip(k),
        decreases items@.len() - i,
    {
        let ghost before = items@;
        proof {
            assert(before[i as int] == before.skip(i as int)[0]);
            assert(original[k] == original.skip(k)[0]);
            assert(original.take(k + 1).drop_last() =~= original.take(k));
            assert(original.take(k + 1).last() == original[k]);
            reveal_with_fuel(Seq::<_>::filter, 1);
        }
        if items[i].identifier() == id {
            items.remove(i);
            proof {
                assert(items@.take(i as int) =~= before.take(i as int));
                assert(items@.skip(i as int) =~= before.skip(i as int + 1));
                assert(original.skip(k + 1) =~= original.skip(k).skip(1));
                assert(before.skip(i as int + 1) =~= before.skip(i as int).skip(1));
                k = k + 1;
            }
        } else {
            i = i + 1;
            proof {
                assert(items@.take(i as int) =~= before.take(i - 1).push(before[i - 1]));
                assert(original.skip(k + 1) =~= original.skip(k).skip(1));
                assert(before.skip(i as int) =~= before.skip(i - 1).skip(1));
                k = k + 1;
            }
        }
    }
    proof {
        assert(items@.take(i as int) =~= items@);
        assert(original.skip(k).len() == 0);
        assert(original.take(k) =~= original);
    }
}

} // verus!
