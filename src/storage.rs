//! The uniform interface the heap algorithms use to read and move elements.
use vstd::prelude::*;

verus! {

/// A sequence of slots read as an implicit complete binary tree.
///
/// Each slot holds one element (`Item`), possibly with bookkeeping of the
/// storage's own. `frame` is the part of the storage's state that is not a
/// slot; no operation of this trait changes it. While a sift is in
/// progress the slot it works on is the hole: its element is the one being
/// placed, and moving the hole exchanges two slots, so the other slot's
/// element lands where the hole was.
pub trait Storage {
    type Item;

    type Slot;

    type Frame;

    spec fn slots(&self) -> Seq<Self::Slot>;

    spec fn item_of(slot: Self::Slot) -> Self::Item;

    spec fn with_item(slot: Self::Slot, item: Self::Item) -> Self::Slot;

    spec fn frame(&self) -> Self::Frame;

    spec fn wf(&self) -> bool;

    proof fn lemma_with_item(slot: Self::Slot, item: Self::Item)
        ensures
            Self::item_of(Self::with_item(slot, item)) == item,
    ;

    proof fn lemma_len_bound(&self)
        ensures
            self.slots().len() <= usize::MAX,
    ;

    fn len(&self) -> (r: usize)
        ensures
            r == self.slots().len(),
    ;

    fn is_empty(&self) -> (r: bool)
        ensures
            r == (self.slots().len() == 0),
    {
        self.len() == 0
    }

    fn get(&self, pos: usize) -> (r: &Self::Item)
        requires
            self.wf(),
            pos < self.slots().len(),
        ensures
            *r == Self::item_of(self.slots()[pos as int]),
    ;

    fn get_mut(&mut self, pos: usize) -> (r: &mut Self::Item)
        requires
            old(self).wf(),
            pos < old(self).slots().len(),
        ensures
            *r == Self::item_of(old(self).slots()[pos as int]),
            final(self).wf(),
            final(self).frame() == old(self).frame(),
            final(self).slots() == old(self).slots().update(
                pos as int,
                Self::with_item(old(self).slots()[pos as int], *final(r)),
            ),
    ;

    /// Moves the element at `src` into the hole at `dst`; the hole moves to
    /// `src`.
    fn move_element(&mut self, src: usize, dst: usize)
        requires
            old(self).wf(),
            src < old(self).slots().len(),
            dst < old(self).slots().len(),
            src != dst,
        ensures
            final(self).wf(),
            final(self).frame() == old(self).frame(),
            final(self).slots() == old(self).slots().update(dst as int, old(self).slots()[src as int]).update(
                src as int,
                old(self).slots()[dst as int],
            ),
    ;
}

/// The element held by slot `i`.
pub open spec fn item_at<S: Storage + ?Sized>(slots: Seq<S::Slot>, i: int) -> S::Item {
    S::item_of(slots[i])
}

impl<T> Storage for [T] {
    type Item = T;

    type Slot = T;

    type Frame = ();

    open spec fn slots(&self) -> Seq<T> {
        self@
    }

    open spec fn item_of(slot: T) -> T {
        slot
    }

    open spec fn with_item(slot: T, item: T) -> T {
        item
    }

    open spec fn frame(&self) -> () {
        ()
    }

    open spec fn wf(&self) -> bool {
        true
    }

    proof fn lemma_with_item(slot: T, item: T) {
    }

    proof fn lemma_len_bound(&self) {
        assert(self@.len() == self.len());
    }

    fn len(&self) -> (r: usize) {
        <[T]>::len(self)
    }

    fn get(&self, pos: usize) -> (r: &T) {
        &self[pos]
    }

    fn get_mut(&mut self, pos: usize) -> (r: &mut T) {
        let (_, tail) = self.split_at_mut(pos);
        tail.first_mut().unwrap()
    }

    fn move_element(&mut self, src: usize, dst: usize) {
        let (lo, hi) = if src < dst {
            (src, dst)
        } else {
            (dst, src)
        };
        let ghost s0 = self@;
        let (left, right) = self.split_at_mut(hi);
        let (_, mid) = left.split_at_mut(lo);
        let a = mid.first_mut().unwrap();
        let b = right.first_mut().unwrap();
        core::mem::swap(a, b);
        proof {
            assert(self@ =~= s0.update(dst as int, s0[src as int]).update(src as int, s0[dst as int]));
            assert(self.wf());
        }
    }
}

impl<T> Storage for Vec<T> {
    type Item = T;

    type Slot = T;

    type Frame = ();

    open spec fn slots(&self) -> Seq<T> {
        self@
    }

    open spec fn item_of(slot: T) -> T {
        slot
    }

    open spec fn with_item(slot: T, item: T) -> T {
        item
    }

    open spec fn frame(&self) -> () {
        ()
    }

    open spec fn wf(&self) -> bool {
        true
    }

    proof fn lemma_with_item(slot: T, item: T) {
    }

    proof fn lemma_len_bound(&self) {
        assert(self@.len() == self.len());
    }

    fn len(&self) -> (r: usize) {
        self.as_slice().len()
    }

    fn get(&self, pos: usize) -> (r: &T) {
        Storage::get(self.as_slice(), pos)
    }

    fn get_mut(&mut self, pos: usize) -> (r: &mut T) {
        Storage::get_mut(self.as_mut_slice(), pos)
    }

    fn move_element(&mut self, src: usize, dst: usize) {
        self.as_mut_slice().move_element(src, dst);
        proof {
            assert(self.wf());
        }
    }
}

} // verus!
