//! Heap operations composed from the sift primitives, for any storage.
use crate::ordering::Ordering;
use crate::sift;
use crate::sift::{descends, on_path, upper_of, heap_except, heap_upto, is_heap, items, lemma_descends_ge, lemma_descends_root, ordered_at};
use crate::storage::Storage;
use crate::tree;
use crate::tree::{child_of, parent_of};
use vstd::prelude::*;

verus! {

/// The heap operations, available on every storage.
pub trait RawHeap: Storage + Sized {
    /// Takes the element at `pos` up the heap. Returns its new position.
    fn sift_up<O: Ordering<Self::Item>>(&mut self, pos: usize, ord: &O) -> (r: usize)
        requires
            old(self).wf(),
            ord.lawful(),
            pos < old(self).slots().len(),
            heap_except(ord, items(old(self)), pos as int, old(self).slots().len() as int),
        ensures
            final(self).wf(),
            final(self).frame() == old(self).frame(),
            final(self).slots().len() == old(self).slots().len(),
            final(self).slots().to_multiset() == old(self).slots().to_multiset(),
            r != pos ==> is_heap(ord, items(final(self))),
            r == pos ==> *final(self) == *old(self),
            r == pos && pos > 0 ==> ordered_at(ord, items(old(self)), pos as int),
    {
        proof {
            self.lemma_len_bound();
        }
        sift::sift_up(self, pos, ord, Ghost(self.slots().len() as int))
    }

    /// Takes the element at `pos` down the heap. Returns its new position.
    ///
    /// Both subtrees below `pos` must be heaps; afterwards the subtree of
    /// `pos` is one, the element of `pos` is at the returned position, and
    /// nothing outside the subtree changed.
    fn sift_down<O: Ordering<Self::Item>>(&mut self, pos: usize, ord: &O) -> (r: usize)
        requires
            old(self).wf(),
            ord.lawful(),
            pos < old(self).slots().len(),
            forall|j: int|
                0 < j < old(self).slots().len() && descends(parent_of(j), pos as int) && parent_of(j)
                    != pos ==> #[trigger] ordered_at(ord, items(old(self)), j),
        ensures
            final(self).wf(),
            final(self).frame() == old(self).frame(),
            final(self).slots().len() == old(self).slots().len(),
            final(self).slots().to_multiset() == old(self).slots().to_multiset(),
            forall|j: int|
                0 < j < old(self).slots().len() && descends(parent_of(j), pos as int)
                    ==> #[trigger] ordered_at(ord, items(final(self)), j),
            forall|k: int|
                0 <= k < old(self).slots().len() && !descends(k, pos as int)
                    ==> #[trigger] final(self).slots()[k] == old(self).slots()[k],
            r == pos ==> *final(self) == *old(self),
            descends(r as int, pos as int),
            r < old(self).slots().len(),
            final(self).slots()[r as int] == old(self).slots()[pos as int],
            r != pos ==> ord.prefers(
                Self::item_of(final(self).slots()[pos as int]),
                Self::item_of(old(self).slots()[pos as int]),
            ),
    {
        sift::sift_down(self, pos, ord)
    }

    /// Takes the element at `pos` down to a leaf, whatever its value, along
    /// the children that belong above their siblings.
    fn sift_down_to_bottom<O: Ordering<Self::Item>>(&mut self, pos: usize, ord: &O) -> (r: usize)
        requires
            old(self).wf(),
            ord.lawful(),
            pos < old(self).slots().len(),
        ensures
            final(self).wf(),
            final(self).frame() == old(self).frame(),
            final(self).slots().len() == old(self).slots().len(),
            final(self).slots().to_multiset() == old(self).slots().to_multiset(),
            pos <= r < old(self).slots().len(),
            child_of(r as int, 0) >= old(self).slots().len(),
            descends(r as int, pos as int),
            final(self).slots()[r as int] == old(self).slots()[pos as int],
            forall|q: int|
                0 <= q < old(self).slots().len() && #[trigger] on_path(q, pos as int, r as int) && q
                    != r ==> descends(r as int, upper_of(ord, items(old(self)), q))
                    && final(self).slots()[q] == old(self).slots()[upper_of(ord, items(old(self)), q)],
            forall|q: int|
                0 <= q < old(self).slots().len() && !#[trigger] on_path(q, pos as int, r as int)
                    ==> final(self).slots()[q] == old(self).slots()[q],
            heap_except(ord, items(old(self)), pos as int, old(self).slots().len() as int)
                ==> heap_except(ord, items(final(self)), r as int, old(self).slots().len() as int),
    {
        sift::sift_down_to_bottom(self, pos, ord)
    }

    /// Restores the heap after the element at `pos` changed. The element
    /// goes either up or down, never both, and ends at the returned position.
    fn fixup_sift<O: Ordering<Self::Item>>(&mut self, pos: usize, ord: &O) -> (r: usize)
        requires
            old(self).wf(),
            ord.lawful(),
            pos < old(self).slots().len(),
            heap_except(ord, items(old(self)), pos as int, old(self).slots().len() as int),
        ensures
            r < old(self).slots().len(),
            final(self).slots()[r as int] == old(self).slots()[pos as int],
            descends(pos as int, r as int) || descends(r as int, pos as int),
            r == pos ==> *final(self) == *old(self),
            (r == pos) == (Self::item_of(final(self).slots()[pos as int]) == Self::item_of(
                old(self).slots()[pos as int],
            )),
            final(self).wf(),
            final(self).frame() == old(self).frame(),
            final(self).slots().len() == old(self).slots().len(),
            final(self).slots().to_multiset() == old(self).slots().to_multiset(),
            is_heap(ord, items(final(self))),
    {
        sift::fixup_sift(self, pos, ord)
    }

    /// Like `fixup_sift`, but faster when the element belongs near the
    /// bottom: it goes all the way down first, then up.
    fn fixup_sift_to_bottom<O: Ordering<Self::Item>>(&mut self, pos: usize, ord: &O) -> (r: usize)
        requires
            old(self).wf(),
            ord.lawful(),
            pos < old(self).slots().len(),
            heap_except(ord, items(old(self)), pos as int, old(self).slots().len() as int),
        ensures
            final(self).wf(),
            final(self).frame() == old(self).frame(),
            final(self).slots().len() == old(self).slots().len(),
            final(self).slots().to_multiset() == old(self).slots().to_multiset(),
            is_heap(ord, items(final(self))),
    {
        let pos = self.sift_down_to_bottom(pos, ord);
        let r = self.sift_up(pos, ord);
        proof {
            if r == pos {
                let s = items(self);
                assert forall|j: int| 0 < j < self.slots().len() implies #[trigger] ordered_at(
                    ord,
                    s,
                    j,
                ) by {
                    if j != pos {
                        assert(parent_of(j) != pos);
                    }
                }
            }
        }
        r
    }

    /// The root element, if any.
    fn peek(&self) -> (r: Option<&Self::Item>)
        requires
            self.wf(),
        ensures
            self.slots().len() == 0 ==> r is None,
            self.slots().len() > 0 ==> r == Some(&Self::item_of(self.slots()[0])),
    {
        match tree::root(self) {
            Some(pos) => Some(self.get(pos)),
            None => None,
        }
    }

    /// Puts `last_item` at the root and returns the root's element, then
    /// restores the heap. On an empty storage `last_item` comes back.
    fn pop_swap<O: Ordering<Self::Item>>(&mut self, last_item: Self::Item, ord: &O) -> (r: Self::Item)
        requires
            old(self).wf(),
            ord.lawful(),
            heap_except(ord, items(old(self)), 0, old(self).slots().len() as int),
        ensures
            final(self).wf(),
            final(self).frame() == old(self).frame(),
            final(self).slots().len() == old(self).slots().len(),
            is_heap(ord, items(final(self))),
            old(self).slots().len() == 0 ==> r == last_item && *final(self) == *old(self),
            old(self).slots().len() > 0 ==> r == Self::item_of(old(self).slots()[0])
                && final(self).slots().to_multiset() == old(self).slots().update(
                0,
                Self::with_item(old(self).slots()[0], last_item),
            ).to_multiset(),
    {
        let ghost given = last_item;
        let mut last_item = last_item;
        if let Some(pos) = tree::root(self) {
            let ghost before = self.slots();
            core::mem::swap(self.get_mut(pos), &mut last_item);
            proof {
                let s = items(self);
                assert forall|j: int|
                    0 < j < s.len() && j != 0 && parent_of(j) != 0 implies #[trigger] ordered_at(
                    ord,
                    s,
                    j,
                ) by {
                    assert(ordered_at(ord, sift::items_of::<Self>(before), j));
                }
            }
            self.fixup_sift_to_bottom(pos, ord);
        }
        last_item
    }

    /// Restores the heap property everywhere, bottom-up.
    fn rebuild<O: Ordering<Self::Item>>(&mut self, ord: &O)
        requires
            old(self).wf(),
            ord.lawful(),
        ensures
            final(self).wf(),
            final(self).frame() == old(self).frame(),
            final(self).slots().len() == old(self).slots().len(),
            final(self).slots().to_multiset() == old(self).slots().to_multiset(),
            is_heap(ord, items(final(self))),
    {
        let range = tree::rebuild_range(self);
        let mut i = range.end;
        while i > range.start
            invariant
                self.wf(),
                ord.lawful(),
                range.start == 0,
                i <= self.slots().len(),
                self.frame() == old(self).frame(),
                self.slots().len() == old(self).slots().len(),
                self.slots().to_multiset() == old(self).slots().to_multiset(),
                forall|j: int|
                    0 < j < self.slots().len() && parent_of(j) >= i ==> #[trigger] ordered_at(
                        ord,
                        items(self),
                        j,
                    ),
            decreases i,
        {
            i = i - 1;
            let ghost before = self.slots();
            let ghost bi = items(self);
            proof {
                assert forall|j: int|
                    0 < j < self.slots().len() && descends(parent_of(j), i as int) && parent_of(j)
                        != i implies #[trigger] ordered_at(ord, items(self), j) by {
                    lemma_descends_ge(parent_of(j), i as int);
                }
            }
            sift::sift_down(self, i, ord);
            proof {
                assert forall|j: int|
                    0 < j < self.slots().len() && parent_of(j) >= i implies #[trigger] ordered_at(
                    ord,
                    items(self),
                    j,
                ) by {
                    if !descends(parent_of(j), i as int) {
                        lemma_descends_ge(j, i as int);
                        assert(descends(i as int, i as int));
                        assert(ordered_at(ord, bi, j));
                        assert(self.slots()[j] == before[j]);
                        assert(self.slots()[parent_of(j)] == before[parent_of(j)]);
                        assert(items(self)[j] == bi[j]);
                        assert(items(self)[parent_of(j)] == bi[parent_of(j)]);
                    }
                }
            }
        }
        proof {
            assert forall|j: int| 0 < j < self.slots().len() implies #[trigger] ordered_at(
                ord,
                items(self),
                j,
            ) by {
                assert(parent_of(j) >= 0);
            }
        }
    }

    /// Restores the heap after the slots from `start` on were appended to a
    /// heap: by a full rebuild, or by sifting each new slot up, whichever
    /// costs less.
    fn rebuild_tail<O: Ordering<Self::Item>>(&mut self, start: usize, ord: &O)
        requires
            old(self).wf(),
            ord.lawful(),
            start <= old(self).slots().len(),
            heap_upto(ord, items(old(self)), start as int),
        ensures
            start == old(self).slots().len() ==> *final(self) == *old(self),
            final(self).wf(),
            final(self).frame() == old(self).frame(),
            final(self).slots().len() == old(self).slots().len(),
            final(self).slots().to_multiset() == old(self).slots().to_multiset(),
            is_heap(ord, items(final(self))),
    {
        if start == self.len() {
            return;
        }
        if tree::better_to_rebuild(self, start) {
            self.rebuild(ord);
        } else {
            let len = self.len();
            let mut i = start;
            while i < len
                invariant
                    self.wf(),
                    ord.lawful(),
                    start <= i <= len,
                    len == self.slots().len(),
                    self.frame() == old(self).frame(),
                    self.slots().len() == old(self).slots().len(),
                    self.slots().to_multiset() == old(self).slots().to_multiset(),
                    heap_upto(ord, items(self), i as int),
                decreases len - i,
            {
                proof {
                    let s = items(self);
                    assert forall|j: int| 0 < j < i + 1 && j != i && parent_of(j) != i implies #[trigger] ordered_at(
                        ord,
                        s,
                        j,
                    ) by {
                    }
                }
                let r = sift::sift_up(self, i, ord, Ghost(i as int + 1));
                proof {
                    if r == i {
                        let s = items(self);
                        assert forall|j: int| 0 < j < i + 1 implies #[trigger] ordered_at(ord, s, j) by {
                        }
                    }
                }
                i = i + 1;
            }
        }
    }
}

impl<S: Storage> RawHeap for S {
}

/// A guard over the root of a heap, made by [`PeekMut::new`].
///
/// `as_mut` marks the guard for repair only when the root has a child: a
/// lone root is a heap whatever it holds. `restore` sifts the root down if
/// it was marked.
pub struct PeekMut<'a, S: RawHeap> {
    heap: &'a mut S,
    sift: bool,
}

impl<'a, S: RawHeap> PeekMut<'a, S> {
    /// The storage the guard works on.
    pub closed spec fn heap(&self) -> &'a mut S {
        self.heap
    }

    /// Whether the root may have changed since the guard was made.
    pub closed spec fn dirty(&self) -> bool {
        self.sift
    }

    /// What holds of a guard between its operations, for the ordering the
    /// heap is kept in.
    pub open spec fn valid<O: Ordering<S::Item>>(&self, ord: &O) -> bool {
        &&& self.heap().wf()
        &&& self.heap().slots().len() > 0
        &&& heap_except(ord, items(self.heap()), 0, self.heap().slots().len() as int)
        &&& !self.dirty() ==> is_heap(ord, items(self.heap()))
    }

    /// A guard over the root, or `None` if the heap is empty.
    pub fn new(heap: &'a mut S) -> (r: Option<Self>)
        requires
            old(heap).wf(),
        ensures
            r is None <==> old(heap).slots().len() == 0,
            r matches Some(g) ==> *g.heap() == *old(heap) && !g.dirty(),
            r matches Some(g) ==> *final(heap) == *final(g.heap()),
            r is None ==> *final(heap) == *old(heap),
    {
        if heap.is_empty() {
            return None;
        }
        Some(PeekMut { heap, sift: false })
    }

    /// The position of the guarded element: the root.
    pub fn pos(&self) -> (r: usize)
        requires
            self.heap().slots().len() > 0,
        ensures
            r == 0,
    {
        0
    }

    /// The root element.
    pub fn as_ref(&self) -> (r: &S::Item)
        requires
            self.heap().wf(),
            self.heap().slots().len() > 0,
        ensures
            *r == S::item_of(self.heap().slots()[0]),
    {
        self.heap.get(0)
    }

    /// The root element, for writing.
    pub fn as_mut(&mut self) -> (r: &mut S::Item)
        requires
            old(self).heap().wf(),
            old(self).heap().slots().len() > 0,
        ensures
            *r == S::item_of(old(self).heap().slots()[0]),
            final(self).heap().wf(),
            final(self).heap().frame() == old(self).heap().frame(),
            final(self).heap().slots() == old(self).heap().slots().update(
                0,
                S::with_item(old(self).heap().slots()[0], *final(r)),
            ),
            final(self).dirty() == (old(self).dirty() || old(self).heap().slots().len() > 1),
            *final(final(self).heap()) == *final(old(self).heap()),
    {
        if tree::child(self.heap, 0, 0).is_some() {
            self.sift = true;
        }
        self.heap.get_mut(0)
    }

    /// Sifts the root down if it may have changed. Returns whether it moved,
    /// which is whether the root now holds another element, one that
    /// belongs above it.
    pub fn restore<O: Ordering<S::Item>>(&mut self, ord: &O) -> (moved: bool)
        requires
            old(self).valid(ord),
            ord.lawful(),
        ensures
            moved == (S::item_of(final(self).heap().slots()[0]) != S::item_of(
                old(self).heap().slots()[0],
            )),
            moved ==> ord.prefers(
                S::item_of(final(self).heap().slots()[0]),
                S::item_of(old(self).heap().slots()[0]),
            ),
            final(self).valid(ord),
            !final(self).dirty(),
            final(self).heap().frame() == old(self).heap().frame(),
            final(self).heap().slots().to_multiset() == old(self).heap().slots().to_multiset(),
            final(self).heap().slots().len() == old(self).heap().slots().len(),
            !old(self).dirty() ==> !moved && *final(self).heap() == *old(self).heap(),
            *final(final(self).heap()) == *final(old(self).heap()),
    {
        if self.sift {
            self.sift = false;
            let pos = self.pos();
            let r = self.heap.sift_down(pos, ord);
            proof {
                ord.lemma_strict_weak_order();
                assert forall|j: int| 0 < j < self.heap.slots().len() implies #[trigger] ordered_at(
                    ord,
                    items(self.heap),
                    j,
                ) by {
                    lemma_descends_root(parent_of(j));
                }
            }
            r != pos
        } else {
            false
        }
    }

    /// Forgets that the root may have changed.
    pub fn ignore_mutation(&mut self)
        ensures
            !final(self).dirty(),
            *final(self).heap() == *old(self).heap(),
            *final(final(self).heap()) == *final(old(self).heap()),
    {
        self.sift = false;
    }

    /// Ends the guard; the root must not be marked for repair.
    pub fn finish(self)
        requires
            !self.dirty(),
        ensures
            *final(self.heap()) == *old(self.heap()),
    {
    }

    /// The storage, whether or not the heap property holds right now.
    pub fn heap_incoherent(&self) -> (r: &S)
        ensures
            *r == *self.heap(),
    {
        self.heap
    }

    /// The storage, for changes of its own; the root must not be marked.
    pub fn heap_mut(&mut self) -> (r: &mut S)
        requires
            !old(self).dirty(),
        ensures
            *r == *old(self).heap(),
            *final(self).heap() == *final(r),
            !final(self).dirty(),
            *final(final(self).heap()) == *final(old(self).heap()),
    {
        self.heap
    }
}

} // verus!
