//! A heap stored in a plain `Vec`, like `std::collections::BinaryHeap`.
use crate::capacity::{fits_capacity, vec_capacity, vec_reserve_exact, vec_shrink_to, vec_shrink_to_fit};
use crate::ordering::Ordering;
use crate::raw_heap;
use crate::raw_heap::RawHeap;
use crate::sift::{heap_except, is_heap, items, ordered_at};
use crate::storage::Storage;
use crate::tree::parent_of;
use vstd::prelude::*;

verus! {

/// A binary heap stored in a `Vec`, ordered by `O` ([`crate::MaxHeap`] or
/// [`crate::MinHeap`]).
///
/// Its view is the backing sequence, read as a complete binary tree; when
/// the heap is well formed no element belongs above its parent.
pub struct VecHeap<T, O> {
    data: Vec<T>,
    ord: O,
}

impl<T, O> View for VecHeap<T, O> {
    type V = Seq<T>;

    closed spec fn view(&self) -> Seq<T> {
        self.data@
    }
}

/// For a plain `Vec` the elements are the slots themselves.
pub broadcast proof fn lemma_vec_items<T>(v: &Vec<T>)
    ensures
        #[trigger] items(v) == v@,
{
    assert(items(v) =~= v@);
}

impl<T, O> VecHeap<T, O> {
    /// The ordering the heap is kept in.
    pub closed spec fn ordering(&self) -> O {
        self.ord
    }

    /// Creates an empty heap.
    pub fn new() -> (r: Self)
        where
            O: Default,
        ensures
            r@ == Seq::<T>::empty(),
            call_ensures(O::default, (), r.ordering()),
    {
        VecHeap { data: Vec::new(), ord: O::default() }
    }

    /// Creates an empty heap with room for `capacity` elements.
    pub fn with_capacity(capacity: usize) -> (r: Self)
        where
            O: Default,
        ensures
            r@ == Seq::<T>::empty(),
            call_ensures(O::default, (), r.ordering()),
    {
        VecHeap { data: Vec::with_capacity(capacity), ord: O::default() }
    }

    /// Creates an empty heap with the given ordering.
    pub fn with_ordering(ord: O) -> (r: Self)
        ensures
            r@ == Seq::<T>::empty(),
            r.ordering() == ord,
    {
        VecHeap { data: Vec::new(), ord }
    }

    /// Creates an empty heap with room for `capacity` elements and the given
    /// ordering.
    pub fn with_capacity_and_ordering(capacity: usize, ord: O) -> (r: Self)
        ensures
            r@ == Seq::<T>::empty(),
            r.ordering() == ord,
    {
        VecHeap { data: Vec::with_capacity(capacity), ord }
    }

    /// The number of elements.
    pub fn len(&self) -> (r: usize)
        ensures
            r == self@.len(),
    {
        self.data.len()
    }

    /// How many elements the heap can hold without reallocating.
    pub fn capacity(&self) -> (r: usize)
        ensures
            r >= self@.len(),
    {
        vec_capacity(&self.data)
    }

    /// Whether the heap has no element.
    pub fn is_empty(&self) -> (r: bool)
        ensures
            r == (self@.len() == 0),
    {
        self.data.len() == 0
    }
}

impl<T, O: Ordering<T>> VecHeap<T, O> {
    /// The heap property holds.
    pub open spec fn wf(&self) -> bool {
        is_heap(&self.ordering(), self@)
    }

    /// The top element, or `None` if the heap is empty.
    pub fn peek(&self) -> (r: Option<&T>)
        requires
            self.wf(),
            self.ordering().lawful(),
        ensures
            self@.len() == 0 ==> r is None,
            self@.len() > 0 ==> r == Some(&self@[0]),
            self@.len() > 0 ==> forall|i: int|
                0 <= i < self@.len() ==> !self.ordering().prefers(#[trigger] self@[i], self@[0]),
    {
        proof {
            lemma_root_top(&self.ord, self.data@);
        }
        self.data.peek()
    }

    /// Adds an element.
    pub fn push(&mut self, item: T)
        requires
            old(self).wf(),
            old(self).ordering().lawful(),
        ensures
            final(self).wf(),
            final(self).ordering() == old(self).ordering(),
            final(self)@.len() == old(self)@.len() + 1,
            final(self)@.to_multiset() == old(self)@.to_multiset().insert(item),
    {
        let pos = self.data.len();
        let ghost before = self.data@;
        self.data.push(item);
        proof {
            lemma_vec_items(&self.data);
            broadcast use vstd::seq_lib::group_to_multiset_ensures;

            assert forall|j: int| 0 < j < pos + 1 && j != pos && parent_of(j) != pos implies #[trigger] ordered_at(
                &self.ord,
                self.data@,
                j,
            ) by {
                assert(ordered_at(&self.ord, before, j));
            }
        }
        self.data.sift_up(pos, &self.ord);
        proof {
            lemma_vec_items(&self.data);
        }
    }

    /// Removes the top element and returns it, or `None` if the heap is
    /// empty.
    pub fn pop(&mut self) -> (r: Option<T>)
        requires
            old(self).wf(),
            old(self).ordering().lawful(),
        ensures
            final(self).wf(),
            final(self).ordering() == old(self).ordering(),
            old(self)@.len() == 0 ==> r is None && final(self)@ == old(self)@,
            old(self)@.len() > 0 ==> r == Some(old(self)@[0]),
            old(self)@.len() > 0 ==> final(self)@.to_multiset() == old(self)@.to_multiset().remove(
                old(self)@[0],
            ),
            old(self)@.len() > 0 ==> forall|i: int|
                0 <= i < old(self)@.len() ==> !old(self).ordering().prefers(
                    #[trigger] old(self)@[i],
                    old(self)@[0],
                ),
            old(self)@.len() > 0 ==> forall|y: T|
                old(self)@.to_multiset().count(y) > 0 ==> !old(self).ordering().prefers(
                    y,
                    old(self)@[0],
                ),
    {
        proof {
            lemma_root_top(&self.ord, self.data@);
            lemma_top_of_multiset(&self.ord, self.data@);
        }
        let ghost before = self.data@;
        let item = match self.data.pop() {
            Some(x) => x,
            None => {
                return None;
            },
        };
        proof {
            lemma_vec_items(&self.data);
            assert forall|j: int| 0 < j < self.data@.len() implies #[trigger] ordered_at(
                &self.ord,
                self.data@,
                j,
            ) by {
                assert(ordered_at(&self.ord, before, j));
            }
        }
        let r = self.data.pop_swap(item, &self.ord);
        proof {
            lemma_vec_items(&self.data);
            lemma_pop_multiset(before);
            if before.len() == 1 {
                assert(self.data@ =~= Seq::<T>::empty());
            } else {
                assert(before.drop_last() =~= before.subrange(0, before.len() - 1));
            }
        }
        Some(r)
    }

    /// Reserves room for at least `additional` more elements.
    pub fn reserve(&mut self, additional: usize)
        requires
            fits_capacity::<T>(old(self)@.len(), additional as nat),
        ensures
            final(self)@ == old(self)@,
            final(self).ordering() == old(self).ordering(),
    {
        self.data.reserve(additional);
    }

    /// Reserves room for exactly `additional` more elements, where it has to
    /// grow.
    pub fn reserve_exact(&mut self, additional: usize)
        requires
            fits_capacity::<T>(old(self)@.len(), additional as nat),
        ensures
            final(self)@ == old(self)@,
            final(self).ordering() == old(self).ordering(),
    {
        vec_reserve_exact(&mut self.data, additional);
    }

    /// Gives back as much unused capacity as possible.
    pub fn shrink_to_fit(&mut self)
        ensures
            final(self)@ == old(self)@,
            final(self).ordering() == old(self).ordering(),
    {
        vec_shrink_to_fit(&mut self.data);
    }

    /// Gives back unused capacity, keeping at least `min_capacity`.
    pub fn shrink_to(&mut self, min_capacity: usize)
        ensures
            final(self)@ == old(self)@,
            final(self).ordering() == old(self).ordering(),
    {
        vec_shrink_to(&mut self.data, min_capacity);
    }

    /// Moves all elements of `other` into `self`, leaving `other` empty.
    ///
    /// The smaller heap is merged into the larger one.
    pub fn append(&mut self, other: &mut Self)
        requires
            old(self).wf(),
            old(other).wf(),
            old(self).ordering().lawful(),
            old(self).ordering() == old(other).ordering(),
        ensures
            final(self).wf(),
            final(other).wf(),
            final(self).ordering() == old(self).ordering(),
            final(other).ordering() == old(self).ordering(),
            final(self)@.to_multiset() == old(self)@.to_multiset().add(old(other)@.to_multiset()),
            final(self)@.len() == old(self)@.len() + old(other)@.len(),
            final(other)@ == Seq::<T>::empty(),
    {
        if self.len() < other.len() {
            core::mem::swap(self, other);
        }
        let start = self.data.len();
        let ghost a = self.data@;
        let ghost b = other.data@;
        self.data.append(&mut other.data);
        proof {
            lemma_vec_items(&self.data);
            assert forall|j: int| 0 < j < start implies #[trigger] ordered_at(
                &self.ord,
                self.data@,
                j,
            ) by {
                assert(ordered_at(&self.ord, a, j));
            }
        }
        self.data.rebuild_tail(start, &self.ord);
        proof {
            lemma_vec_items(&self.data);
            lemma_vec_items(&other.data);
            vstd::seq_lib::lemma_multiset_commutative(a, b);
            vstd::seq_lib::lemma_multiset_commutative(b, a);
        }
    }
}

/// No element of the multiset of a heap belongs above its root.
pub proof fn lemma_top_of_multiset<T, O: Ordering<T>>(ord: &O, s: Seq<T>)
    requires
        ord.lawful(),
        is_heap(ord, s),
    ensures
        s.len() > 0 ==> forall|y: T| s.to_multiset().count(y) > 0 ==> !ord.prefers(y, s[0]),
{
    broadcast use vstd::seq_lib::group_to_multiset_ensures;

    lemma_root_top(ord, s);
    assert forall|y: T| s.to_multiset().count(y) > 0 implies !ord.prefers(y, s[0]) by {
        assert(s.contains(y));
    }
}

/// In a heap no element belongs above the root.
pub proof fn lemma_root_top<T, O: Ordering<T>>(ord: &O, s: Seq<T>)
    requires
        ord.lawful(),
        is_heap(ord, s),
    ensures
        forall|i: int| 0 <= i < s.len() ==> !ord.prefers(#[trigger] s[i], s[0]),
{
    ord.lemma_strict_weak_order();
    assert forall|i: int| 0 <= i < s.len() implies !ord.prefers(#[trigger] s[i], s[0]) by {
        lemma_below_root(ord, s, i);
    }
}

proof fn lemma_below_root<T, O: Ordering<T>>(ord: &O, s: Seq<T>, i: int)
    requires
        ord.lawful(),
        is_heap(ord, s),
        0 <= i < s.len(),
    ensures
        !ord.prefers(s[i], s[0]),
    decreases i,
{
    ord.lemma_strict_weak_order();
    if i > 0 {
        lemma_below_root(ord, s, parent_of(i));
        assert(ordered_at(ord, s, i));
    }
}

/// Popping the last slot and putting it at the root removes the root's
/// element from the multiset.
proof fn lemma_pop_multiset<T>(s: Seq<T>)
    requires
        s.len() > 0,
    ensures
        s.len() > 1 ==> s.drop_last().update(0, s.last()).to_multiset() == s.to_multiset().remove(
            s[0],
        ),
        s.len() == 1 ==> s.to_multiset().remove(s[0]) == Seq::<T>::empty().to_multiset(),
{
    broadcast use vstd::seq_lib::group_to_multiset_ensures;
    broadcast use vstd::multiset::group_multiset_axioms;

    if s.len() == 1 {
        assert(s =~= Seq::<T>::empty().push(s[0]));
        assert(s.to_multiset().remove(s[0]) =~= Seq::<T>::empty().to_multiset());
    }
    if s.len() > 1 {
        let t = s.drop_last();
        assert(s =~= t.push(s.last()));
        assert(t.update(0, s.last()).to_multiset() == t.to_multiset().insert(s.last()).remove(t[0]));
    }
}

/// A guard over the top element of a [`VecHeap`], made by
/// [`VecHeap::peek_mut`].
///
/// `as_mut` gives the element for writing; `restore` then moves it to where
/// it belongs, and `pop` takes it out instead. A guard dropped without
/// `as_mut` leaves the heap as it was.
pub struct PeekMut<'a, T, O: Ordering<T>> {
    raw: raw_heap::PeekMut<'a, Vec<T>>,
    ord: &'a O,
}

impl<'a, T, O: Ordering<T>> PeekMut<'a, T, O> {
    /// The heap's backing sequence.
    pub closed spec fn data(&self) -> &'a mut Vec<T> {
        self.raw.heap()
    }

    /// The ordering the heap is kept in.
    pub closed spec fn ordering(&self) -> O {
        *self.ord
    }

    /// Whether the top element may have changed.
    pub closed spec fn dirty(&self) -> bool {
        self.raw.dirty()
    }

    /// What holds of a guard between its operations.
    pub closed spec fn valid(&self) -> bool {
        &&& self.raw.valid(self.ord)
        &&& self.ord.lawful()
    }

    /// The top element.
    pub fn as_ref(&self) -> (r: &T)
        requires
            self.valid(),
        ensures
            *r == self.data()@[0],
    {
        self.raw.as_ref()
    }

    /// The top element, for writing; the heap is repaired by `restore`.
    pub fn as_mut(&mut self) -> (r: &mut T)
        requires
            old(self).valid(),
        ensures
            *r == old(self).data()@[0],
            final(self).valid(),
            final(self).ordering() == old(self).ordering(),
            final(self).data()@ == old(self).data()@.update(0, *final(r)),
            *final(final(self).data()) == *final(old(self).data()),
    {
        let ghost s0 = self.raw.heap()@;
        proof {
            lemma_vec_items(self.raw.heap());
        }
        let r = self.raw.as_mut();
        proof {
            broadcast use lemma_vec_items;

            lemma_heap_except_root(self.ord, s0, *final(r));
            if s0.len() == 1 {
                assert(is_heap(self.ord, s0.update(0, *final(r))));
            }
        }
        r
    }

    /// Moves the top element to where it belongs, if it may have changed.
    /// Returns whether it moved: whether the top now holds another element,
    /// one that belongs above it.
    pub fn restore(self) -> (moved: bool)
        requires
            self.valid(),
        ensures
            moved == (final(self.data())@[0] != old(self.data())@[0]),
            moved ==> self.ordering().prefers(final(self.data())@[0], old(self.data())@[0]),
            is_heap(&self.ordering(), final(self.data())@),
            final(self.data())@.to_multiset() == old(self.data())@.to_multiset(),
            !self.dirty() ==> !moved && final(self.data())@ == old(self.data())@,
    {
        let mut raw = self.raw;
        let moved = raw.restore(self.ord);
        proof {
            lemma_vec_items(raw.heap());
        }
        raw.finish();
        moved
    }

    /// Removes the top element from the heap and returns it.
    pub fn pop(self) -> (r: T)
        requires
            self.valid(),
        ensures
            r == old(self.data())@[0],
            is_heap(&self.ordering(), final(self.data())@),
            final(self.data())@.to_multiset() == old(self.data())@.to_multiset().remove(
                old(self.data())@[0],
            ),
    {
        let mut raw = self.raw;
        raw.ignore_mutation();
        let heap = raw.heap_mut();
        let ghost before = heap@;
        proof {
            lemma_vec_items(heap);
        }
        let item = heap.pop().unwrap();
        proof {
            lemma_vec_items(heap);
            assert forall|j: int| 0 < j < heap@.len() && j != 0 && parent_of(j) != 0 implies #[trigger] ordered_at(
                self.ord,
                heap@,
                j,
            ) by {
                assert(ordered_at(self.ord, before, j));
            }
        }
        let r = heap.pop_swap(item, self.ord);
        proof {
            lemma_vec_items(heap);
            lemma_pop_multiset(before);
            if before.len() == 1 {
                assert(heap@ =~= Seq::<T>::empty());
            } else {
                assert(before.drop_last() =~= before.subrange(0, before.len() - 1));
            }
        }
        raw.finish();
        r
    }
}

impl<T, O: Ordering<T>> VecHeap<T, O> {
    /// A guard over the top element, or `None` if the heap is empty.
    pub fn peek_mut(&mut self) -> (r: Option<PeekMut<'_, T, O>>)
        requires
            old(self).wf(),
            old(self).ordering().lawful(),
        ensures
            r is None <==> old(self)@.len() == 0,
            r matches Some(g) ==> g.valid() && (*g.data())@ == old(self)@ && g.ordering() == old(
                self,
            ).ordering() && !g.dirty(),
            r matches Some(g) ==> final(self)@ == (*final(g.data()))@,
            final(self).ordering() == old(self).ordering(),
            r is None ==> final(self)@ == old(self)@,
    {
        proof {
            lemma_vec_items(&self.data);
        }
        match raw_heap::PeekMut::new(&mut self.data) {
            Some(raw) => Some(PeekMut { raw, ord: &self.ord }),
            None => None,
        }
    }
}

/// Whatever is written at the root, the heap property still holds except
/// around the root.
proof fn lemma_heap_except_root<T, O: Ordering<T>>(ord: &O, s: Seq<T>, v: T)
    requires
        s.len() > 0,
        heap_except(ord, s, 0, s.len() as int),
    ensures
        heap_except(ord, s.update(0, v), 0, s.len() as int),
{
    let t = s.update(0, v);
    assert forall|j: int| 0 < j < s.len() && j != 0 && parent_of(j) != 0 implies #[trigger] ordered_at(
        ord,
        t,
        j,
    ) by {
        assert(ordered_at(ord, s, j));
    }
}

} // verus!
