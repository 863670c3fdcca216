//! A heap that keeps track of where its elements move, so that an element
//! can be read, changed or removed through the handle `push` returned.
use crate::capacity::fits_capacity;
use crate::indexable_vec::{alloc_one, released, IndexableVec};
use crate::ordering::Ordering;
use crate::raw_heap::RawHeap;
use crate::sift::{below_grandparent, heap_except, is_heap, items, items_of, lemma_descends_root, ordered_at};
use crate::storage::Storage;
use crate::tree::parent_of;
use crate::vec_heap::{lemma_root_top, lemma_top_of_multiset};
use vstd::prelude::*;

pub use crate::indexable_vec::Idx;

verus! {

/// The element of each handle among the slots `d`.
pub open spec fn contents_of<T>(d: Seq<(T, Idx<T>)>) -> Map<usize, T> {
    Map::new(
        |h: usize| exists|p: int| 0 <= p < d.len() && d[p].1.raw() == h,
        |h: usize| d[choose|p: int| 0 <= p < d.len() && d[p].1.raw() == h].0,
    )
}

/// No two slots hold the same handle.
pub open spec fn distinct_handles<T>(d: Seq<(T, Idx<T>)>) -> bool {
    forall|p: int, q: int|
        0 <= p < d.len() && 0 <= q < d.len() && #[trigger] d[p].1.raw() == #[trigger] d[q].1.raw()
            ==> p == q
}

/// Permuting the slots keeps every handle with its element.
proof fn lemma_contents_permuted<T>(d1: Seq<(T, Idx<T>)>, d2: Seq<(T, Idx<T>)>)
    requires
        d1.to_multiset() == d2.to_multiset(),
        distinct_handles(d1),
        distinct_handles(d2),
    ensures
        contents_of(d1) == contents_of(d2),
{
    broadcast use vstd::seq_lib::group_to_multiset_ensures;

    assert forall|h: usize| #[trigger] contents_of(d1).contains_key(h) implies contents_of(
        d2,
    ).contains_key(h) && contents_of(d2)[h] == contents_of(d1)[h] by {
        let p = choose|p: int| 0 <= p < d1.len() && d1[p].1.raw() == h;
        assert(d1.contains(d1[p]));
        assert(d1.to_multiset().count(d1[p]) > 0);
        assert(d2.to_multiset().count(d1[p]) > 0);
        assert(d2.contains(d1[p]));
        let q = choose|q: int| 0 <= q < d2.len() && d2[q] == d1[p];
        assert(d2[q].1.raw() == h);
        let q2 = choose|q: int| 0 <= q < d2.len() && d2[q].1.raw() == h;
        assert(q == q2);
    }
    assert forall|h: usize| #[trigger] contents_of(d2).contains_key(h) implies contents_of(
        d1,
    ).contains_key(h) by {
        let q = choose|q: int| 0 <= q < d2.len() && d2[q].1.raw() == h;
        assert(d2.contains(d2[q]));
        assert(d2.to_multiset().count(d2[q]) > 0);
        assert(d1.to_multiset().count(d2[q]) > 0);
        assert(d1.contains(d2[q]));
        let p = choose|p: int| 0 <= p < d1.len() && d1[p] == d2[q];
        assert(d1[p].1.raw() == h);
    }
    assert(contents_of(d1) =~= contents_of(d2));
}

/// Permuting slots permutes their elements.
proof fn lemma_items_permuted<T>(d1: Seq<(T, Idx<T>)>, d2: Seq<(T, Idx<T>)>)
    requires
        d1.to_multiset() == d2.to_multiset(),
    ensures
        items_of::<IndexableVec<T>>(d1).to_multiset() == items_of::<IndexableVec<T>>(
            d2,
        ).to_multiset(),
    decreases d1.len(),
{
    broadcast use vstd::seq_lib::group_to_multiset_ensures;
    broadcast use vstd::multiset::group_multiset_axioms;

    let e1 = items_of::<IndexableVec<T>>(d1);
    let e2 = items_of::<IndexableVec<T>>(d2);
    if d1.len() == 0 {
        assert(d1.to_multiset().len() == 0);
        assert(d2.len() == 0);
        assert(e1 =~= Seq::<T>::empty());
        assert(e2 =~= Seq::<T>::empty());
    } else {
        let a = d1.last();
        let d1r = d1.drop_last();
        assert(d1 =~= d1r.push(a));
        assert(d1.to_multiset().count(a) > 0);
        assert(d2.contains(a));
        let q = choose|q: int| 0 <= q < d2.len() && d2[q] == a;
        let d2r = d2.remove(q);
        assert(d1r.to_multiset() =~= d2r.to_multiset());
        lemma_items_permuted(d1r, d2r);
        let e1r = items_of::<IndexableVec<T>>(d1r);
        let e2r = items_of::<IndexableVec<T>>(d2r);
        assert(e1 =~= e1r.push(a.0));
        assert(e2r =~= e2.remove(q));
        assert(e2[q] == a.0);
        assert(e2.to_multiset().count(a.0) > 0);
        assert(e2.to_multiset() =~= e2r.to_multiset().insert(a.0));
    }
}

/// Moving the last element into `pos` and dropping the last slot removes
/// the element at `pos`.
pub proof fn lemma_swap_remove_multiset<A>(s: Seq<A>, pos: int)
    requires
        0 <= pos < s.len(),
    ensures
        s.update(pos, s.last()).drop_last().to_multiset() == s.to_multiset().remove(s[pos]),
{
    broadcast use vstd::seq_lib::group_to_multiset_ensures;
    broadcast use vstd::multiset::group_multiset_axioms;

    let t = s.update(pos, s.last());
    let m = s.to_multiset();
    let dl = t.drop_last();
    assert(t =~= dl.push(s.last()));
    assert(t.to_multiset() == m.insert(s.last()).remove(s[pos]));
    assert(dl.to_multiset().insert(s.last()) == t.to_multiset());
    assert(s.contains(s[pos]));
    assert(m.count(s[pos]) > 0);
    assert forall|v: A| #[trigger] dl.to_multiset().count(v) == m.remove(s[pos]).count(v) by {
        assert(dl.to_multiset().insert(s.last()).count(v) == m.insert(s.last()).remove(s[pos]).count(v));
    }
    assert(dl.to_multiset() =~= m.remove(s[pos]));
}

/// Adding a slot with a new handle adds that handle's element.
proof fn lemma_contents_push<T>(d: Seq<(T, Idx<T>)>, slot: (T, Idx<T>))
    requires
        distinct_handles(d.push(slot)),
    ensures
        !contents_of(d).contains_key(slot.1.raw()),
        contents_of(d.push(slot)) == contents_of(d).insert(slot.1.raw(), slot.0),
{
    let e = d.push(slot);
    let n = d.len() as int;
    assert(e[n] == slot);
    if contents_of(d).contains_key(slot.1.raw()) {
        let p = choose|p: int| 0 <= p < d.len() && d[p].1.raw() == slot.1.raw();
        assert(e[p] == d[p]);
    }
    assert forall|h: usize| #[trigger] contents_of(d).contains_key(h) implies contents_of(
        e,
    ).contains_key(h) && contents_of(e)[h] == contents_of(d)[h] by {
        let p = choose|p: int| 0 <= p < d.len() && d[p].1.raw() == h;
        assert(e[p] == d[p]);
        let q = choose|q: int| 0 <= q < e.len() && e[q].1.raw() == h;
        assert(q == p);
    }
    assert forall|h: usize| #[trigger] contents_of(e).contains_key(h) implies contents_of(
        d,
    ).insert(slot.1.raw(), slot.0).contains_key(h) by {
        let q = choose|q: int| 0 <= q < e.len() && e[q].1.raw() == h;
        if q < n {
            assert(e[q] == d[q]);
        }
    }
    let q = choose|q: int| 0 <= q < e.len() && e[q].1.raw() == slot.1.raw();
    assert(q == n);
    assert(contents_of(e) =~= contents_of(d).insert(slot.1.raw(), slot.0));
}

/// Removing the slot at `pos` by moving the last slot into its place
/// removes that slot's handle.
proof fn lemma_contents_swap_remove<T>(d: Seq<(T, Idx<T>)>, pos: int)
    requires
        distinct_handles(d),
        0 <= pos < d.len(),
    ensures
        contents_of(d.update(pos, d.last()).drop_last()) == contents_of(d).remove(d[pos].1.raw()),
        distinct_handles(d.update(pos, d.last()).drop_last()),
{
    let e = d.update(pos, d.last()).drop_last();
    let n = d.len() - 1;
    let h0 = d[pos].1.raw();
    assert forall|p: int, q: int|
        0 <= p < e.len() && 0 <= q < e.len() && #[trigger] e[p].1.raw() == #[trigger] e[q].1.raw()
            implies p == q by {
        let pp = if p == pos {
            n
        } else {
            p
        };
        let qq = if q == pos {
            n
        } else {
            q
        };
        assert(e[p] == d[pp]);
        assert(e[q] == d[qq]);
    }
    assert forall|h: usize| #[trigger] contents_of(e).contains_key(h) implies contents_of(
        d,
    ).remove(h0).contains_key(h) && contents_of(d)[h] == contents_of(e)[h] by {
        let q = choose|q: int| 0 <= q < e.len() && e[q].1.raw() == h;
        let qq = if q == pos {
            n
        } else {
            q
        };
        assert(e[q] == d[qq]);
        assert(qq != pos);
        let p = choose|p: int| 0 <= p < d.len() && d[p].1.raw() == h;
        assert(p == qq);
    }
    assert forall|h: usize| #[trigger] contents_of(d).remove(h0).contains_key(h) implies contents_of(
        e,
    ).contains_key(h) by {
        let p = choose|p: int| 0 <= p < d.len() && d[p].1.raw() == h;
        assert(p != pos);
        let pp = if p == n {
            pos
        } else {
            p
        };
        assert(e[pp] == d[p]);
    }
    assert(contents_of(e) =~= contents_of(d).remove(h0));
}

/// A binary heap whose elements can be reached through stable handles.
///
/// Its view is the backing sequence of elements, read as a complete binary
/// tree. `handles` gives the handle of each position and `contents` the
/// element of each live handle. `table_len` and `free` describe the handle
/// table: handles below `table_len` that are not live are free, and `push`
/// reuses them in the order of `free` before it makes new ones.
pub struct IndexableHeap<T, O> {
    data: IndexableVec<T>,
    ord: O,
}

impl<T, O> View for IndexableHeap<T, O> {
    type V = Seq<T>;

    closed spec fn view(&self) -> Seq<T> {
        items(&self.data)
    }
}

impl<T, O> IndexableHeap<T, O> {
    /// The ordering the heap is kept in.
    pub closed spec fn ordering(&self) -> O {
        self.ord
    }

    /// The handle of the element at each position.
    pub closed spec fn handles(&self) -> Seq<usize> {
        self.data.slots().map_values(|s: (T, Idx<T>)| s.1.raw())
    }

    /// The element of each live handle.
    pub closed spec fn contents(&self) -> Map<usize, T> {
        contents_of(self.data.slots())
    }

    /// The length of the handle table.
    pub closed spec fn table_len(&self) -> nat {
        self.data.table_len()
    }

    /// The free handles, in the order `push` reuses them.
    pub closed spec fn free(&self) -> Seq<usize> {
        self.data.free()
    }

    /// The handle table has room for `additional` more entries within
    /// `isize::MAX` bytes.
    pub closed spec fn table_fits(&self, additional: nat) -> bool {
        self.data.table_fits(additional)
    }

    /// The handle table agrees with the elements' positions.
    pub closed spec fn storage_ok(&self) -> bool {
        self.data.wf()
    }

    /// Creates an empty heap.
    pub fn new() -> (r: Self)
        where
            O: Default,
        ensures
            r@ == Seq::<T>::empty(),
            call_ensures(O::default, (), r.ordering()),
            r.storage_ok(),
            r.table_len() == 0,
            r.free().len() == 0,
    {
        IndexableHeap { data: IndexableVec::new(), ord: O::default() }
    }

    /// Creates an empty heap with room for `capacity` elements.
    pub fn with_capacity(capacity: usize) -> (r: Self)
        where
            O: Default,
        ensures
            r@ == Seq::<T>::empty(),
            call_ensures(O::default, (), r.ordering()),
            r.storage_ok(),
            r.table_len() == 0,
            r.free().len() == 0,
    {
        IndexableHeap { data: IndexableVec::with_capacity(capacity), ord: O::default() }
    }

    /// Creates an empty heap with the given ordering.
    pub fn with_ordering(ord: O) -> (r: Self)
        ensures
            r@ == Seq::<T>::empty(),
            r.storage_ok(),
            r.table_len() == 0,
            r.free().len() == 0,
            r.ordering() == ord,
    {
        IndexableHeap { data: IndexableVec::new(), ord }
    }

    /// Creates an empty heap with room for `capacity` elements and the given
    /// ordering.
    pub fn with_capacity_and_ordering(capacity: usize, ord: O) -> (r: Self)
        ensures
            r@ == Seq::<T>::empty(),
            r.storage_ok(),
            r.table_len() == 0,
            r.free().len() == 0,
            r.ordering() == ord,
    {
        IndexableHeap { data: IndexableVec::with_capacity(capacity), ord }
    }

    /// The number of elements.
    pub fn len(&self) -> (r: usize)
        ensures
            r == self@.len(),
    {
        self.data.len()
    }

    /// The length of the handle table: live and free handles together.
    /// `push` needs it to stay below `usize::MAX - 1`.
    pub fn handle_table_len(&self) -> (r: usize)
        ensures
            r == self.table_len(),
    {
        self.data.table_length()
    }

    /// How many elements the heap can hold without reallocating.
    pub fn capacity(&self) -> (r: usize)
        ensures
            r >= self@.len(),
    {
        self.data.capacity()
    }

    /// Whether the heap has no element.
    pub fn is_empty(&self) -> (r: bool)
        ensures
            r == (self@.len() == 0),
    {
        self.data.len() == 0
    }

    /// Each position holds a different live handle, whose element is the
    /// one at that position, and every live handle is at some position. No
    /// free handle is live.
    pub proof fn lemma_handles(&self)
        requires
            self.storage_ok(),
        ensures
            self.handles().len() == self@.len(),
            self.handles().no_duplicates(),
            forall|p: int|
                0 <= p < self@.len() ==> #[trigger] self.contents().contains_key(self.handles()[p])
                    && self.contents()[self.handles()[p]] == self@[p],
            forall|h: usize|
                #[trigger] self.contents().contains_key(h) ==> exists|p: int|
                    0 <= p < self@.len() && self.handles()[p] == h,
            forall|k: int|
                0 <= k < self.free().len() ==> !self.contents().contains_key(#[trigger] self.free()[k]),
    {
        self.data.lemma_distinct();
        let d = self.data.slots();
        assert forall|p: int| 0 <= p < self@.len() implies #[trigger] self.contents().contains_key(
            self.handles()[p],
        ) && self.contents()[self.handles()[p]] == self@[p] by {
            let h = d[p].1.raw();
            let q = choose|q: int| 0 <= q < d.len() && d[q].1.raw() == h;
            assert(q == p);
        }
        assert forall|h: usize| #[trigger] self.contents().contains_key(h) implies exists|p: int|
            0 <= p < self@.len() && self.handles()[p] == h by {
            let q = choose|q: int| 0 <= q < d.len() && d[q].1.raw() == h;
            assert(self.handles()[q] == h);
        }
        assert forall|k: int| 0 <= k < self.free().len() implies !self.contents().contains_key(
            #[trigger] self.free()[k],
        ) by {
            self.data.lemma_free_not_live(k);
        }
        assert forall|p: int, q: int|
            0 <= p < self.handles().len() && 0 <= q < self.handles().len() && p != q implies self.handles()[p]
            != self.handles()[q] by {
            assert(d[p].1.raw() == self.handles()[p]);
            assert(d[q].1.raw() == self.handles()[q]);
        }
    }
}

impl<T, O: Ordering<T>> IndexableHeap<T, O> {
    /// The heap property holds and the handle table is consistent.
    pub open spec fn wf(&self) -> bool {
        &&& self.storage_ok()
        &&& is_heap(&self.ordering(), self@)
    }

    /// The top element, or `None` if the heap is empty.
    pub fn peek(&self) -> (r: Option<&T>)
        requires
            self.wf(),
            self.ordering().lawful(),
        ensures
            self@.len() == 0 ==> r is None,
            self@.len() > 0 ==> r == Some(&self@[0]),
            self@.len() > 0 ==> forall|i: int|
                0 <= i < self@.len() ==> !self.ordering().prefers(#[trigger] self@[i], self@[0]),
    {
        proof {
            lemma_root_top(&self.ord, self@);
        }
        self.data.peek()
    }

    /// The element of a live handle.
    pub fn by_index(&self, index: Idx<T>) -> (r: &T)
        requires
            self.wf(),
            self.contents().contains_key(index.raw()),
        ensures
            *r == self.contents()[index.raw()],
    {
        proof {
            self.lemma_handles();
        }
        let pos = self.data.index_to_pos(index);
        proof {
            assert(self.handles()[pos as int] == index.raw());
        }
        self.data.get(pos)
    }

    /// Adds an element and returns its new handle: the first free handle if
    /// there is one, else a new one past the end of the table.
    pub fn push(&mut self, item: T) -> (index: Idx<T>)
        requires
            old(self).wf(),
            old(self).ordering().lawful(),
            old(self).table_len() + 1 < usize::MAX,
        ensures
            final(self).wf(),
            final(self).ordering() == old(self).ordering(),
            final(self)@.len() == old(self)@.len() + 1,
            final(self)@.to_multiset() == old(self)@.to_multiset().insert(item),
            !old(self).contents().contains_key(index.raw()),
            final(self).contents() == old(self).contents().insert(index.raw(), item),
            old(self).free().len() > 0 ==> index.raw() == old(self).free()[0] && final(self).free()
                == old(self).free().drop_first() && final(self).table_len() == old(self).table_len(),
            old(self).free().len() == 0 ==> index.raw() == old(self).table_len() && final(self).free()
                == old(self).free() && final(self).table_len() == old(self).table_len() + 1,
            (index.raw(), final(self).table_len(), final(self).free()) == alloc_one(
                old(self).table_len(),
                old(self).free(),
            ),
    {
        let pos = self.data.len();
        let ghost before = self.data.slots();
        let index = self.data.push(item);
        let ghost pushed = self.data.slots();
        proof {
            let s = items(&self.data);
            assert forall|j: int|
                0 < j < pos + 1 && j != pos && parent_of(j) != pos implies #[trigger] ordered_at(
                &self.ord,
                s,
                j,
            ) by {
                assert(ordered_at(&self.ord, items_of::<IndexableVec<T>>(before), j));
            }
            self.data.lemma_distinct();
            lemma_contents_push(before, (item, index));
            self.data.lemma_frame();
        }
        self.data.sift_up(pos, &self.ord);
        proof {
            broadcast use vstd::seq_lib::group_to_multiset_ensures;

            self.data.lemma_frame();
            self.data.lemma_distinct();
            lemma_contents_permuted(pushed, self.data.slots());
            lemma_items_permuted(pushed, self.data.slots());
            assert(items_of::<IndexableVec<T>>(pushed) =~= items_of::<IndexableVec<T>>(before).push(
                item,
            ));
        }
        index
    }

    /// Removes the top element and returns it, or `None` if the heap is
    /// empty. The element's handle becomes free.
    pub fn pop(&mut self) -> (r: Option<T>)
        requires
            old(self).wf(),
            old(self).ordering().lawful(),
        ensures
            final(self).wf(),
            final(self).ordering() == old(self).ordering(),
            old(self)@.len() == 0 ==> r is None && final(self)@ == old(self)@ && final(self).contents()
                == old(self).contents() && final(self).table_len() == old(self).table_len()
                && final(self).free() == old(self).free(),
            old(self)@.len() > 0 ==> r == Some(old(self)@[0]),
            old(self)@.len() > 0 ==> final(self)@.len() == old(self)@.len() - 1,
            old(self)@.len() > 0 ==> final(self)@.to_multiset() == old(self)@.to_multiset().remove(
                old(self)@[0],
            ),
            old(self)@.len() > 0 ==> forall|y: T|
                old(self)@.to_multiset().count(y) > 0 ==> !old(self).ordering().prefers(
                    y,
                    old(self)@[0],
                ),
            old(self)@.len() > 0 ==> forall|i: int|
                0 <= i < old(self)@.len() ==> !old(self).ordering().prefers(
                    #[trigger] old(self)@[i],
                    old(self)@[0],
                ),
            old(self)@.len() > 0 ==> final(self).contents() == old(self).contents().remove(
                old(self).handles()[0],
            ),
            old(self)@.len() > 0 ==> released(
                old(self).table_len(),
                old(self).free(),
                old(self).handles()[0],
                final(self).table_len(),
                final(self).free(),
            ),
    {
        proof {
            lemma_root_top(&self.ord, self@);
            lemma_top_of_multiset(&self.ord, self@);
        }
        if self.data.len() == 0 {
            return None;
        }
        let item = self.remove_at(0);
        Some(item)
    }

    /// Removes the element at `pos`, moving the last element into its place
    /// and then to where it belongs.
    fn remove_at(&mut self, pos: usize) -> (r: T)
        requires
            old(self).storage_ok(),
            old(self).ordering().lawful(),
            pos < old(self)@.len(),
            heap_except(&old(self).ordering(), old(self)@, pos as int, old(self)@.len() as int),
        ensures
            final(self).wf(),
            final(self).ordering() == old(self).ordering(),
            r == old(self)@[pos as int],
            final(self)@.len() == old(self)@.len() - 1,
            final(self)@.to_multiset() == old(self)@.to_multiset().remove(r),
            final(self).contents() == old(self).contents().remove(old(self).handles()[pos as int]),
            pos == old(self)@.len() - 1 ==> final(self)@ == old(self)@.drop_last()
                && final(self).handles() == old(self).handles().drop_last(),
            released(
                old(self).table_len(),
                old(self).free(),
                old(self).handles()[pos as int],
                final(self).table_len(),
                final(self).free(),
            ),
    {
        let ghost d0 = self.data.slots();
        let ghost s0 = self@;
        proof {
            self.data.lemma_distinct();
            lemma_contents_swap_remove(d0, pos as int);
        }
        let item = self.data.swap_remove(pos);
        let ghost d1 = self.data.slots();
        proof {
            self.data.lemma_frame();
            lemma_swap_remove_multiset(s0, pos as int);
            assert(self@ =~= s0.update(pos as int, s0.last()).drop_last());
        }
        let n = self.data.len();
        proof {
            let s = items(&self.data);
            assert forall|j: int| 0 < j < n && j != pos && parent_of(j) != pos implies #[trigger] ordered_at(
                &self.ord,
                s,
                j,
            ) by {
                assert(ordered_at(&self.ord, s0, j));
            }
            assert forall|j: int| 0 < j < n && parent_of(j) == pos && pos > 0 implies #[trigger] below_grandparent(
                &self.ord,
                s,
                j,
                pos as int,
            ) by {
                assert(below_grandparent(&self.ord, s0, j, pos as int));
            }
        }
        if pos < n {
            self.data.fixup_sift_to_bottom(pos, &self.ord);
            proof {
                self.data.lemma_frame();
                self.data.lemma_distinct();
                lemma_contents_permuted(d1, self.data.slots());
                lemma_items_permuted(d1, self.data.slots());
            }
        } else {
            proof {
                assert(d1 =~= d0.drop_last());
                assert(self@ =~= s0.drop_last());
                assert(self.handles() =~= d0.map_values(|s: (T, Idx<T>)| s.1.raw()).drop_last());
                assert forall|j: int| 0 < j < n implies #[trigger] ordered_at(&self.ord, items(&self.data), j) by {
                    assert(parent_of(j) < j);
                }
            }
        }
        item
    }

    /// Reserves room for at least `additional` more elements.
    pub fn reserve(&mut self, additional: usize)
        requires
            old(self).storage_ok(),
            fits_capacity::<(T, Idx<T>)>(old(self)@.len(), additional as nat),
            old(self).table_fits(additional as nat),
        ensures
            final(self).same_as(old(self)),
    {
        proof {
            self.data.lemma_frame();
        }
        self.data.reserve(additional);
        proof {
            self.data.lemma_frame();
        }
    }

    /// Reserves room for exactly `additional` more elements, where it has to
    /// grow.
    pub fn reserve_exact(&mut self, additional: usize)
        requires
            old(self).storage_ok(),
            fits_capacity::<(T, Idx<T>)>(old(self)@.len(), additional as nat),
            old(self).table_fits(additional as nat),
        ensures
            final(self).same_as(old(self)),
    {
        proof {
            self.data.lemma_frame();
        }
        self.data.reserve_exact(additional);
        proof {
            self.data.lemma_frame();
        }
    }

    /// Gives back as much unused capacity as possible.
    pub fn shrink_to_fit(&mut self)
        requires
            old(self).storage_ok(),
        ensures
            final(self).same_as(old(self)),
    {
        proof {
            self.data.lemma_frame();
        }
        self.data.shrink_to_fit();
        proof {
            self.data.lemma_frame();
        }
    }

    /// Gives back unused capacity, keeping at least `min_capacity`.
    pub fn shrink_to(&mut self, min_capacity: usize)
        requires
            old(self).storage_ok(),
        ensures
            final(self).same_as(old(self)),
    {
        proof {
            self.data.lemma_frame();
        }
        self.data.shrink_to(min_capacity);
        proof {
            self.data.lemma_frame();
        }
    }
}

impl<T, O> IndexableHeap<T, O> {
    /// The two heaps hold the same elements at the same positions, with the
    /// same handles, table and ordering.
    pub open spec fn same_as(&self, other: &Self) -> bool {
        &&& self@ == other@
        &&& self.ordering() == other.ordering()
        &&& self.handles() == other.handles()
        &&& self.contents() == other.contents()
        &&& self.table_len() == other.table_len()
        &&& self.free() == other.free()
        &&& self.storage_ok() == other.storage_ok()
    }
}

/// Access to one element of an [`IndexableHeap`], found by its handle.
///
/// Reading goes through `as_ref`; `as_mut` gives the element for writing
/// and marks the heap for repair. `restore` then moves the element to where
/// it belongs; `remove` takes it out of the heap instead. A guard dropped
/// without `as_mut` leaves the heap as it was.
pub struct GetMut<'a, T, O: Ordering<T>> {
    heap: &'a mut IndexableHeap<T, O>,
    pos: usize,
    sift: bool,
}

impl<'a, T, O: Ordering<T>> GetMut<'a, T, O> {
    /// The heap the guard works on.
    pub closed spec fn heap(&self) -> &'a mut IndexableHeap<T, O> {
        self.heap
    }

    /// The position of the guarded element.
    pub closed spec fn pos(&self) -> usize {
        self.pos
    }

    /// Whether the element may have changed since the guard was made.
    pub closed spec fn dirty(&self) -> bool {
        self.sift
    }

    /// What holds of a guard between its operations: the heap property
    /// holds except around the guarded element, and everywhere while it is
    /// unchanged.
    pub open spec fn valid(&self) -> bool {
        &&& self.heap().storage_ok()
        &&& self.heap().ordering().lawful()
        &&& self.pos() < self.heap()@.len()
        &&& heap_except(&self.heap().ordering(), self.heap()@, self.pos() as int, self.heap()@.len() as int)
        &&& !self.dirty() ==> is_heap(&self.heap().ordering(), self.heap()@)
    }

    fn new(heap: &'a mut IndexableHeap<T, O>, pos: usize) -> (r: Self)
        requires
            old(heap).wf(),
            old(heap).ordering().lawful(),
            pos < old(heap)@.len(),
        ensures
            r.valid(),
            *r.heap() == *old(heap),
            r.pos() == pos,
            !r.dirty(),
            *final(heap) == *final(r.heap()),
    {
        proof {
            lemma_heap_except_anywhere(&heap.ord, heap@, pos as int);
        }
        GetMut { heap, pos, sift: false }
    }
}

/// A heap satisfies the heap property except around any one position.
pub proof fn lemma_heap_except_anywhere<T, O: Ordering<T>>(ord: &O, s: Seq<T>, pos: int)
    requires
        ord.lawful(),
        is_heap(ord, s),
        0 <= pos < s.len(),
    ensures
        heap_except(ord, s, pos, s.len() as int),
{
    ord.lemma_strict_weak_order();
    assert forall|j: int| 0 < j < s.len() && parent_of(j) == pos && pos > 0 implies #[trigger] below_grandparent(
        ord,
        s,
        j,
        pos,
    ) by {
        assert(ordered_at(ord, s, j));
        assert(ordered_at(ord, s, pos));
    }
}

impl<T, O: Ordering<T>> IndexableHeap<T, O> {
    /// A guard over the element of a live handle.
    pub fn by_index_mut(&mut self, index: Idx<T>) -> (r: GetMut<'_, T, O>)
        requires
            old(self).wf(),
            old(self).ordering().lawful(),
            old(self).contents().contains_key(index.raw()),
        ensures
            r.valid(),
            *r.heap() == *old(self),
            old(self).handles()[r.pos() as int] == index.raw(),
            !r.dirty(),
            *final(self) == *final(r.heap()),
    {
        proof {
            self.lemma_handles();
        }
        let pos = self.data.index_to_pos(index);
        GetMut::new(self, pos)
    }
}

impl<'a, T, O: Ordering<T>> GetMut<'a, T, O> {
    /// The handle of the guarded element.
    pub fn index(&self) -> (r: Idx<T>)
        requires
            self.valid(),
        ensures
            r.raw() == self.heap().handles()[self.pos() as int],
    {
        self.heap.data.pos_to_index(self.pos)
    }

    /// The guarded element.
    pub fn as_ref(&self) -> (r: &T)
        requires
            self.valid(),
        ensures
            *r == self.heap()@[self.pos() as int],
    {
        self.heap.data.get(self.pos)
    }

    /// The guarded element, for writing; the heap is repaired by `restore`.
    pub fn as_mut(&mut self) -> (r: &mut T)
        requires
            old(self).valid(),
        ensures
            *r == old(self).heap()@[old(self).pos() as int],
            final(self).valid(),
            final(self).dirty(),
            final(self).pos() == old(self).pos(),
            final(self).heap()@ == old(self).heap()@.update(old(self).pos() as int, *final(r)),
            final(self).heap().handles() == old(self).heap().handles(),
            final(self).heap().contents() == old(self).heap().contents().insert(
                old(self).heap().handles()[old(self).pos() as int],
                *final(r),
            ),
            final(self).heap().ordering() == old(self).heap().ordering(),
            final(self).heap().table_len() == old(self).heap().table_len(),
            final(self).heap().free() == old(self).heap().free(),
            *final(final(self).heap()) == *final(old(self).heap()),
    {
        self.sift = true;
        let ghost d0 = self.heap.data.slots();
        proof {
            self.heap.data.lemma_distinct();
            self.heap.data.lemma_frame();
        }
        let ghost s0 = self.heap@;
        let r = self.heap.data.get_mut(self.pos);
        proof {
            lemma_contents_update(d0, self.pos as int, *final(r));
            assert(items_of::<IndexableVec<T>>(d0.update(self.pos as int, (*final(r), d0[self.pos as int].1)))
                =~= s0.update(self.pos as int, *final(r)));
            lemma_heap_except_update(&self.heap.ord, s0, self.pos as int, *final(r));
        }
        r
    }

    /// Moves the guarded element to where it belongs, if it may have
    /// changed. Returns whether it moved: whether its position now holds
    /// another handle, with another element.
    pub fn restore(self) -> (moved: bool)
        requires
            self.valid(),
        ensures
            moved == (final(self.heap()).handles()[self.pos() as int] != old(
                self.heap(),
            ).handles()[self.pos() as int]),
            moved == (final(self.heap())@[self.pos() as int] != old(self.heap())@[self.pos() as int]),
            final(self.heap()).wf(),
            final(self.heap()).ordering() == old(self.heap()).ordering(),
            final(self.heap())@.len() == old(self.heap())@.len(),
            final(self.heap())@.to_multiset() == old(self.heap())@.to_multiset(),
            final(self.heap()).contents() == old(self.heap()).contents(),
            final(self.heap()).table_len() == old(self.heap()).table_len(),
            final(self.heap()).free() == old(self.heap()).free(),
            !self.dirty() ==> !moved && *final(self.heap()) == *old(self.heap()),
    {
        if self.sift {
            let pos = self.pos;
            let ghost d0 = self.heap.data.slots();
            proof {
                self.heap.data.lemma_frame();
                self.heap.data.lemma_distinct();
            }
            let new_pos = self.heap.data.fixup_sift(pos, &self.heap.ord);
            proof {
                self.heap.data.lemma_frame();
                self.heap.data.lemma_distinct();
                lemma_contents_permuted(d0, self.heap.data.slots());
                lemma_items_permuted(d0, self.heap.data.slots());
                let d1 = self.heap.data.slots();
                assert(self.heap.handles()[pos as int] == d1[pos as int].1.raw());
                assert(self.heap.handles()[new_pos as int] == d1[new_pos as int].1.raw());
            }
            new_pos != pos
        } else {
            false
        }
    }

    /// Removes the guarded element from the heap and returns it; its handle
    /// becomes free.
    pub fn remove(self) -> (r: T)
        requires
            self.valid(),
        ensures
            r == old(self.heap())@[self.pos() as int],
            final(self.heap()).wf(),
            final(self.heap()).ordering() == old(self.heap()).ordering(),
            final(self.heap())@.len() == old(self.heap())@.len() - 1,
            final(self.heap())@.to_multiset() == old(self.heap())@.to_multiset().remove(r),
            final(self.heap()).contents() == old(self.heap()).contents().remove(
                old(self.heap()).handles()[self.pos() as int],
            ),
            self.pos() == old(self.heap())@.len() - 1 ==> final(self.heap())@ == old(
                self.heap(),
            )@.drop_last() && final(self.heap()).handles() == old(self.heap()).handles().drop_last(),
            released(
                old(self.heap()).table_len(),
                old(self.heap()).free(),
                old(self.heap()).handles()[self.pos() as int],
                final(self.heap()).table_len(),
                final(self.heap()).free(),
            ),
    {
        let pos = self.pos;
        self.heap.remove_at(pos)
    }
}

/// Whatever is written at `pos`, the heap property still holds except
/// around `pos`.
proof fn lemma_heap_except_update<T, O: Ordering<T>>(ord: &O, s: Seq<T>, pos: int, v: T)
    requires
        0 <= pos < s.len(),
        heap_except(ord, s, pos, s.len() as int),
    ensures
        heap_except(ord, s.update(pos, v), pos, s.len() as int),
{
    let t = s.update(pos, v);
    assert forall|j: int| 0 < j < s.len() && j != pos && parent_of(j) != pos implies #[trigger] ordered_at(ord, t, j) by {
        assert(ordered_at(ord, s, j));
    }
    assert forall|j: int| 0 < j < s.len() && parent_of(j) == pos && pos > 0 implies #[trigger] below_grandparent(ord, t, j, pos) by {
        assert(below_grandparent(ord, s, j, pos));
    }
}

/// Writing an element keeps its handle.
proof fn lemma_contents_update<T>(d: Seq<(T, Idx<T>)>, pos: int, v: T)
    requires
        distinct_handles(d),
        0 <= pos < d.len(),
    ensures
        contents_of(d.update(pos, (v, d[pos].1))) == contents_of(d).insert(d[pos].1.raw(), v),
{
    let e = d.update(pos, (v, d[pos].1));
    let h0 = d[pos].1.raw();
    assert forall|h: usize| #[trigger] contents_of(e).contains_key(h) == contents_of(d).insert(h0, v).contains_key(h) by {
        if contents_of(d).contains_key(h) {
            let p = choose|p: int| 0 <= p < d.len() && d[p].1.raw() == h;
            assert(e[p].1.raw() == h);
        }
        if contents_of(e).contains_key(h) {
            let p = choose|p: int| 0 <= p < e.len() && e[p].1.raw() == h;
            assert(d[p].1.raw() == h);
        }
    }
    assert forall|h: usize| #[trigger] contents_of(e).contains_key(h) implies contents_of(e)[h] == contents_of(d).insert(h0, v)[h] by {
        let p = choose|p: int| 0 <= p < e.len() && e[p].1.raw() == h;
        assert(d[p].1.raw() == h);
        if h != h0 {
            let q = choose|q: int| 0 <= q < d.len() && d[q].1.raw() == h;
            assert(q == p);
        } else {
            assert(p == pos);
        }
    }
    assert(contents_of(e) =~= contents_of(d).insert(h0, v));
}

/// A guard over the top element of an [`IndexableHeap`], made by
/// [`IndexableHeap::peek_mut`].
///
/// `as_mut` gives the element for writing and marks the heap for repair
/// when the top has a child; `restore` then sifts it down, and `pop` takes
/// it out instead. A guard dropped without `as_mut` leaves the heap as it
/// was.
pub struct PeekMut<'a, T, O: Ordering<T>> {
    heap: &'a mut IndexableHeap<T, O>,
    sift: bool,
}

impl<'a, T, O: Ordering<T>> PeekMut<'a, T, O> {
    /// The heap the guard works on.
    pub closed spec fn heap(&self) -> &'a mut IndexableHeap<T, O> {
        self.heap
    }

    /// Whether the top element may have changed and must be sifted down.
    pub closed spec fn dirty(&self) -> bool {
        self.sift
    }

    /// What holds of a guard between its operations.
    pub open spec fn valid(&self) -> bool {
        &&& self.heap().storage_ok()
        &&& self.heap().ordering().lawful()
        &&& self.heap()@.len() > 0
        &&& heap_except(&self.heap().ordering(), self.heap()@, 0, self.heap()@.len() as int)
        &&& !self.dirty() ==> is_heap(&self.heap().ordering(), self.heap()@)
    }

    /// The handle of the top element.
    pub fn index(&self) -> (r: Idx<T>)
        requires
            self.valid(),
        ensures
            r.raw() == self.heap().handles()[0],
    {
        self.heap.data.pos_to_index(0)
    }

    /// The top element.
    pub fn as_ref(&self) -> (r: &T)
        requires
            self.valid(),
        ensures
            *r == self.heap()@[0],
    {
        self.heap.data.get(0)
    }

    /// The top element, for writing; the heap is repaired by `restore`.
    pub fn as_mut(&mut self) -> (r: &mut T)
        requires
            old(self).valid(),
        ensures
            *r == old(self).heap()@[0],
            final(self).valid(),
            final(self).dirty() == (old(self).dirty() || old(self).heap()@.len() > 1),
            final(self).heap()@ == old(self).heap()@.update(0, *final(r)),
            final(self).heap().handles() == old(self).heap().handles(),
            final(self).heap().contents() == old(self).heap().contents().insert(
                old(self).heap().handles()[0],
                *final(r),
            ),
            final(self).heap().ordering() == old(self).heap().ordering(),
            final(self).heap().table_len() == old(self).heap().table_len(),
            final(self).heap().free() == old(self).heap().free(),
            *final(final(self).heap()) == *final(old(self).heap()),
    {
        if self.heap.data.len() > 1 {
            self.sift = true;
        }
        let ghost d0 = self.heap.data.slots();
        proof {
            self.heap.data.lemma_distinct();
            self.heap.data.lemma_frame();
        }
        let ghost s0 = self.heap@;
        let r = self.heap.data.get_mut(0);
        proof {
            lemma_contents_update(d0, 0, *final(r));
            assert(items_of::<IndexableVec<T>>(d0.update(0, (*final(r), d0[0].1))) =~= s0.update(
                0,
                *final(r),
            ));
            lemma_heap_except_update(&self.heap.ord, s0, 0, *final(r));
        }
        r
    }

    /// Sifts the top element down if it may have changed. Returns whether it
    /// moved: whether the top now holds another handle, with an element that
    /// belongs above it.
    pub fn restore(self) -> (moved: bool)
        requires
            self.valid(),
        ensures
            moved == (final(self.heap()).handles()[0] != old(self.heap()).handles()[0]),
            moved == (final(self.heap())@[0] != old(self.heap())@[0]),
            moved ==> old(self.heap()).ordering().prefers(final(self.heap())@[0], old(self.heap())@[0]),
            final(self.heap()).wf(),
            final(self.heap()).ordering() == old(self.heap()).ordering(),
            final(self.heap())@.len() == old(self.heap())@.len(),
            final(self.heap())@.to_multiset() == old(self.heap())@.to_multiset(),
            final(self.heap()).contents() == old(self.heap()).contents(),
            final(self.heap()).table_len() == old(self.heap()).table_len(),
            final(self.heap()).free() == old(self.heap()).free(),
            !self.dirty() ==> !moved && *final(self.heap()) == *old(self.heap()),
    {
        if self.sift {
            let ghost d0 = self.heap.data.slots();
            proof {
                self.heap.data.lemma_frame();
                self.heap.data.lemma_distinct();
            }
            let new_pos = self.heap.data.sift_down(0, &self.heap.ord);
            proof {
                self.heap.ord.lemma_strict_weak_order();
                self.heap.data.lemma_frame();
                self.heap.data.lemma_distinct();
                lemma_contents_permuted(d0, self.heap.data.slots());
                lemma_items_permuted(d0, self.heap.data.slots());
                let d1 = self.heap.data.slots();
                assert(self.heap.handles()[0] == d1[0].1.raw());
                assert(self.heap.handles()[new_pos as int] == d1[new_pos as int].1.raw());
                assert forall|j: int| 0 < j < self.heap@.len() implies #[trigger] ordered_at(
                    &self.heap.ord,
                    self.heap@,
                    j,
                ) by {
                    lemma_descends_root(parent_of(j));
                }
            }
            new_pos != 0
        } else {
            false
        }
    }

    /// Removes the top element from the heap and returns it; its handle
    /// becomes free.
    pub fn pop(self) -> (r: T)
        requires
            self.valid(),
        ensures
            r == old(self.heap())@[0],
            final(self.heap()).wf(),
            final(self.heap()).ordering() == old(self.heap()).ordering(),
            final(self.heap())@.len() == old(self.heap())@.len() - 1,
            final(self.heap())@.to_multiset() == old(self.heap())@.to_multiset().remove(r),
            final(self.heap()).contents() == old(self.heap()).contents().remove(
                old(self.heap()).handles()[0],
            ),
            released(
                old(self.heap()).table_len(),
                old(self.heap()).free(),
                old(self.heap()).handles()[0],
                final(self.heap()).table_len(),
                final(self.heap()).free(),
            ),
    {
        self.heap.remove_at(0)
    }
}

impl<T, O: Ordering<T>> IndexableHeap<T, O> {
    /// A guard over the top element, or `None` if the heap is empty.
    pub fn peek_mut(&mut self) -> (r: Option<PeekMut<'_, T, O>>)
        requires
            old(self).wf(),
            old(self).ordering().lawful(),
        ensures
            r is None <==> old(self)@.len() == 0,
            r matches Some(g) ==> g.valid() && *g.heap() == *old(self) && !g.dirty(),
            r matches Some(g) ==> *final(self) == *final(g.heap()),
            r is None ==> *final(self) == *old(self),
    {
        if self.data.len() == 0 {
            return None;
        }
        proof {
            lemma_heap_except_anywhere(&self.ord, self@, 0);
        }
        Some(PeekMut { heap: self, sift: false })
    }
}

} // verus!
