//! A `Vec` of elements that hands out a stable handle for each element and
//! keeps track of where every handle's element currently is.
use crate::capacity::{fits_capacity, vec_capacity, vec_reserve_exact, vec_shrink_to, vec_shrink_to_fit};
use crate::storage::Storage;
use core::marker::PhantomData;
use vstd::prelude::*;

verus! {

/// An opaque handle to an element of an [`crate::IndexableHeap`].
///
/// It is returned by `push` and reaches the element however sifting has
/// moved it since. Once the element is removed the handle is stale, and
/// a later `push` may hand the same handle out again.
#[derive(Debug)]
pub struct Idx<T>(usize, PhantomData<T>);

impl<T> Idx<T> {
    /// The number the handle stands for.
    pub closed spec fn raw(&self) -> usize {
        self.0
    }

    fn new(index: usize) -> (r: Self)
        ensures
            r.raw() == index,
    {
        Idx(index, PhantomData)
    }

    fn index(&self) -> (r: usize)
        ensures
            r == self.raw(),
    {
        self.0
    }
}

impl<T> Clone for Idx<T> {
    fn clone(&self) -> (r: Self)
        ensures
            r.raw() == self.raw(),
    {
        Idx(self.0, PhantomData)
    }
}

impl<T> Copy for Idx<T> {

}

impl<T> PartialEq for Idx<T> {
    fn eq(&self, other: &Self) -> (r: bool) {
        self.0 == other.0
    }
}

impl<T> vstd::std_specs::cmp::PartialEqSpecImpl for Idx<T> {
    open spec fn obeys_eq_spec() -> bool {
        true
    }

    closed spec fn eq_spec(&self, other: &Self) -> bool {
        self.0 == other.0
    }
}

impl<T> Eq for Idx<T> {

}

/// A link in the chain of free handle numbers: `0` ends the chain, `k + 1`
/// points at `k`.
#[derive(Clone, Copy)]
struct NextSkip(usize);

impl NextSkip {
    spec fn view(self) -> Option<usize> {
        if self.0 == 0 {
            None
        } else {
            Some((self.0 - 1) as usize)
        }
    }

    fn none() -> (r: Self)
        ensures
            r.view() is None,
    {
        NextSkip(0)
    }

    fn some(next_idx: usize) -> (r: Self)
        requires
            next_idx < usize::MAX,
        ensures
            r.view() == Some(next_idx),
    {
        NextSkip(next_idx + 1)
    }

    fn get(&self) -> (r: Option<usize>)
        ensures
            r == self.view(),
    {
        if self.0 == 0 {
            None
        } else {
            Some(self.0 - 1)
        }
    }
}

/// An entry of the handle table: the position of a live handle's element,
/// or a link to the next free handle number.
#[derive(Clone, Copy)]
enum SkipEntry {
    Data(usize),
    Skip(NextSkip),
}

impl SkipEntry {
    fn from_pos(pos: usize) -> (r: Self)
        ensures
            r == SkipEntry::Data(pos),
    {
        SkipEntry::Data(pos)
    }

    fn from_skip(next_idx: NextSkip) -> (r: Self)
        ensures
            r == SkipEntry::Skip(next_idx),
    {
        SkipEntry::Skip(next_idx)
    }

    fn is_data(&self) -> (r: bool)
        ensures
            r == (*self is Data),
    {
        match self {
            SkipEntry::Data(_) => true,
            SkipEntry::Skip(_) => false,
        }
    }

    fn expect_data(&self) -> (r: usize)
        requires
            *self is Data,
        ensures
            *self == SkipEntry::Data(r),
    {
        match self {
            SkipEntry::Data(pos) => *pos,
            SkipEntry::Skip(_) => {
                proof {
                    assert(false);
                }
                0
            },
        }
    }

    fn expect_skip(&self) -> (r: NextSkip)
        requires
            *self is Skip,
        ensures
            *self == SkipEntry::Skip(r),
    {
        match self {
            SkipEntry::Skip(next) => *next,
            SkipEntry::Data(_) => {
                proof {
                    assert(false);
                }
                NextSkip(0)
            },
        }
    }
}

/// The handle table: entry `i` holds the position of handle `i`'s element
/// while the handle is live; the free entries form a chain through the
/// table, starting at `first_skip`, whose order `free` records.
struct SkipList {
    data: Vec<SkipEntry>,
    first_skip: NextSkip,
    free: Ghost<Seq<usize>>,
}

impl SkipList {
    spec fn wf(&self) -> bool {
        let n = self.data@.len();
        let free = self.free@;
        &&& n < usize::MAX
        &&& free.no_duplicates()
        &&& self.first_skip.view() == (if free.len() > 0 {
            Some(free[0])
        } else {
            None
        })
        &&& forall|k: int|
            0 <= k < free.len() ==> #[trigger] free[k] < n && self.data@[free[k] as int] is Skip
                && self.data@[free[k] as int]->Skip_0.view() == (if k + 1 < free.len() {
                Some(free[k + 1])
            } else {
                None
            })
        &&& forall|i: int| 0 <= i < n && #[trigger] self.data@[i] is Skip ==> free.contains(i as usize)
    }

    fn new() -> (r: Self)
        ensures
            r.wf(),
            r.data@.len() == 0,
            r.free@.len() == 0,
    {
        SkipList { data: Vec::new(), first_skip: NextSkip::none(), free: Ghost(Seq::empty()) }
    }

    fn with_capacity(capacity: usize) -> (r: Self)
        ensures
            r.wf(),
            r.data@.len() == 0,
            r.free@.len() == 0,
    {
        SkipList {
            data: Vec::with_capacity(capacity),
            first_skip: NextSkip::none(),
            free: Ghost(Seq::empty()),
        }
    }

    fn reserve(&mut self, additional: usize)
        ensures
            final(self).data@ == old(self).data@,
            final(self).first_skip == old(self).first_skip,
            final(self).free == old(self).free,
    {
        self.data.reserve(additional);
    }

    fn reserve_exact(&mut self, additional: usize)
        requires
            fits_capacity::<SkipEntry>(old(self).data@.len(), additional as nat),
        ensures
            final(self).data@ == old(self).data@,
            final(self).first_skip == old(self).first_skip,
            final(self).free == old(self).free,
    {
        vec_reserve_exact(&mut self.data, additional);
    }

    fn shrink_to_fit(&mut self)
        ensures
            final(self).data@ == old(self).data@,
            final(self).first_skip == old(self).first_skip,
            final(self).free == old(self).free,
    {
        vec_shrink_to_fit(&mut self.data);
    }

    fn shrink_to(&mut self, min_capacity: usize)
        ensures
            final(self).data@ == old(self).data@,
            final(self).first_skip == old(self).first_skip,
            final(self).free == old(self).free,
    {
        vec_shrink_to(&mut self.data, min_capacity);
    }

    /// Hands out a handle number for an element at `pos`: the first free
    /// one, or a new one past the end of the table.
    fn add(&mut self, pos: usize) -> (index: usize)
        requires
            old(self).wf(),
            old(self).data@.len() + 1 < usize::MAX,
        ensures
            final(self).wf(),
            old(self).free@.len() > 0 ==> index == old(self).free@[0] && final(self).free@
                == old(self).free@.drop_first() && final(self).data@ == old(self).data@.update(
                index as int,
                SkipEntry::Data(pos),
            ),
            old(self).free@.len() == 0 ==> index == old(self).data@.len() && final(self).free@
                == old(self).free@ && final(self).data@ == old(self).data@.push(SkipEntry::Data(pos)),
    {
        let entry = SkipEntry::from_pos(pos);
        if let Some(index) = self.first_skip.get() {
            let old_entry = self.data[index];
            self.data.set(index, entry);
            self.first_skip = old_entry.expect_skip();
            self.free = Ghost(self.free@.drop_first());
            proof {
                let free = old(self).free@;
                assert forall|k: int| 0 <= k < self.free@.len() implies #[trigger] self.free@[k]
                    != index by {
                    assert(self.free@[k] == free[k + 1]);
                }
                assert forall|i: int|
                    0 <= i < self.data@.len() && #[trigger] self.data@[i] is Skip implies self.free@.contains(
                    i as usize,
                ) by {
                    assert(free.contains(i as usize));
                    let k = choose|k: int| 0 <= k < free.len() && free[k] == i as usize;
                    assert(k != 0);
                    assert(self.free@[k - 1] == i as usize);
                }
            }
            index
        } else {
            let index = self.data.len();
            self.data.push(entry);
            index
        }
    }

    spec fn live(&self, index: int) -> bool {
        0 <= index < self.data@.len() && self.data@[index] is Data
    }

    fn is_valid(&self, index: usize) -> (r: bool)
        ensures
            r == self.live(index as int),
    {
        index < self.data.len() && self.data[index].is_data()
    }

    fn get(&self, index: usize) -> (r: usize)
        requires
            self.live(index as int),
        ensures
            self.data@[index as int] == SkipEntry::Data(r),
    {
        self.data[index].expect_data()
    }

    fn set(&mut self, index: usize, pos: usize)
        requires
            old(self).wf(),
            old(self).live(index as int),
        ensures
            final(self).wf(),
            final(self).free == old(self).free,
            final(self).data@ == old(self).data@.update(index as int, SkipEntry::Data(pos)),
    {
        self.data[index].expect_data();
        self.data.set(index, SkipEntry::from_pos(pos));
        proof {
            assert forall|k: int| 0 <= k < self.free@.len() implies #[trigger] self.free@[k]
                != index by {
            }
        }
    }

    /// Gives handle number `index` back. The last entry of the table is
    /// dropped; any other becomes the head of the free chain.
    fn remove(&mut self, index: usize) -> (pos: usize)
        requires
            old(self).wf(),
            old(self).live(index as int),
        ensures
            final(self).wf(),
            old(self).data@[index as int] == SkipEntry::Data(pos),
            index == old(self).data@.len() - 1 ==> final(self).free == old(self).free
                && final(self).data@ == old(self).data@.drop_last(),
            index != old(self).data@.len() - 1 ==> final(self).free@ == seq![index]
                + old(self).free@ && final(self).data@ == old(self).data@.update(
                index as int,
                SkipEntry::Skip(old(self).first_skip),
            ),
    {
        if index == self.data.len() - 1 {
            let entry = self.data.pop().unwrap();
            proof {
                assert forall|k: int| 0 <= k < self.free@.len() implies #[trigger] self.free@[k]
                    < self.data@.len() by {
                    assert(self.free@[k] != index);
                }
            }
            entry.expect_data()
        } else {
            let new_skip = SkipEntry::from_skip(self.first_skip);
            let pos = self.data[index].expect_data();
            self.data.set(index, new_skip);
            self.first_skip = NextSkip::some(index);
            let ghost old_free = self.free@;
            self.free = Ghost(seq![index] + old_free);
            proof {
                assert(!old_free.contains(index));
                assert forall|k: int| 0 <= k < self.free@.len() implies #[trigger] self.free@[k]
                    < self.data@.len() && self.data@[self.free@[k] as int] is Skip
                    && self.data@[self.free@[k] as int]->Skip_0.view() == (if k + 1
                    < self.free@.len() {
                    Some(self.free@[k + 1])
                } else {
                    None
                }) by {
                    if k > 0 {
                        assert(self.free@[k] == old_free[k - 1]);
                    }
                }
                assert forall|i: int|
                    0 <= i < self.data@.len() && #[trigger] self.data@[i] is Skip implies self.free@.contains(
                    i as usize,
                ) by {
                    if i != index {
                        let k = choose|k: int| 0 <= k < old_free.len() && old_free[k] == i as usize;
                        assert(self.free@[k + 1] == i as usize);
                    } else {
                        assert(self.free@[0] == i as usize);
                    }
                }
            }
            pos
        }
    }
}

/// Each element's handle leads back to its position, and each live table
/// entry to an element with that handle.
spec fn table_ok<T>(d: Seq<(T, Idx<T>)>, tab: Seq<SkipEntry>) -> bool {
    &&& forall|p: int|
        0 <= p < d.len() ==> #[trigger] d[p].1.raw() < tab.len() && tab[d[p].1.raw() as int]
            == SkipEntry::Data(p as usize)
    &&& forall|h: int|
        0 <= h < tab.len() && #[trigger] tab[h] is Data ==> tab[h]->Data_0 < d.len()
            && d[tab[h]->Data_0 as int].1.raw() == h
}

proof fn lemma_release_last<T>(d: Seq<(T, Idx<T>)>, tab: Seq<SkipEntry>, tab2: Seq<SkipEntry>, first: NextSkip)
    requires
        table_ok(d, tab),
        0 < d.len() <= usize::MAX,
        d.last().1.raw() == tab.len() - 1 ==> tab2 == tab.drop_last(),
        d.last().1.raw() != tab.len() - 1 ==> tab2 == tab.update(
            d.last().1.raw() as int,
            SkipEntry::Skip(first),
        ),
    ensures
        table_ok(d.drop_last(), tab2),
{
    let h = d.last().1.raw() as int;
    let d2 = d.drop_last();
    assert(tab[h] == SkipEntry::Data((d.len() - 1) as usize));
    assert forall|p: int| 0 <= p < d2.len() implies #[trigger] d2[p].1.raw() < tab2.len()
        && tab2[d2[p].1.raw() as int] == SkipEntry::Data(p as usize) by {
        assert(d2[p] == d[p]);
        assert(d[p].1.raw() < tab.len());
        assert(tab[d[p].1.raw() as int] == SkipEntry::Data(p as usize));
        assert(d[p].1.raw() != h);
    }
    assert forall|g: int| 0 <= g < tab2.len() && #[trigger] tab2[g] is Data implies tab2[g]->Data_0
        < d2.len() && d2[tab2[g]->Data_0 as int].1.raw() == g by {
        assert(g != h);
        assert(tab2[g] == tab[g]);
        let q = tab[g]->Data_0 as int;
        assert(d[q].1.raw() == g);
    }
}

/// Elements with their handles, plus the table that maps each live handle
/// to its element's position.
pub(crate) struct IndexableVec<T> {
    data: Vec<(T, Idx<T>)>,
    position: SkipList,
}

impl<T> IndexableVec<T> {
    /// The length of the handle table.
    pub closed spec fn table_len(&self) -> nat {
        self.position.data@.len()
    }

    /// The handle table has room for `additional` more entries within
    /// `isize::MAX` bytes.
    pub closed spec fn table_fits(&self, additional: nat) -> bool {
        fits_capacity::<SkipEntry>(self.position.data@.len(), additional)
    }

    /// The free handle numbers, in the order `push` will reuse them.
    pub closed spec fn free(&self) -> Seq<usize> {
        self.position.free@
    }

    /// The elements with their handles, in position order.
    pub closed spec fn elements(&self) -> Seq<(T, Idx<T>)> {
        self.data@
    }

    pub closed spec fn inv(&self) -> bool {
        &&& self.position.wf()
        &&& table_ok(self.data@, self.position.data@)
    }

    pub(crate) fn new() -> (r: Self)
        ensures
            r.wf(),
            r.slots().len() == 0,
            r.table_len() == 0,
            r.free().len() == 0,
    {
        IndexableVec { data: Vec::new(), position: SkipList::new() }
    }

    pub(crate) fn with_capacity(capacity: usize) -> (r: Self)
        ensures
            r.wf(),
            r.slots().len() == 0,
            r.table_len() == 0,
            r.free().len() == 0,
    {
        IndexableVec { data: Vec::with_capacity(capacity), position: SkipList::with_capacity(capacity) }
    }

    pub(crate) fn table_length(&self) -> (r: usize)
        ensures
            r == self.table_len(),
    {
        self.position.data.len()
    }

    pub(crate) fn capacity(&self) -> (r: usize)
        ensures
            r >= self.slots().len(),
    {
        vec_capacity(&self.data)
    }

    /// Adds an element at the end and returns its new handle: the first
    /// free handle number, or a new one past the end of the table.
    pub(crate) fn push(&mut self, item: T) -> (index: Idx<T>)
        requires
            old(self).wf(),
            old(self).table_len() + 1 < usize::MAX,
        ensures
            final(self).wf(),
            final(self).slots() == old(self).slots().push((item, index)),
            old(self).free().len() > 0 ==> index.raw() == old(self).free()[0] && final(self).free()
                == old(self).free().drop_first() && final(self).table_len() == old(self).table_len(),
            old(self).free().len() == 0 ==> index.raw() == old(self).table_len() && final(self).free()
                == old(self).free() && final(self).table_len() == old(self).table_len() + 1,
    {
        let pos = self.data.len();
        let index = Idx::new(self.position.add(pos));
        self.data.push((item, index));
        proof {
            let d = self.data@;
            let tab = self.position.data@;
            assert forall|p: int| 0 <= p < d.len() implies #[trigger] d[p].1.raw() < tab.len()
                && tab[d[p].1.raw() as int] == SkipEntry::Data(p as usize) by {
                if p < pos {
                    assert(old(self).data@[p] == d[p]);
                }
            }
        }
        index
    }

    /// Removes the last element and gives its handle back.
    pub(crate) fn pop(&mut self) -> (r: Option<T>)
        requires
            old(self).wf(),
        ensures
            final(self).wf(),
            old(self).slots().len() == 0 ==> r is None && final(self).slots() == old(self).slots()
                && final(self).frame() == old(self).frame(),
            old(self).slots().len() > 0 ==> r == Some(old(self).slots().last().0) && final(self).slots()
                == old(self).slots().drop_last() && released(
                old(self).table_len(),
                old(self).free(),
                old(self).slots().last().1.raw(),
                final(self).table_len(),
                final(self).free(),
            ),
    {
        let (item, index) = match self.data.pop() {
            Some(slot) => slot,
            None => {
                return None;
            },
        };
        let ghost h = index.raw() as int;
        let ghost tab = self.position.data@;
        let ghost first = self.position.first_skip;
        self.position.remove(index.index());
        proof {
            assert(old(self).data@.len() == old(self).data.len());
            lemma_release_last(old(self).data@, tab, self.position.data@, first);
            assert(self.data@ == old(self).data@.drop_last());
        }
        Some(item)
    }

    /// Removes the element at `pos`, moving the last element into its place,
    /// and gives its handle back.
    pub(crate) fn swap_remove(&mut self, pos: usize) -> (item: T)
        requires
            old(self).wf(),
            pos < old(self).slots().len(),
        ensures
            final(self).wf(),
            item == old(self).slots()[pos as int].0,
            final(self).slots() == old(self).slots().update(pos as int, old(self).slots().last()).drop_last(),
            released(
                old(self).table_len(),
                old(self).free(),
                old(self).slots()[pos as int].1.raw(),
                final(self).table_len(),
                final(self).free(),
            ),
    {
        let ghost d0 = self.data@;
        let (item, index) = self.data.swap_remove(pos);
        let ghost h = index.raw() as int;
        let ghost tab = self.position.data@;
        let ghost first = self.position.first_skip;
        self.position.remove(index.index());
        if pos < self.data.len() {
            let ghost tab1 = self.position.data@;
            let moved = self.data[pos].1.index();
            proof {
                assert(d0.last().1.raw() == moved);
                assert(tab[moved as int] == SkipEntry::Data((d0.len() - 1) as usize));
                assert(moved != h);
                if h == tab.len() - 1 {
                    assert(tab1 == tab.drop_last());
                } else {
                    assert(tab1 == tab.update(h, SkipEntry::Skip(first)));
                }
            }
            self.position.set(moved, pos);
            proof {
                let d = self.data@;
                let t = self.position.data@;
                assert forall|p: int| 0 <= p < d.len() implies #[trigger] d[p].1.raw() < t.len()
                    && t[d[p].1.raw() as int] == SkipEntry::Data(p as usize) by {
                    if p != pos {
                        assert(d[p] == d0[p]);
                        assert(d0[p].1.raw() != h);
                        assert(d0[p].1.raw() != moved);
                    }
                }
                assert forall|g: int| 0 <= g < t.len() && #[trigger] t[g] is Data implies t[g]->Data_0
                    < d.len() && d[t[g]->Data_0 as int].1.raw() == g by {
                    if g != moved {
                        assert(g != h);
                        assert(tab[g] == t[g]);
                        let q = tab[g]->Data_0 as int;
                        assert(d0[q].1.raw() == g);
                        if q == d0.len() - 1 {
                            assert(d0[q].1.raw() == moved);
                        }
                        if q == pos {
                            assert(d0[q].1.raw() == h);
                        }
                    }
                }
            }
        } else {
            proof {
                assert(d0.last() == d0[pos as int]);
                assert(self.data@ =~= d0.drop_last());
                assert(d0.len() == old(self).data.len());
                lemma_release_last(d0, tab, self.position.data@, first);
            }
        }
        item
    }
}

/// Giving handle `h` back turns a table of length `n` with free chain `free`
/// into one of length `n2` with free chain `free2`: the last entry of the
/// table is dropped, any other one goes to the head of the chain.
pub open spec fn released(n: nat, free: Seq<usize>, h: usize, n2: nat, free2: Seq<usize>) -> bool {
    (n2, free2) == release_one(n, free, h)
}

/// The handle table's length and free chain after handle `h` is given back.
pub open spec fn release_one(n: nat, free: Seq<usize>, h: usize) -> (nat, Seq<usize>) {
    if h == n - 1 {
        ((n - 1) as nat, free)
    } else {
        (n, seq![h] + free)
    }
}

/// The handle `push` hands out, with the handle table's length and free
/// chain after it: the head of the chain, or a new handle past the end.
pub open spec fn alloc_one(n: nat, free: Seq<usize>) -> (usize, nat, Seq<usize>) {
    if free.len() > 0 {
        (free[0], n, free.drop_first())
    } else {
        (n as usize, n + 1, free)
    }
}

impl<T> IndexableVec<T> {
    pub(crate) fn reserve(&mut self, additional: usize)
        requires
            old(self).wf(),
        ensures
            final(self).wf(),
            final(self).slots() == old(self).slots(),
            final(self).frame() == old(self).frame(),
    {
        self.data.reserve(additional);
        self.position.reserve(additional);
    }

    pub(crate) fn reserve_exact(&mut self, additional: usize)
        requires
            old(self).wf(),
            fits_capacity::<(T, Idx<T>)>(old(self).slots().len(), additional as nat),
            old(self).table_fits(additional as nat),
        ensures
            final(self).wf(),
            final(self).slots() == old(self).slots(),
            final(self).frame() == old(self).frame(),
    {
        vec_reserve_exact(&mut self.data, additional);
        self.position.reserve_exact(additional);
    }

    pub(crate) fn shrink_to_fit(&mut self)
        requires
            old(self).wf(),
        ensures
            final(self).wf(),
            final(self).slots() == old(self).slots(),
            final(self).frame() == old(self).frame(),
    {
        vec_shrink_to_fit(&mut self.data);
        self.position.shrink_to_fit();
    }

    pub(crate) fn shrink_to(&mut self, min_capacity: usize)
        requires
            old(self).wf(),
        ensures
            final(self).wf(),
            final(self).slots() == old(self).slots(),
            final(self).frame() == old(self).frame(),
    {
        vec_shrink_to(&mut self.data, min_capacity);
        self.position.shrink_to(min_capacity);
    }

    /// Points the handle of the element at `pos` at `pos`.
    fn record_position(&mut self, pos: usize)
        requires
            old(self).position.wf(),
            pos < old(self).data@.len(),
            old(self).position.live(old(self).data@[pos as int].1.raw() as int),
        ensures
            final(self).position.wf(),
            final(self).data == old(self).data,
            final(self).position.free == old(self).position.free,
            final(self).position.data@ == old(self).position.data@.update(
                old(self).data@[pos as int].1.raw() as int,
                SkipEntry::Data(pos),
            ),
    {
        let index = self.data[pos].1.index();
        self.position.set(index, pos);
    }

    /// The position of a live handle's element.
    pub(crate) fn index_to_pos(&self, index: Idx<T>) -> (pos: usize)
        requires
            self.wf(),
            self.live(index.raw()),
        ensures
            pos < self.slots().len(),
            self.slots()[pos as int].1.raw() == index.raw(),
    {
        self.position.get(index.index())
    }

    /// The handle of the element at `pos`.
    pub(crate) fn pos_to_index(&self, pos: usize) -> (index: Idx<T>)
        requires
            pos < self.slots().len(),
        ensures
            index.raw() == self.slots()[pos as int].1.raw(),
    {
        self.data[pos].1
    }

    /// The storage frame is the handle table's length and free chain.
    pub(crate) proof fn lemma_frame(&self)
        ensures
            self.frame() == (self.table_len(), self.free()),
    {
    }

    /// No two elements share a handle.
    pub(crate) proof fn lemma_distinct(&self)
        requires
            self.wf(),
        ensures
            forall|p: int, q: int|
                0 <= p < self.slots().len() && 0 <= q < self.slots().len()
                    && #[trigger] self.slots()[p].1.raw() == #[trigger] self.slots()[q].1.raw() ==> p == q,
    {
        let d = self.data@;
        let tab = self.position.data@;
        assert forall|p: int, q: int|
            0 <= p < d.len() && 0 <= q < d.len() && #[trigger] d[p].1.raw() == #[trigger] d[q].1.raw() implies p == q by {
            assert(d.len() == self.data.len());
            assert(tab[d[p].1.raw() as int] == SkipEntry::Data(p as usize));
            assert(tab[d[q].1.raw() as int] == SkipEntry::Data(q as usize));
        }
    }

    /// A free handle is no element's handle.
    pub(crate) proof fn lemma_free_not_live(&self, k: int)
        requires
            self.wf(),
            0 <= k < self.free().len(),
        ensures
            forall|p: int| 0 <= p < self.slots().len() ==> #[trigger] self.slots()[p].1.raw() != self.free()[k],
    {
        let d = self.data@;
        let tab = self.position.data@;
        assert forall|p: int| 0 <= p < d.len() implies #[trigger] d[p].1.raw() != self.free()[k] by {
            assert(tab[d[p].1.raw() as int] == SkipEntry::Data(p as usize));
            assert(self.position.free@[k] == self.free()[k]);
        }
    }

    /// Whether `h` is the handle of an element.
    pub(crate) open spec fn live(&self, h: usize) -> bool {
        exists|p: int| 0 <= p < self.slots().len() && self.slots()[p].1.raw() == h
    }
}

impl<T> Storage for IndexableVec<T> {
    type Item = T;

    type Slot = (T, Idx<T>);

    type Frame = (nat, Seq<usize>);

    open spec fn slots(&self) -> Seq<(T, Idx<T>)> {
        self.elements()
    }

    open spec fn item_of(slot: (T, Idx<T>)) -> T {
        slot.0
    }

    open spec fn with_item(slot: (T, Idx<T>), item: T) -> (T, Idx<T>) {
        (item, slot.1)
    }

    open spec fn frame(&self) -> (nat, Seq<usize>) {
        (self.table_len(), self.free())
    }

    open spec fn wf(&self) -> bool {
        self.inv()
    }

    proof fn lemma_with_item(slot: (T, Idx<T>), item: T) {
    }

    proof fn lemma_len_bound(&self) {
        assert(self.data@.len() == self.data.len());
    }

    fn len(&self) -> (r: usize) {
        self.data.len()
    }

    fn get(&self, pos: usize) -> (r: &T) {
        &self.data[pos].0
    }

    fn get_mut(&mut self, pos: usize) -> (r: &mut T) {
        let slot = &mut self.data[pos];
        &mut slot.0
    }

    fn move_element(&mut self, src: usize, dst: usize) {
        let ghost d0 = self.data@;
        let ghost tab = self.position.data@;
        self.data.move_element(src, dst);
        self.record_position(dst);
        self.record_position(src);
        proof {
            let a = d0[src as int].1.raw() as int;
            let b = d0[dst as int].1.raw() as int;
            assert(d0.len() == old(self).data.len());
            assert(table_ok(d0, tab));
            assert(tab[a] == SkipEntry::Data(src));
            assert(tab[b] == SkipEntry::Data(dst));
            assert(a != b);
            let d = self.data@;
            let t = self.position.data@;
            assert forall|p: int| 0 <= p < d.len() implies #[trigger] d[p].1.raw() < t.len()
                && t[d[p].1.raw() as int] == SkipEntry::Data(p as usize) by {
                if p != src && p != dst {
                    assert(d[p] == d0[p]);
                    assert(tab[d0[p].1.raw() as int] == SkipEntry::Data(p as usize));
                    assert(d0[p].1.raw() != a);
                    assert(d0[p].1.raw() != b);
                }
            }
            assert forall|g: int| 0 <= g < t.len() && #[trigger] t[g] is Data implies t[g]->Data_0
                < d.len() && d[t[g]->Data_0 as int].1.raw() == g by {
                if g != a && g != b {
                    assert(tab[g] == t[g]);
                    let q = tab[g]->Data_0 as int;
                    assert(d0[q].1.raw() == g);
                }
            }
        }
    }
}

} // verus!