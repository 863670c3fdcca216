//! A single open slot of a storage, moved around while sifting.
use crate::ordering::Ordering;
use crate::storage::Storage;
use crate::tree;
use crate::tree::{child_of, children_count, parent_of};
use vstd::prelude::*;

verus! {

/// The element being sifted and the slot it currently occupies.
///
/// The element stays in the hole's slot: moving the hole exchanges that
/// slot with another one, which carries the other element into the place
/// the hole leaves. When the hole is consumed the element is already in its
/// final slot, so nothing is left to restore, on any exit path.
pub(crate) struct Hole<'a, S: Storage> {
    pub(crate) data: &'a mut S,
    pub(crate) pos: usize,
}

impl<'a, S: Storage> Hole<'a, S> {
    /// Opens a hole at `pos`.
    pub(crate) fn new(data: &'a mut S, pos: usize) -> (h: Self)
        requires
            old(data).wf(),
            pos < old(data).slots().len(),
        ensures
            *h.data == *old(data),
            h.pos == pos,
            *final(data) == *final(h.data),
    {
        Hole { data, pos }
    }

    /// Closes the hole, giving the position its element ended at.
    pub(crate) fn into_pos(self) -> (r: usize)
        ensures
            r == self.pos,
            *final(self.data) == *old(self.data),
    {
        self.pos
    }

    /// The element being sifted.
    pub(crate) fn element(&self) -> (r: &S::Item)
        requires
            self.data.wf(),
            self.pos < self.data.slots().len(),
        ensures
            *r == S::item_of(old(self.data).slots()[self.pos as int]),
    {
        self.data.get(self.pos)
    }

    /// Moves the hole to `index` if the element belongs below the element
    /// there.
    pub(crate) fn move_down<O: Ordering<S::Item>>(&mut self, index: usize, ord: &O) -> (moved: bool)
        requires
            old(self).data.wf(),
            ord.lawful(),
            old(self).pos < old(self).data.slots().len(),
            index < old(self).data.slots().len(),
            index != old(self).pos,
        ensures
            moved == ord.prefers(
                S::item_of(old(self).data.slots()[index as int]),
                S::item_of(old(self).data.slots()[old(self).pos as int]),
            ),
            moved ==> final(self).pos == index,
            moved ==> final(self).data.slots() == old(self).data.slots().update(
                old(self).pos as int,
                old(self).data.slots()[index as int],
            ).update(index as int, old(self).data.slots()[old(self).pos as int]),
            !moved ==> final(self).pos == old(self).pos && *final(self).data == *old(self).data,
            final(self).data.wf(),
            final(self).data.frame() == old(self).data.frame(),
            *final(final(self).data) == *final(old(self).data),
    {
        if ord.should_sift_down(self.element(), self.data.get(index)) {
            self.move_to(index);
            true
        } else {
            false
        }
    }

    /// Moves the hole to its parent if the element belongs above the
    /// parent's element.
    pub(crate) fn move_up<O: Ordering<S::Item>>(&mut self, ord: &O) -> (moved: bool)
        requires
            old(self).data.wf(),
            ord.lawful(),
            old(self).pos < old(self).data.slots().len(),
        ensures
            moved == (old(self).pos > 0 && ord.prefers(
                S::item_of(old(self).data.slots()[old(self).pos as int]),
                S::item_of(old(self).data.slots()[parent_of(old(self).pos as int)]),
            )),
            moved ==> final(self).pos == parent_of(old(self).pos as int),
            moved ==> final(self).data.slots() == old(self).data.slots().update(
                old(self).pos as int,
                old(self).data.slots()[parent_of(old(self).pos as int)],
            ).update(
                parent_of(old(self).pos as int),
                old(self).data.slots()[old(self).pos as int],
            ),
            !moved ==> final(self).pos == old(self).pos && *final(self).data == *old(self).data,
            final(self).data.wf(),
            final(self).data.frame() == old(self).data.frame(),
            *final(final(self).data) == *final(old(self).data),
    {
        let parent = match tree::parent(self.data, self.pos) {
            Some(p) => p,
            None => {
                return false;
            },
        };
        if ord.should_sift_up(self.element(), self.data.get(parent)) {
            self.move_to(parent);
            true
        } else {
            false
        }
    }

    /// The child the hole would move to, when the node has both children:
    /// the second child if it belongs above the first, else the first.
    pub(crate) fn upper_child_whole<O: Ordering<S::Item>>(&self, ord: &O) -> (r: Option<usize>)
        requires
            self.data.wf(),
            ord.lawful(),
        ensures
            r == (if child_of(self.pos as int, 1) < old(self.data).slots().len() {
                Some(
                    (if ord.prefers(
                        S::item_of(old(self.data).slots()[child_of(self.pos as int, 1)]),
                        S::item_of(old(self.data).slots()[child_of(self.pos as int, 0)]),
                    ) {
                        child_of(self.pos as int, 1)
                    } else {
                        child_of(self.pos as int, 0)
                    }) as usize,
                )
            } else {
                None
            }),
    {
        if !tree::is_whole_node(self.data, self.pos) {
            return None;
        }
        let first = tree::child(self.data, self.pos, 0).unwrap();
        let second = tree::child(self.data, self.pos, 1).unwrap();
        proof {
            self.data.lemma_len_bound();
        }
        let cond = ord.select_upper(self.data.get(first), self.data.get(second));
        Some(
            if let Some(child) = tree::select_sibling(self.data, first, cond) {
                child
            } else {
                if cond {
                    second
                } else {
                    first
                }
            },
        )
    }

    /// The child the hole would move to among the node's children, if it has
    /// any: the earliest one that no other child belongs above.
    pub(crate) fn upper_child_partial<O: Ordering<S::Item>>(&self, ord: &O) -> (r: Option<usize>)
        requires
            self.data.wf(),
            ord.lawful(),
            children_count(self.data.slots().len() as int, self.pos as int) <= 1,
        ensures
            r == (if child_of(self.pos as int, 0) < old(self.data).slots().len() {
                Some(child_of(self.pos as int, 0) as usize)
            } else {
                None
            }),
    {
        let children = tree::children(self.data, self.pos);
        if children.start >= children.end {
            return None;
        }
        let mut max = children.start;
        let mut c = children.start + 1;
        while c < children.end
            invariant
                max == children.start,
                children.end - children.start <= 1,
                c == children.start + 1,
            decreases children.end - c,
        {
            if ord.select_upper(self.data.get(max), self.data.get(c)) {
                max = c;
            }
            c = c + 1;
        }
        Some(max)
    }

    /// Moves the hole to `index`, whatever the elements.
    pub(crate) fn move_to(&mut self, index: usize)
        requires
            old(self).data.wf(),
            old(self).pos < old(self).data.slots().len(),
            index < old(self).data.slots().len(),
            index != old(self).pos,
        ensures
            final(self).pos == index,
            final(self).data.wf(),
            final(self).data.frame() == old(self).data.frame(),
            final(self).data.slots() == old(self).data.slots().update(
                old(self).pos as int,
                old(self).data.slots()[index as int],
            ).update(index as int, old(self).data.slots()[old(self).pos as int]),
            *final(final(self).data) == *final(old(self).data),
    {
        self.data.move_element(index, self.pos);
        self.pos = index;
    }
}

} // verus!
