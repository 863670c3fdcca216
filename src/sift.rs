//! The sift primitives, built on [`Hole`].
//!
//! A hole is opened at a slot, moved toward the root or the leaves while
//! the ordering asks for it, and closed where the element belongs.
use crate::hole::Hole;
use crate::ordering::Ordering;
use crate::storage::Storage;
use crate::tree::{child_of, parent_of};
use vstd::prelude::*;

verus! {

/// The elements held by a sequence of slots.
pub open spec fn items_of<S: Storage + ?Sized>(slots: Seq<S::Slot>) -> Seq<S::Item> {
    slots.map_values(|x: S::Slot| S::item_of(x))
}

/// The elements of a storage, slot by slot.
pub open spec fn items<S: Storage + ?Sized>(data: &S) -> Seq<S::Item> {
    items_of::<S>(data.slots())
}

/// The element at `j` does not belong above its parent's.
pub open spec fn ordered_at<T, O: Ordering<T>>(ord: &O, s: Seq<T>, j: int) -> bool {
    !ord.prefers(s[j], s[parent_of(j)])
}

/// The heap property on the first `m` slots.
pub open spec fn heap_upto<T, O: Ordering<T>>(ord: &O, s: Seq<T>, m: int) -> bool {
    forall|j: int| 0 < j < m ==> #[trigger] ordered_at(ord, s, j)
}

/// The heap property: no element belongs above its parent's.
pub open spec fn is_heap<T, O: Ordering<T>>(ord: &O, s: Seq<T>) -> bool {
    heap_upto(ord, s, s.len() as int)
}

/// The element at `j` does not belong above the element of `i`'s parent.
pub open spec fn below_grandparent<T, O: Ordering<T>>(ord: &O, s: Seq<T>, j: int, i: int) -> bool {
    !ord.prefers(s[j], s[parent_of(i)])
}

/// The heap property on the first `m` slots, except for the pairs that
/// involve slot `i`; the children of `i` still do not belong above `i`'s
/// parent.
pub open spec fn heap_except<T, O: Ordering<T>>(ord: &O, s: Seq<T>, i: int, m: int) -> bool {
    &&& forall|j: int| 0 < j < m && j != i && parent_of(j) != i ==> #[trigger] ordered_at(ord, s, j)
    &&& forall|j: int|
        0 < j < m && parent_of(j) == i && i > 0 ==> #[trigger] below_grandparent(ord, s, j, i)
}

/// Slot `k` lies in the subtree rooted at slot `i`.
pub open spec fn descends(k: int, i: int) -> bool
    decreases k,
{
    k == i || (k > i && k > 0 && descends(parent_of(k), i))
}

/// The sequence with the elements at `a` and `b` exchanged.
pub open spec fn swapped<A>(s: Seq<A>, a: int, b: int) -> Seq<A> {
    s.update(a, s[b]).update(b, s[a])
}

proof fn lemma_items_swapped<S: Storage + ?Sized>(before: Seq<S::Slot>, after: Seq<S::Slot>, a: int, b: int)
    requires
        0 <= a < before.len(),
        0 <= b < before.len(),
        after == swapped(before, a, b),
    ensures
        items_of::<S>(after) == swapped(
            items_of::<S>(before),
            a,
            b,
        ),
        after.to_multiset() == before.to_multiset(),
{
    assert(items_of::<S>(after) =~= swapped(
        items_of::<S>(before),
        a,
        b,
    ));
    broadcast use vstd::seq_lib::group_to_multiset_ensures;
    broadcast use vstd::multiset::group_multiset_axioms;

    let mid = before.update(a, before[b]);
    assert(mid.to_multiset() == before.to_multiset().insert(before[b]).remove(before[a]));
    assert(after.to_multiset() == mid.to_multiset().insert(before[a]).remove(mid[b]));
    assert(after.to_multiset() =~= before.to_multiset());
}

proof fn lemma_sift_up_step<T, O: Ordering<T>>(ord: &O, s: Seq<T>, h: int, m: int)
    requires
        ord.lawful(),
        0 < h < m <= s.len(),
        heap_except(ord, s, h, m),
        ord.prefers(s[h], s[parent_of(h)]),
    ensures
        heap_except(ord, swapped(s, h, parent_of(h)), parent_of(h), m),
        forall|j: int|
            0 < j < m && parent_of(j) == parent_of(h) ==> #[trigger] ordered_at(
                ord,
                swapped(s, h, parent_of(h)),
                j,
            ),
{
    ord.lemma_strict_weak_order();
    let p = parent_of(h);
    let t = swapped(s, h, p);
    assert forall|j: int| 0 < j < m && j != p && parent_of(j) != p implies #[trigger] ordered_at(
        ord,
        t,
        j,
    ) by {
        if parent_of(j) == h {
            assert(below_grandparent(ord, s, j, h));
        } else {
            assert(ordered_at(ord, s, j));
        }
    }
    assert forall|j: int| 0 < j < m && parent_of(j) == p && p > 0 implies #[trigger] below_grandparent(
        ord,
        t,
        j,
        p,
    ) by {
        assert(ordered_at(ord, s, p));
        if j != h {
            assert(ordered_at(ord, s, j));
        }
    }
    assert forall|j: int| 0 < j < m && parent_of(j) == p implies #[trigger] ordered_at(ord, t, j) by {
        if j != h {
            assert(ordered_at(ord, s, j));
        }
    }
}

/// Takes the element at `pos` up the heap while it belongs above its
/// parent. Returns its new position.
///
/// The first `m` slots must form a heap except around `pos`. If the
/// element moved they form a heap afterwards; if it did not, nothing
/// changed and the element does not belong above its parent.
pub(crate) fn sift_up<S: Storage, O: Ordering<S::Item>>(
    data: &mut S,
    pos: usize,
    ord: &O,
    Ghost(m): Ghost<int>,
) -> (r: usize)
    requires
        old(data).wf(),
        ord.lawful(),
        pos < m <= old(data).slots().len(),
        heap_except(ord, items(old(data)), pos as int, m),
    ensures
        final(data).wf(),
        final(data).frame() == old(data).frame(),
        final(data).slots().len() == old(data).slots().len(),
        final(data).slots().to_multiset() == old(data).slots().to_multiset(),
        r <= pos,
        forall|k: int|
            pos < k < old(data).slots().len() ==> #[trigger] final(data).slots()[k] == old(
                data,
            ).slots()[k],
        r != pos ==> heap_upto(ord, items(final(data)), m),
        r == pos ==> *final(data) == *old(data),
        r == pos && pos > 0 ==> ordered_at(ord, items(old(data)), pos as int),
        descends(pos as int, r as int),
        final(data).slots()[r as int] == old(data).slots()[pos as int],
        r != pos ==> ord.prefers(
            S::item_of(old(data).slots()[pos as int]),
            S::item_of(final(data).slots()[pos as int]),
        ),
{
    let ghost s0 = data.slots();
    let ghost n = s0.len();
    let mut hole = Hole::new(data, pos);
    let mut moving = true;
    while moving
        invariant
            ord.lawful(),
            pos < m <= n,
            n == s0.len(),
            hole.data.wf(),
            hole.pos <= pos,
            hole.data.frame() == old(data).frame(),
            hole.data.slots().len() == n,
            hole.data.slots().to_multiset() == s0.to_multiset(),
            *final(hole.data) == after_borrow(*data),
            forall|k: int| pos < k < n ==> #[trigger] hole.data.slots()[k] == s0[k],
            hole.pos == pos ==> *hole.data == *old(data),
            heap_except(ord, items(hole.data), hole.pos as int, m),
            hole.pos != pos ==> forall|j: int|
                0 < j < m && parent_of(j) == hole.pos ==> #[trigger] ordered_at(
                    ord,
                    items(hole.data),
                    j,
                ),
            !moving ==> hole.pos == 0 || ordered_at(ord, items(hole.data), hole.pos as int),
            descends(pos as int, hole.pos as int),
            hole.data.slots()[hole.pos as int] == s0[pos as int],
            hole.pos != pos ==> ord.prefers(
                S::item_of(s0[pos as int]),
                S::item_of(hole.data.slots()[pos as int]),
            ),
        decreases hole.pos + (if moving {
            1int
        } else {
            0int
        }),
    {
        let ghost before = hole.data.slots();
        let ghost h = hole.pos as int;
        proof {
            lemma_descends_ge(pos as int, h);
        }
        moving = hole.move_up(ord);
        proof {
            if moving {
                lemma_items_swapped::<S>(before, hole.data.slots(), h, parent_of(h));
                lemma_sift_up_step(ord, items_of::<S>(before), h, m);
                lemma_descends_parent(h);
                lemma_descends_trans(pos as int, h, parent_of(h));
            }
        }
    }
    proof {
        let s = items(hole.data);
        if hole.pos != pos {
            assert forall|j: int| 0 < j < m implies #[trigger] ordered_at(ord, s, j) by {
                if j != hole.pos && parent_of(j) != hole.pos {
                    assert(ordered_at(ord, s, j));
                }
            }
        }
    }
    hole.into_pos()
}

pub(crate) proof fn lemma_descends_ge(k: int, i: int)
    ensures
        descends(k, i) ==> k >= i,
        descends(k, i) && k != i ==> parent_of(k) >= i && descends(parent_of(k), i),
{
    if descends(k, i) && k != i {
        assert(descends(parent_of(k), i));
        lemma_descends_ge_once(parent_of(k), i);
    }
}

proof fn lemma_descends_ge_once(k: int, i: int)
    ensures
        descends(k, i) ==> k >= i,
{
}

/// A slot descends from its parent.
pub(crate) proof fn lemma_descends_parent(k: int)
    requires
        k > 0,
    ensures
        descends(k, parent_of(k)),
{
    assert(descends(parent_of(k), parent_of(k)));
}

/// Descent is transitive.
pub(crate) proof fn lemma_descends_trans(a: int, b: int, c: int)
    requires
        descends(a, b),
        descends(b, c),
    ensures
        descends(a, c),
    decreases a,
{
    if a != b {
        lemma_descends_ge(a, b);
        lemma_descends_trans(parent_of(a), b, c);
        lemma_descends_ge(b, c);
    }
}

/// Every slot descends from the root.
pub proof fn lemma_descends_root(k: int)
    requires
        k >= 0,
    ensures
        descends(k, 0),
    decreases k,
{
    if k > 0 {
        lemma_descends_root(parent_of(k));
    }
}

/// `u` is a child of `h` that no sibling belongs above.
pub open spec fn upper_child<T, O: Ordering<T>>(ord: &O, s: Seq<T>, h: int, u: int) -> bool {
    &&& 0 < u < s.len()
    &&& parent_of(u) == h
    &&& forall|c: int| 0 < c < s.len() && parent_of(c) == h ==> !ord.prefers(#[trigger] s[c], s[u])
}

proof fn lemma_sift_down_step<T, O: Ordering<T>>(ord: &O, s: Seq<T>, h: int, u: int, pos: int)
    requires
        ord.lawful(),
        0 <= pos <= h,
        upper_child(ord, s, h, u),
        ord.prefers(s[u], s[h]),
        forall|j: int|
            0 < j < s.len() && descends(parent_of(j), pos as int) && parent_of(j) != h ==> #[trigger] ordered_at(
                ord,
                s,
                j,
            ),
        h != pos ==> descends(parent_of(h), pos),
        descends(h, pos),
        h != pos ==> forall|c: int|
            0 < c < s.len() && parent_of(c) == h ==> #[trigger] below_grandparent(ord, s, c, h),
    ensures
        forall|j: int|
            0 < j < s.len() && descends(parent_of(j), pos as int) && parent_of(j) != u ==> #[trigger] ordered_at(
                ord,
                swapped(s, h, u),
                j,
            ),
        forall|c: int|
            0 < c < s.len() && parent_of(c) == u ==> #[trigger] below_grandparent(
                ord,
                swapped(s, h, u),
                c,
                u,
            ),
{
    ord.lemma_strict_weak_order();
    let t = swapped(s, h, u);
    assert forall|j: int|
        0 < j < s.len() && descends(parent_of(j), pos as int) && parent_of(j) != u implies #[trigger] ordered_at(
        ord,
        t,
        j,
    ) by {
        if j == u {
        } else if parent_of(j) == h {
            assert(!ord.prefers(s[j], s[u]));
        } else if j == h {
            assert(below_grandparent(ord, s, u, h));
        } else {
            assert(ordered_at(ord, s, j));
        }
    }
    assert(descends(u, pos));
    assert forall|c: int| 0 < c < s.len() && parent_of(c) == u implies #[trigger] below_grandparent(
        ord,
        t,
        c,
        u,
    ) by {
        assert(ordered_at(ord, s, c));
    }
}

proof fn lemma_sift_down_stop<T, O: Ordering<T>>(ord: &O, s: Seq<T>, h: int, u: int, pos: int)
    requires
        ord.lawful(),
        0 <= pos <= h,
        upper_child(ord, s, h, u),
        !ord.prefers(s[u], s[h]),
        forall|j: int|
            0 < j < s.len() && descends(parent_of(j), pos as int) && parent_of(j) != h ==> #[trigger] ordered_at(
                ord,
                s,
                j,
            ),
    ensures
        forall|j: int| 0 < j < s.len() && descends(parent_of(j), pos as int) ==> #[trigger] ordered_at(ord, s, j),
{
    ord.lemma_strict_weak_order();
    assert forall|j: int| 0 < j < s.len() && descends(parent_of(j), pos as int) implies #[trigger] ordered_at(
        ord,
        s,
        j,
    ) by {
        if parent_of(j) == h {
            assert(!ord.prefers(s[j], s[u]));
        }
    }
}

/// The state of a sift-down from `pos` whose hole is at `h`, against the
/// slots `s0` it started from.
#[verifier::opaque]
spec fn down_inv<S: Storage + ?Sized, O: Ordering<S::Item>>(
    ord: &O,
    s0: Seq<S::Slot>,
    cur: Seq<S::Slot>,
    h: int,
    pos: int,
) -> bool {
    let n = s0.len();
    let t = items_of::<S>(cur);
    &&& cur.len() == n
    &&& 0 <= pos <= h < n
    &&& descends(h, pos)
    &&& forall|k: int| 0 <= k < n && !descends(k, pos) ==> #[trigger] cur[k] == s0[k]
    &&& h == pos ==> cur == s0
    &&& h != pos ==> exists|c: int| 0 < c < n && parent_of(c) == pos && cur[pos] == s0[c]
    &&& forall|j: int|
        0 < j < n && descends(parent_of(j), pos as int) && parent_of(j) != h ==> #[trigger] ordered_at(ord, t, j)
    &&& h != pos ==> forall|c: int|
        0 < c < n && parent_of(c) == h ==> #[trigger] below_grandparent(ord, t, c, h)
    &&& cur[h] == s0[pos]
    &&& h != pos ==> ord.prefers(S::item_of(cur[pos]), S::item_of(s0[pos]))
}

/// Every slot whose parent lies in the subtree of `pos` is in order with
/// its parent.
spec fn ordered_from<T, O: Ordering<T>>(ord: &O, t: Seq<T>, pos: int) -> bool {
    forall|j: int| 0 < j < t.len() && descends(parent_of(j), pos as int) ==> #[trigger] ordered_at(ord, t, j)
}

proof fn lemma_down_init<S: Storage + ?Sized, O: Ordering<S::Item>>(ord: &O, s0: Seq<S::Slot>, pos: int)
    requires
        0 <= pos < s0.len(),
        forall|j: int|
            0 < j < s0.len() && descends(parent_of(j), pos as int) && parent_of(j) != pos ==> #[trigger] ordered_at(
                ord,
                items_of::<S>(s0),
                j,
            ),
    ensures
        down_inv::<S, O>(ord, s0, s0, pos, pos),
{
    reveal(down_inv);
}

proof fn lemma_upper_whole<T, O: Ordering<T>>(ord: &O, s: Seq<T>, h: int)
    requires
        ord.lawful(),
        0 <= h,
        child_of(h, 1) < s.len(),
    ensures
        upper_child(
            ord,
            s,
            h,
            if ord.prefers(s[child_of(h, 1)], s[child_of(h, 0)]) {
                child_of(h, 1)
            } else {
                child_of(h, 0)
            },
        ),
{
    ord.lemma_strict_weak_order();
    let u = if ord.prefers(s[child_of(h, 1)], s[child_of(h, 0)]) {
        child_of(h, 1)
    } else {
        child_of(h, 0)
    };
    assert forall|c: int| 0 < c < s.len() && parent_of(c) == h implies !ord.prefers(
        #[trigger] s[c],
        s[u],
    ) by {
        assert(c == child_of(h, 0) || c == child_of(h, 1));
    }
}

proof fn lemma_upper_partial<T, O: Ordering<T>>(ord: &O, s: Seq<T>, h: int)
    requires
        ord.lawful(),
        0 <= h,
        child_of(h, 0) < s.len(),
        child_of(h, 1) >= s.len(),
    ensures
        upper_child(ord, s, h, child_of(h, 0)),
{
    ord.lemma_strict_weak_order();
    assert forall|c: int| 0 < c < s.len() && parent_of(c) == h implies !ord.prefers(
        #[trigger] s[c],
        s[child_of(h, 0)],
    ) by {
        assert(c == child_of(h, 0));
    }
}

proof fn lemma_down_step<S: Storage + ?Sized, O: Ordering<S::Item>>(
    ord: &O,
    s0: Seq<S::Slot>,
    cur: Seq<S::Slot>,
    h: int,
    u: int,
    pos: int,
)
    requires
        ord.lawful(),
        down_inv::<S, O>(ord, s0, cur, h, pos),
        upper_child(ord, items_of::<S>(cur), h, u),
        ord.prefers(S::item_of(cur[u]), S::item_of(cur[h])),
    ensures
        down_inv::<S, O>(ord, s0, swapped(cur, h, u), u, pos),
        swapped(cur, h, u).to_multiset() == cur.to_multiset(),
{
    reveal(down_inv);
    let t = items_of::<S>(cur);
    let after = swapped(cur, h, u);
    lemma_items_swapped::<S>(cur, after, h, u);
    lemma_descends_ge(h, pos);
    lemma_sift_down_step(ord, t, h, u, pos);
    assert(descends(u, pos));
    if h == pos {
        assert(after[pos] == s0[u]);
    } else {
        assert(after[pos] == cur[pos]);
    }
    assert(after[u] == s0[pos]);
}

proof fn lemma_down_stop<S: Storage + ?Sized, O: Ordering<S::Item>>(
    ord: &O,
    s0: Seq<S::Slot>,
    cur: Seq<S::Slot>,
    h: int,
    u: int,
    pos: int,
)
    requires
        ord.lawful(),
        down_inv::<S, O>(ord, s0, cur, h, pos),
        upper_child(ord, items_of::<S>(cur), h, u),
        !ord.prefers(S::item_of(cur[u]), S::item_of(cur[h])),
    ensures
        ordered_from(ord, items_of::<S>(cur), pos),
{
    reveal(down_inv);
    let t = items_of::<S>(cur);
    lemma_sift_down_stop(ord, t, h, u, pos);
}

proof fn lemma_down_leaf<S: Storage + ?Sized, O: Ordering<S::Item>>(
    ord: &O,
    s0: Seq<S::Slot>,
    cur: Seq<S::Slot>,
    h: int,
    pos: int,
)
    requires
        down_inv::<S, O>(ord, s0, cur, h, pos),
        child_of(h, 0) >= cur.len(),
    ensures
        ordered_from(ord, items_of::<S>(cur), pos),
{
    reveal(down_inv);
}

proof fn lemma_down_facts<S: Storage + ?Sized, O: Ordering<S::Item>>(
    ord: &O,
    s0: Seq<S::Slot>,
    cur: Seq<S::Slot>,
    h: int,
    pos: int,
)
    requires
        down_inv::<S, O>(ord, s0, cur, h, pos),
    ensures
        cur.len() == s0.len(),
        0 <= pos <= h < s0.len(),
        forall|k: int| 0 <= k < s0.len() && !descends(k, pos) ==> #[trigger] cur[k] == s0[k],
        h == pos ==> cur == s0,
        cur[pos] == s0[pos] || exists|c: int|
            0 < c < s0.len() && parent_of(c) == pos && cur[pos] == s0[c],
        descends(h, pos),
        cur[h] == s0[pos],
        h != pos ==> ord.prefers(S::item_of(cur[pos]), S::item_of(s0[pos])),
{
    reveal(down_inv);
}

/// Takes the element at `pos` down the heap while a child belongs above
/// it. Returns its new position.
///
/// Both subtrees below `pos` must be heaps. Afterwards the whole subtree
/// of `pos` is one; only its slots change, the element of `pos` ends at
/// the returned position, and if it moved, `pos` holds an element that
/// belongs above it.
pub(crate) fn sift_down<S: Storage, O: Ordering<S::Item>>(data: &mut S, pos: usize, ord: &O) -> (r: usize)
    requires
        old(data).wf(),
        ord.lawful(),
        pos < old(data).slots().len(),
        forall|j: int|
            0 < j < old(data).slots().len() && descends(parent_of(j), pos as int) && parent_of(j) != pos ==> #[trigger] ordered_at(
                ord,
                items(old(data)),
                j,
            ),
    ensures
        final(data).wf(),
        final(data).frame() == old(data).frame(),
        final(data).slots().len() == old(data).slots().len(),
        final(data).slots().to_multiset() == old(data).slots().to_multiset(),
        forall|j: int|
            0 < j < old(data).slots().len() && descends(parent_of(j), pos as int) ==> #[trigger] ordered_at(
                ord,
                items(final(data)),
                j,
            ),
        forall|k: int|
            0 <= k < old(data).slots().len() && !descends(k, pos as int) ==> #[trigger] final(data).slots()[k]
                == old(data).slots()[k],
        final(data).slots()[pos as int] == old(data).slots()[pos as int] || exists|c: int|
            0 < c < old(data).slots().len() && parent_of(c) == pos && final(data).slots()[pos as int]
                == old(data).slots()[c],
        r == pos ==> *final(data) == *old(data),
        descends(r as int, pos as int),
        r < old(data).slots().len(),
        final(data).slots()[r as int] == old(data).slots()[pos as int],
        r != pos ==> ord.prefers(
            S::item_of(final(data).slots()[pos as int]),
            S::item_of(old(data).slots()[pos as int]),
        ),
{
    let ghost s0 = data.slots();
    let ghost n = s0.len();
    proof {
        assert forall|j: int| 0 < j < n && descends(parent_of(j), pos as int) && parent_of(j) != pos implies #[trigger] ordered_at(
            ord,
            items_of::<S>(s0),
            j,
        ) by {
            assert(ordered_at(ord, items(old(data)), j));
        }
        lemma_down_init::<S, O>(ord, s0, pos as int);
    }
    let mut hole = Hole::new(data, pos);
    let mut settled = false;
    loop
        invariant_except_break
            !settled,
        invariant
            ord.lawful(),
            n == s0.len(),
            hole.data.wf(),
            hole.data.frame() == old(data).frame(),
            hole.data.slots().to_multiset() == s0.to_multiset(),
            *final(hole.data) == after_borrow(*data),
            down_inv::<S, O>(ord, s0, hole.data.slots(), hole.pos as int, pos as int),
            hole.pos == pos ==> *hole.data == *old(data),
        ensures
            settled ==> ordered_from(ord, items(hole.data), pos as int),
            !settled ==> child_of(hole.pos as int, 1) >= n,
        decreases n - hole.pos,
    {
        proof {
            lemma_down_facts::<S, O>(ord, s0, hole.data.slots(), hole.pos as int, pos as int);
        }
        let child = match hole.upper_child_whole(ord) {
            Some(c) => c,
            None => {
                break;
            },
        };
        let ghost before = hole.data.slots();
        let ghost h = hole.pos as int;
        proof {
            hole.data.lemma_len_bound();
            lemma_upper_whole(ord, items(hole.data), h);
        }
        if !hole.move_down(child, ord) {
            proof {
                lemma_down_stop::<S, O>(ord, s0, before, h, child as int, pos as int);
            }
            settled = true;
            break;
        }
        proof {
            lemma_down_step::<S, O>(ord, s0, before, h, child as int, pos as int);
        }
    }
    proof {
        lemma_down_facts::<S, O>(ord, s0, hole.data.slots(), hole.pos as int, pos as int);
    }
    if !settled {
        let ghost h = hole.pos as int;
        if let Some(child) = hole.upper_child_partial(ord) {
            let ghost before = hole.data.slots();
            proof {
                hole.data.lemma_len_bound();
                lemma_upper_partial(ord, items(hole.data), h);
            }
            if hole.move_down(child, ord) {
                proof {
                    lemma_down_step::<S, O>(ord, s0, before, h, child as int, pos as int);
                    lemma_down_leaf::<S, O>(ord, s0, hole.data.slots(), child as int, pos as int);
                }
            } else {
                proof {
                    lemma_down_stop::<S, O>(ord, s0, before, h, child as int, pos as int);
                }
            }
        } else {
            proof {
                lemma_down_leaf::<S, O>(ord, s0, hole.data.slots(), h, pos as int);
            }
        }
    }
    proof {
        lemma_down_facts::<S, O>(ord, s0, hole.data.slots(), hole.pos as int, pos as int);
    }
    hole.into_pos()
}

proof fn lemma_bottom_step<T, O: Ordering<T>>(ord: &O, s: Seq<T>, h: int, u: int)
    requires
        ord.lawful(),
        0 <= h,
        upper_child(ord, s, h, u),
        heap_except(ord, s, h, s.len() as int),
    ensures
        heap_except(ord, swapped(s, h, u), u, s.len() as int),
{
    ord.lemma_strict_weak_order();
    let t = swapped(s, h, u);
    let n = s.len() as int;
    assert forall|j: int| 0 < j < n && j != u && parent_of(j) != u implies #[trigger] ordered_at(
        ord,
        t,
        j,
    ) by {
        if j == h {
            assert(below_grandparent(ord, s, u, h));
        } else if parent_of(j) == h {
            assert(!ord.prefers(s[j], s[u]));
        } else {
            assert(ordered_at(ord, s, j));
        }
    }
    assert forall|j: int| 0 < j < n && parent_of(j) == u && u > 0 implies #[trigger] below_grandparent(
        ord,
        t,
        j,
        u,
    ) by {
        assert(ordered_at(ord, s, j));
    }
}

/// The child of `q` a hole moving down from `q` takes: the second child
/// if it belongs above the first, else the first.
pub open spec fn upper_of<T, O: Ordering<T>>(ord: &O, s: Seq<T>, q: int) -> int {
    if child_of(q, 1) < s.len() && ord.prefers(s[child_of(q, 1)], s[child_of(q, 0)]) {
        child_of(q, 1)
    } else {
        child_of(q, 0)
    }
}

/// Slot `q` lies on the path from `pos` down to `r`.
pub open spec fn on_path(q: int, pos: int, r: int) -> bool {
    descends(r, q) && descends(q, pos)
}

/// The state of a hole moved down from `pos` to `h`, against the slots
/// `s0` it started from: every slot above `h` on the path holds the
/// element of the child the hole went on to, the hole holds the element of
/// `pos`, and every other slot is as it was.
#[verifier::opaque]
spec fn bottom_inv<S: Storage + ?Sized, O: Ordering<S::Item>>(
    ord: &O,
    s0: Seq<S::Slot>,
    cur: Seq<S::Slot>,
    h: int,
    pos: int,
) -> bool {
    let n = s0.len();
    let t0 = items_of::<S>(s0);
    &&& cur.len() == n
    &&& 0 <= pos <= h < n
    &&& descends(h, pos)
    &&& cur[h] == s0[pos]
    &&& forall|q: int|
        0 <= q < n && #[trigger] on_path(q, pos, h) && q != h ==> descends(h, upper_of(ord, t0, q))
            && cur[q] == s0[upper_of(ord, t0, q)]
    &&& forall|q: int| 0 <= q < n && !#[trigger] on_path(q, pos, h) ==> cur[q] == s0[q]
    &&& heap_except(ord, t0, pos, n as int) ==> heap_except(ord, items_of::<S>(cur), h, n as int)
}

proof fn lemma_bottom_init<S: Storage + ?Sized, O: Ordering<S::Item>>(ord: &O, s0: Seq<S::Slot>, pos: int)
    requires
        0 <= pos < s0.len(),
    ensures
        bottom_inv::<S, O>(ord, s0, s0, pos, pos),
{
    reveal(bottom_inv);
    assert forall|q: int| 0 <= q < s0.len() && #[trigger] on_path(q, pos, pos) implies q == pos by {
        lemma_descends_ge(pos, q);
        lemma_descends_ge(q, pos);
    }
}

proof fn lemma_bottom_path_step<S: Storage + ?Sized, O: Ordering<S::Item>>(
    ord: &O,
    s0: Seq<S::Slot>,
    cur: Seq<S::Slot>,
    h: int,
    u: int,
    pos: int,
)
    requires
        ord.lawful(),
        bottom_inv::<S, O>(ord, s0, cur, h, pos),
        child_of(h, 0) < cur.len(),
        u == upper_of(ord, items_of::<S>(cur), h),
    ensures
        bottom_inv::<S, O>(ord, s0, swapped(cur, h, u), u, pos),
        swapped(cur, h, u).to_multiset() == cur.to_multiset(),
        u == upper_of(ord, items_of::<S>(s0), h),
{
    reveal(bottom_inv);
    let n = s0.len();
    let t0 = items_of::<S>(s0);
    let tc = items_of::<S>(cur);
    let after = swapped(cur, h, u);
    lemma_items_swapped::<S>(cur, after, h, u);
    // the children of the hole are off its path, so they are as they were
    assert forall|c: int| 0 <= c < n && parent_of(c) == h implies cur[c] == s0[c] by {
        lemma_descends_ge(h, c);
        assert(!on_path(c, pos, h));
    }
    assert(u == upper_of(ord, t0, h)) by {
        if child_of(h, 1) < n {
            assert(parent_of(child_of(h, 1)) == h);
            assert(cur[child_of(h, 1)] == s0[child_of(h, 1)]);
            assert(tc[child_of(h, 1)] == t0[child_of(h, 1)]);
        }
        assert(parent_of(child_of(h, 0)) == h);
        assert(cur[child_of(h, 0)] == s0[child_of(h, 0)]);
        assert(tc[child_of(h, 0)] == t0[child_of(h, 0)]);
    }
    lemma_descends_parent(u);
    lemma_descends_trans(u, h, pos);
    assert forall|q: int|
        0 <= q < n && #[trigger] on_path(q, pos, u) && q != u implies descends(u, upper_of(ord, t0, q))
        && after[q] == s0[upper_of(ord, t0, q)] by {
        lemma_descends_ge(u, q);
        if q != h {
            assert(on_path(q, pos, h));
            lemma_descends_trans(u, h, upper_of(ord, t0, q));
            lemma_descends_ge(h, q);
        }
    }
    assert forall|q: int| 0 <= q < n && !#[trigger] on_path(q, pos, u) implies after[q] == s0[q] by {
        assert(on_path(u, pos, u));
        assert(on_path(h, pos, u));
        if on_path(q, pos, h) {
            lemma_descends_trans(u, h, q);
        }
    }
    if heap_except(ord, t0, pos, n as int) {
        lemma_upper_of_is_upper(ord, tc, h);
        lemma_bottom_step(ord, tc, h, u);
    }
}

proof fn lemma_upper_of_is_upper<T, O: Ordering<T>>(ord: &O, s: Seq<T>, h: int)
    requires
        ord.lawful(),
        0 <= h,
        child_of(h, 0) < s.len(),
    ensures
        upper_child(ord, s, h, upper_of(ord, s, h)),
{
    if child_of(h, 1) < s.len() {
        lemma_upper_whole(ord, s, h);
    } else {
        lemma_upper_partial(ord, s, h);
    }
}

proof fn lemma_bottom_facts<S: Storage + ?Sized, O: Ordering<S::Item>>(
    ord: &O,
    s0: Seq<S::Slot>,
    cur: Seq<S::Slot>,
    h: int,
    pos: int,
)
    requires
        bottom_inv::<S, O>(ord, s0, cur, h, pos),
    ensures
        cur.len() == s0.len(),
        0 <= pos <= h < s0.len(),
        descends(h, pos),
        cur[h] == s0[pos],
        forall|q: int|
            0 <= q < s0.len() && #[trigger] on_path(q, pos, h) && q != h ==> descends(
                h,
                upper_of(ord, items_of::<S>(s0), q),
            ) && cur[q] == s0[upper_of(ord, items_of::<S>(s0), q)],
        forall|q: int| 0 <= q < s0.len() && !#[trigger] on_path(q, pos, h) ==> cur[q] == s0[q],
        heap_except(ord, items_of::<S>(s0), pos, s0.len() as int) ==> heap_except(
            ord,
            items_of::<S>(cur),
            h,
            s0.len() as int,
        ),
{
    reveal(bottom_inv);
}

/// Takes the hole at `pos` all the way down to a leaf, whatever its
/// element: at each step to the child that belongs above its sibling, the
/// first on a tie. Returns the leaf.
///
/// Each slot on the path from `pos` to the leaf takes the element of the
/// next slot on it, the leaf takes the element of `pos`, and every other
/// slot keeps its own. If the heap was whole except around `pos`, it is
/// whole except around the leaf afterwards, ready for a sift-up from there.
pub(crate) fn sift_down_to_bottom<S: Storage, O: Ordering<S::Item>>(
    data: &mut S,
    pos: usize,
    ord: &O,
) -> (r: usize)
    requires
        old(data).wf(),
        ord.lawful(),
        pos < old(data).slots().len(),
    ensures
        final(data).wf(),
        final(data).frame() == old(data).frame(),
        final(data).slots().len() == old(data).slots().len(),
        final(data).slots().to_multiset() == old(data).slots().to_multiset(),
        pos <= r < old(data).slots().len(),
        child_of(r as int, 0) >= old(data).slots().len(),
        descends(r as int, pos as int),
        final(data).slots()[r as int] == old(data).slots()[pos as int],
        forall|q: int|
            0 <= q < old(data).slots().len() && #[trigger] on_path(q, pos as int, r as int) && q != r
                ==> descends(r as int, upper_of(ord, items(old(data)), q)) && final(data).slots()[q]
                == old(data).slots()[upper_of(ord, items(old(data)), q)],
        forall|q: int|
            0 <= q < old(data).slots().len() && !#[trigger] on_path(q, pos as int, r as int)
                ==> final(data).slots()[q] == old(data).slots()[q],
        heap_except(ord, items(old(data)), pos as int, old(data).slots().len() as int)
            ==> heap_except(ord, items(final(data)), r as int, old(data).slots().len() as int),
{
    let ghost s0 = data.slots();
    let ghost n = s0.len();
    proof {
        lemma_bottom_init::<S, O>(ord, s0, pos as int);
    }
    let mut hole = Hole::new(data, pos);
    loop
        invariant
            ord.lawful(),
            n == s0.len(),
            hole.data.wf(),
            hole.data.frame() == old(data).frame(),
            hole.data.slots().to_multiset() == s0.to_multiset(),
            *final(hole.data) == after_borrow(*data),
            bottom_inv::<S, O>(ord, s0, hole.data.slots(), hole.pos as int, pos as int),
        ensures
            child_of(hole.pos as int, 1) >= n,
        decreases n - hole.pos,
    {
        proof {
            lemma_bottom_facts::<S, O>(ord, s0, hole.data.slots(), hole.pos as int, pos as int);
        }
        let child = match hole.upper_child_whole(ord) {
            Some(c) => c,
            None => {
                break;
            },
        };
        let ghost before = hole.data.slots();
        let ghost h = hole.pos as int;
        proof {
            hole.data.lemma_len_bound();
            lemma_bottom_path_step::<S, O>(ord, s0, before, h, child as int, pos as int);
        }
        hole.move_to(child);
    }
    let ghost h = hole.pos as int;
    proof {
        hole.data.lemma_len_bound();
        lemma_bottom_facts::<S, O>(ord, s0, hole.data.slots(), h, pos as int);
    }
    if let Some(child) = hole.upper_child_partial(ord) {
        let ghost before = hole.data.slots();
        proof {
            lemma_bottom_path_step::<S, O>(ord, s0, before, h, child as int, pos as int);
        }
        hole.move_to(child);
    }
    proof {
        lemma_bottom_facts::<S, O>(ord, s0, hole.data.slots(), hole.pos as int, pos as int);
    }
    hole.into_pos()
}

/// Restores the heap after the element at `pos` changed, moving it up or
/// down. Returns its new position.
///
/// An element that rose never needs to fall: its new children were below
/// its old parent already. The element ends at the returned position,
/// which is above or below `pos` or `pos` itself; in the last case nothing
/// changed, in the others another element now holds `pos`.
pub(crate) fn fixup_sift<S: Storage, O: Ordering<S::Item>>(data: &mut S, pos: usize, ord: &O) -> (r: usize)
    requires
        old(data).wf(),
        ord.lawful(),
        pos < old(data).slots().len(),
        heap_except(ord, items(old(data)), pos as int, old(data).slots().len() as int),
    ensures
        final(data).wf(),
        final(data).frame() == old(data).frame(),
        final(data).slots().len() == old(data).slots().len(),
        final(data).slots().to_multiset() == old(data).slots().to_multiset(),
        is_heap(ord, items(final(data))),
        r < old(data).slots().len(),
        final(data).slots()[r as int] == old(data).slots()[pos as int],
        descends(pos as int, r as int) || descends(r as int, pos as int),
        r == pos ==> *final(data) == *old(data),
        (r == pos) == (S::item_of(final(data).slots()[pos as int]) == S::item_of(
            old(data).slots()[pos as int],
        )),
{
    let ghost n = data.slots().len() as int;
    proof {
        ord.lemma_strict_weak_order();
    }
    let new_pos = sift_up(data, pos, ord, Ghost(n));
    if new_pos != pos {
        return new_pos;
    }
    let ghost s0 = items(data);
    let ghost d0 = data.slots();
    proof {
        assert forall|j: int| 0 < j < n && parent_of(j) > pos implies #[trigger] ordered_at(
            ord,
            items(data),
            j,
        ) by {
            assert(ordered_at(ord, s0, j));
        }
    }
    let r = sift_down(data, pos, ord);
    proof {
        let s1 = items(data);
        assert forall|j: int| 0 < j < n implies #[trigger] ordered_at(ord, s1, j) by {
            if parent_of(j) < pos {
                lemma_descends_ge(parent_of(j), pos as int);
                assert(data.slots()[parent_of(j)] == d0[parent_of(j)]);
                if j == pos {
                    if data.slots()[j] != d0[j] {
                        let c = choose|c: int|
                            0 < c < n && parent_of(c) == pos && data.slots()[pos as int] == d0[c];
                        assert(below_grandparent(ord, s0, c, pos as int));
                    }
                } else {
                    lemma_descends_ge(j, pos as int);
                    assert(data.slots()[j] == d0[j]);
                    assert(ordered_at(ord, s0, j));
                }
            }
        }
    }
    r
}

} // verus!
