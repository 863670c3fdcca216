//! Properties of whole sequences of heap operations, stated over the
//! contracts of the single operations.
use crate::indexable_vec::{alloc_one, release_one};
use crate::ordering::Ordering;
use vstd::multiset::Multiset;
use vstd::prelude::*;

verus! {

/// `out` can be what popping a heap holding `m` returns, pop after pop,
/// until it is empty: each element popped is in what is left and no
/// element left belongs above it, as `pop` promises.
pub open spec fn pops_of<T, O: Ordering<T>>(ord: &O, m: Multiset<T>, out: Seq<T>) -> bool
    decreases out.len(),
{
    if out.len() == 0 {
        m.len() == 0
    } else {
        &&& m.count(out[0]) > 0
        &&& forall|y: T| m.count(y) > 0 ==> !ord.prefers(y, out[0])
        &&& pops_of(ord, m.remove(out[0]), out.drop_first())
    }
}

/// Popping a heap until it is empty gives back exactly its elements, in
/// order: no element comes after one it belongs above. For a max heap
/// that is descending order, for a min heap ascending, whatever order
/// the elements were pushed in.
pub proof fn lemma_pops_sorted<T, O: Ordering<T>>(ord: &O, m: Multiset<T>, out: Seq<T>)
    requires
        ord.lawful(),
        pops_of(ord, m, out),
    ensures
        out.to_multiset() == m,
        forall|i: int, j: int| 0 <= i < j < out.len() ==> !ord.prefers(out[j], out[i]),
    decreases out.len(),
{
    broadcast use vstd::seq_lib::group_to_multiset_ensures;
    broadcast use vstd::multiset::group_multiset_axioms;

    if out.len() == 0 {
        assert(out.to_multiset() =~= Multiset::<T>::empty());
        assert(m =~= Multiset::<T>::empty());
    } else {
        let rest = out.drop_first();
        let m2 = m.remove(out[0]);
        lemma_pops_sorted(ord, m2, rest);
        assert(out =~= seq![out[0]] + rest);
        vstd::seq_lib::lemma_multiset_commutative(seq![out[0]], rest);
        assert(seq![out[0]] =~= Seq::<T>::empty().push(out[0]));
        assert(out.to_multiset() =~= m2.insert(out[0]));
        assert(m2.insert(out[0]) =~= m);
        assert forall|i: int, j: int| 0 <= i < j < out.len() implies !ord.prefers(out[j], out[i]) by {
            if i == 0 {
                assert(out[j] == rest[j - 1]);
                assert(rest.contains(out[j]));
                assert(m2.count(out[j]) > 0);
            } else {
                assert(out[i] == rest[i - 1]);
                assert(out[j] == rest[j - 1]);
            }
        }
    }
}

/// Removing one element and then popping the rest gives back every
/// element but the one removed.
pub proof fn lemma_remove_then_pops<T, O: Ordering<T>>(
    ord: &O,
    m: Multiset<T>,
    removed: T,
    out: Seq<T>,
)
    requires
        ord.lawful(),
        m.count(removed) > 0,
        pops_of(ord, m.remove(removed), out),
    ensures
        out.to_multiset() == m.remove(removed),
        out.to_multiset().insert(removed) == m,
{
    broadcast use vstd::multiset::group_multiset_axioms;

    lemma_pops_sorted(ord, m.remove(removed), out);
    assert(m.remove(removed).insert(removed) =~= m);
}

/// One push, or the removal of an element other than `h`'s, as `push`,
/// `pop` and `remove` change the contents of an indexable heap.
pub open spec fn other_step<T>(a: Map<usize, T>, b: Map<usize, T>, h: usize) -> bool {
    ||| exists|g: usize, v: T| !a.contains_key(g) && b == a.insert(g, v)
    ||| exists|g: usize| g != h && a.contains_key(g) && b == a.remove(g)
}

/// However many elements are pushed, and whichever other elements are
/// popped or removed, a live handle keeps its element.
pub proof fn lemma_handle_stable<T>(states: Seq<Map<usize, T>>, h: usize)
    requires
        states.len() > 0,
        states[0].contains_key(h),
        forall|i: int| 0 <= i < states.len() - 1 ==> #[trigger] other_step(states[i], states[i + 1], h),
    ensures
        states.last().contains_key(h),
        states.last()[h] == states[0][h],
    decreases states.len(),
{
    if states.len() > 1 {
        let prefix = states.drop_last();
        assert forall|i: int| 0 <= i < prefix.len() - 1 implies #[trigger] other_step(
            prefix[i],
            prefix[i + 1],
            h,
        ) by {
            assert(other_step(states[i], states[i + 1], h));
        }
        lemma_handle_stable(prefix, h);
        let k = states.len() - 2;
        let a = states[k];
        let b = states[k + 1];
        assert(other_step(states[k], states[k + 1], h));
        assert(prefix.last() == a);
        assert(states.last() == b);
        if exists|g: usize, v: T| !a.contains_key(g) && b == a.insert(g, v) {
            let (g, v) = choose|g: usize, v: T| !a.contains_key(g) && b == a.insert(g, v);
            assert(g != h);
        } else {
            let g = choose|g: usize| g != h && a.contains_key(g) && b == a.remove(g);
        }
    }
}

/// The handles that `k` pushes hand out, with the handle table's length
/// and free chain after them.
pub open spec fn alloc_many(n: nat, free: Seq<usize>, k: nat) -> (Seq<usize>, nat, Seq<usize>)
    decreases k,
{
    if k == 0 {
        (Seq::empty(), n, free)
    } else {
        let (h, n1, f1) = alloc_one(n, free);
        let (hs, n2, f2) = alloc_many(n1, f1, (k - 1) as nat);
        (seq![h] + hs, n2, f2)
    }
}

/// The handle table's length and free chain after the handles `hs` are
/// given back, one after another.
pub open spec fn release_many(n: nat, free: Seq<usize>, hs: Seq<usize>) -> (nat, Seq<usize>)
    decreases hs.len(),
{
    if hs.len() == 0 {
        (n, free)
    } else {
        let (n1, f1) = release_one(n, free, hs[0]);
        release_many(n1, f1, hs.drop_first())
    }
}

/// The integers from `lo` up to `hi`, as handles.
pub open spec fn handle_range(lo: nat, hi: nat) -> Set<usize> {
    Set::new(|x: usize| lo <= x < hi)
}

proof fn lemma_alloc_fresh(n: nat, k: nat)
    requires
        n + k <= usize::MAX,
    ensures
        alloc_many(n, Seq::empty(), k).0.to_set() == handle_range(n, n + k),
        alloc_many(n, Seq::empty(), k).0.len() == k,
        alloc_many(n, Seq::empty(), k).1 == n + k,
        alloc_many(n, Seq::empty(), k).2 == Seq::<usize>::empty(),
    decreases k,
{
    if k > 0 {
        lemma_alloc_fresh(n + 1, (k - 1) as nat);
        let hs = alloc_many(n + 1, Seq::empty(), (k - 1) as nat).0;
        let all = seq![n as usize] + hs;
        assert(alloc_many(n, Seq::empty(), k).0 == all);
        assert forall|x: usize| all.to_set().contains(x) <==> handle_range(n, n + k).contains(x) by {
            if x == n {
                assert(all[0] == x);
            } else if all.to_set().contains(x) {
                let i = choose|i: int| 0 <= i < all.len() && all[i] == x;
                assert(hs[i - 1] == x);
                assert(hs.to_set().contains(x));
            } else if handle_range(n, n + k).contains(x) {
                assert(hs.to_set().contains(x));
                let i = choose|i: int| 0 <= i < hs.len() && hs[i] == x;
                assert(all[i + 1] == x);
            }
        }
        assert(all.to_set() =~= handle_range(n, n + k));
    } else {
        assert(Seq::<usize>::empty().to_set() =~= handle_range(n, n));
    }
}

proof fn lemma_alloc_reuse(m: nat, free: Seq<usize>, k: nat)
    requires
        free.len() <= k,
        m + k - free.len() <= usize::MAX,
    ensures
        alloc_many(m, free, k).0.to_set() == free.to_set().union(
            handle_range(m, (m + k - free.len()) as nat),
        ),
        alloc_many(m, free, k).1 == m + k - free.len(),
    decreases free.len(),
{
    if free.len() == 0 {
        lemma_alloc_fresh(m, k);
        assert(free =~= Seq::<usize>::empty());
        assert(free.to_set() =~= Set::<usize>::empty());
        assert(free.to_set().union(handle_range(m, m + k)) =~= handle_range(m, m + k));
    } else {
        let rest = free.drop_first();
        lemma_alloc_reuse(m, rest, (k - 1) as nat);
        let hs = alloc_many(m, rest, (k - 1) as nat).0;
        let all = seq![free[0]] + hs;
        assert(alloc_many(m, free, k).0 == all);
        let r = handle_range(m, (m + k - free.len()) as nat);
        assert forall|x: usize| all.to_set().contains(x) <==> free.to_set().union(r).contains(x) by {
            if x == free[0] {
                assert(all[0] == x);
                assert(free.to_set().contains(x));
            } else if all.to_set().contains(x) {
                let i = choose|i: int| 0 <= i < all.len() && all[i] == x;
                assert(hs[i - 1] == x);
                assert(hs.to_set().contains(x));
                if rest.to_set().contains(x) {
                    let j = choose|j: int| 0 <= j < rest.len() && rest[j] == x;
                    assert(free[j + 1] == x);
                }
            } else if free.to_set().union(r).contains(x) {
                if free.to_set().contains(x) {
                    let j = choose|j: int| 0 <= j < free.len() && free[j] == x;
                    assert(rest[j - 1] == x);
                    assert(rest.to_set().contains(x));
                }
                assert(hs.to_set().contains(x));
                let i = choose|i: int| 0 <= i < hs.len() && hs[i] == x;
                assert(all[i + 1] == x);
            }
        }
        assert(all.to_set() =~= free.to_set().union(r));
    }
}

/// What holds while the handles `order` are given back one by one, after
/// `i` of them: the free chain holds, once each, exactly the handles from
/// `n` up to the table's length that are not still to be given back.
spec fn release_inv(n: nat, m: nat, f: Seq<usize>, order: Seq<usize>, i: int) -> bool {
    &&& n <= m
    &&& f.no_duplicates()
    &&& forall|x: usize| f.contains(x) <==> (n <= x < m && !order.subrange(i, order.len() as int).contains(x))
    &&& forall|j: int| i <= j < order.len() ==> n <= #[trigger] order[j] < m
}

proof fn lemma_release_all(n: nat, m: nat, f: Seq<usize>, order: Seq<usize>, i: int)
    requires
        0 <= i <= order.len(),
        order.no_duplicates(),
        release_inv(n, m, f, order, i),
    ensures
        ({
            let (m2, f2) = release_many(m, f, order.subrange(i, order.len() as int));
            &&& n <= m2 <= m
            &&& f2.no_duplicates()
            &&& forall|x: usize| f2.contains(x) <==> n <= x < m2
        }),
    decreases order.len() - i,
{
    let rest = order.subrange(i, order.len() as int);
    if i == order.len() {
        assert(rest.len() == 0);
    } else {
        let h = order[i];
        let (m1, f1) = release_one(m, f, h);
        assert(rest[0] == h);
        assert(rest.drop_first() =~= order.subrange(i + 1, order.len() as int));
        let next = order.subrange(i + 1, order.len() as int);
        assert(!next.contains(h)) by {
            if next.contains(h) {
                let j = choose|j: int| 0 <= j < next.len() && next[j] == h;
                assert(order[i + 1 + j] == h);
            }
        }
        assert(rest.contains(h));
        assert(!f.contains(h));
        assert forall|x: usize| f1.contains(x) <==> (n <= x < m1 && !next.contains(x)) by {
            if x != h {
                assert(rest.contains(x) <==> next.contains(x)) by {
                    if rest.contains(x) {
                        let j = choose|j: int| 0 <= j < rest.len() && rest[j] == x;
                        assert(j != 0);
                        assert(next[j - 1] == x);
                    }
                    if next.contains(x) {
                        let j = choose|j: int| 0 <= j < next.len() && next[j] == x;
                        assert(rest[j + 1] == x);
                    }
                }
            }
            if h != m - 1 {
                assert(f1 == seq![h] + f);
                if x != h && f1.contains(x) {
                    let j = choose|j: int| 0 <= j < f1.len() && f1[j] == x;
                    assert(f[j - 1] == x);
                }
                if x != h && f.contains(x) {
                    let j = choose|j: int| 0 <= j < f.len() && f[j] == x;
                    assert(f1[j + 1] == x);
                }
                if x == h {
                    assert(f1[0] == x);
                }
            }
        }
        assert forall|j: int| i + 1 <= j < order.len() implies n <= #[trigger] order[j] < m1 by {
            assert(order[j] != h);
        }
        if h != m - 1 {
            assert forall|a: int, b: int| 0 <= a < f1.len() && 0 <= b < f1.len() && a != b implies f1[a] != f1[b] by {
                if a == 0 && b > 0 {
                    assert(f1[b] == f[b - 1]);
                    assert(f.contains(f1[b]));
                } else if b == 0 && a > 0 {
                    assert(f1[a] == f[a - 1]);
                    assert(f.contains(f1[a]));
                } else if a > 0 && b > 0 {
                    assert(f1[a] == f[a - 1]);
                    assert(f1[b] == f[b - 1]);
                }
            }
        }
        lemma_release_all(n, m1, f1, order, i + 1);
    }
}

/// There are `m - n` handles from `n` up to `m`.
proof fn lemma_range_card(n: nat, m: nat)
    requires
        n <= m,
        m <= usize::MAX + 1,
    ensures
        handle_range(n, m).finite(),
        handle_range(n, m).len() == m - n,
{
    let ints = vstd::set_lib::set_int_range(n as int, m as int);
    vstd::set_lib::lemma_int_range(n as int, m as int);
    let g = |x: int| x as usize;
    assert(vstd::relations::injective_on(g, ints));
    assert(ints.map(g) =~= handle_range(n, m)) by {
        assert forall|x: usize| handle_range(n, m).contains(x) implies ints.map(g).contains(x) by {
            assert(ints.contains(x as int));
            assert(g(x as int) == x);
        }
    }
    vstd::set_lib::lemma_map_size(ints, handle_range(n, m), g);
}

/// A duplicate-free sequence of exactly the handles from `n` up to `m`
/// has `m - n` elements.
proof fn lemma_range_len(n: nat, m: nat, f: Seq<usize>)
    requires
        n <= m,
        f.no_duplicates(),
        forall|x: usize| f.contains(x) <==> n <= x < m,
        m <= usize::MAX + 1,
    ensures
        f.len() == m - n,
        f.to_set() == handle_range(n, m),
{
    assert(f.to_set() =~= handle_range(n, m));
    f.unique_seq_to_set();
    lemma_range_card(n, m);
}

/// After `k` pushes onto a table with no free handle and the removal of
/// all `k` elements, in any order, the next `k` pushes hand out the same
/// handles again, and the handle table ends no longer than after the
/// first `k` pushes.
pub proof fn lemma_recycling(n: nat, k: nat, order: Seq<usize>)
    requires
        n + k <= usize::MAX,
        order.len() == k,
        order.no_duplicates(),
        forall|i: int| 0 <= i < k ==> n <= #[trigger] order[i] < n + k,
    ensures
        ({
            let (first, n1, f1) = alloc_many(n, Seq::empty(), k);
            let (n2, f2) = release_many(n1, f1, order);
            let (again, n3, f3) = alloc_many(n2, f2, k);
            &&& first.to_set() == again.to_set()
            &&& n1 == n + k
            &&& n2 <= n1
            &&& n3 == n1
        }),
{
    lemma_alloc_fresh(n, k);
    let (first, n1, f1) = alloc_many(n, Seq::empty(), k);
    assert(order.subrange(0, k as int) =~= order);
    assert forall|x: usize| f1.contains(x) <==> (n <= x < n1 && !order.subrange(0, k as int).contains(x)) by {
        if n <= x < n1 {
            assert(handle_range(n, n + k).contains(x));
            order.unique_seq_to_set();
            assert(order.to_set() <= handle_range(n, n + k)) by {
                assert forall|y: usize| order.to_set().contains(y) implies handle_range(n, n + k).contains(y) by {
                    let i = choose|i: int| 0 <= i < order.len() && order[i] == y;
                }
            }
            lemma_range_card(n, n + k);
            vstd::set_lib::lemma_subset_equality(order.to_set(), handle_range(n, n + k));
            assert(order.to_set().contains(x));
        }
    }
    lemma_release_all(n, n1, f1, order, 0);
    let (n2, f2) = release_many(n1, f1, order);
    lemma_range_len(n, n2, f2);
    lemma_alloc_reuse(n2, f2, k);
    assert(f2.to_set().union(handle_range(n2, (n2 + k - f2.len()) as nat)) =~= handle_range(n, n + k));
}

} // verus!
