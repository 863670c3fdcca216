//! How heap elements are ordered relative to each other.
//!
//! [`MaxHeap`] puts the largest element on top, [`MinHeap`] the smallest.
//! Both are built on a comparison strategy implementing [`Cmp`]: the
//! element type's own `Ord` ([`Natural`]), a comparison function
//! ([`ByCmp`]) or a key extraction function ([`ByKey`]).
//!
//! The heap algorithms only ever ask the [`Ordering`] whether one element
//! belongs strictly above another; that relation is `prefers`.
use core::cmp;
use vstd::laws_cmp::{obeys_cmp, obeys_cmp_ord, obeys_cmp_partial_ord, obeys_partial_cmp_spec_properties};
use vstd::laws_eq::obeys_eq_spec_properties;
use vstd::prelude::*;
use vstd::std_specs::cmp::{OrdSpec, PartialEqSpec, PartialOrdSpec};

verus! {

/// The relation a heap is ordered by.
///
/// `prefers(a, b)` means that `a` belongs strictly above `b`. When
/// `lawful` holds the relation is a strict weak order, which is all the
/// heap algorithms rely on.
pub trait Ordering<T> {
    spec fn prefers(&self, a: T, b: T) -> bool;

    spec fn lawful(&self) -> bool;

    proof fn lemma_strict_weak_order(&self)
        requires
            self.lawful(),
        ensures
            forall|a: T| !#[trigger] self.prefers(a, a),
            forall|a: T, b: T, c: T|
                #[trigger] self.prefers(a, b) && #[trigger] self.prefers(b, c) ==> self.prefers(a, c),
            forall|a: T, b: T, c: T|
                !#[trigger] self.prefers(a, b) && !#[trigger] self.prefers(b, c) ==> !self.prefers(
                    a,
                    c,
                ),
    ;

    /// Should `elt` move above `parent`?
    fn should_sift_up(&self, elt: &T, parent: &T) -> (r: bool)
        requires
            self.lawful(),
        ensures
            r == self.prefers(*elt, *parent),
    ;

    /// Should `elt` move below `child`?
    fn should_sift_down(&self, elt: &T, child: &T) -> (r: bool)
        requires
            self.lawful(),
        ensures
            r == self.prefers(*child, *elt),
    ;

    /// Which of two siblings belongs above the other: `true` when `b` does.
    fn select_upper(&self, a: &T, b: &T) -> (r: bool)
        requires
            self.lawful(),
        ensures
            r == self.prefers(*b, *a),
    {
        self.should_sift_up(b, a)
    }
}

/// A three-way comparison of elements.
///
/// `lawful` says that `order` is a total preorder: `Less` and `Greater`
/// mirror each other, `Less` is transitive, and `Equal` is symmetric and
/// transitive.
pub trait Cmp<T> {
    spec fn order(&self, a: T, b: T) -> cmp::Ordering;

    spec fn lawful(&self) -> bool;

    proof fn lemma_total_preorder(&self)
        requires
            self.lawful(),
        ensures
            forall|a: T, b: T|
                (#[trigger] self.order(a, b) == cmp::Ordering::Less) == (self.order(b, a)
                    == cmp::Ordering::Greater),
            forall|a: T, b: T|
                (#[trigger] self.order(a, b) == cmp::Ordering::Equal) ==> (self.order(b, a)
                    == cmp::Ordering::Equal),
            forall|a: T, b: T, c: T|
                #[trigger] self.order(a, b) == cmp::Ordering::Less && #[trigger] self.order(b, c)
                    == cmp::Ordering::Less ==> self.order(a, c) == cmp::Ordering::Less,
            forall|a: T, b: T, c: T|
                #[trigger] self.order(a, b) == cmp::Ordering::Equal && #[trigger] self.order(b, c)
                    == cmp::Ordering::Equal ==> self.order(a, c) == cmp::Ordering::Equal,
    ;

    fn cmp(&self, a: &T, b: &T) -> (r: cmp::Ordering)
        requires
            self.lawful(),
        ensures
            r == self.order(*a, *b),
    ;
}

/// Facts of a total preorder used to show that the strict relations built
/// on it are strict weak orders.
proof fn lemma_cmp_derived<T, C: Cmp<T>>(c: &C)
    requires
        c.lawful(),
    ensures
        forall|a: T| #[trigger] c.order(a, a) != cmp::Ordering::Greater,
        forall|a: T| #[trigger] c.order(a, a) != cmp::Ordering::Less,
        forall|a: T, b: T, d: T|
            #[trigger] c.order(a, b) == cmp::Ordering::Greater && #[trigger] c.order(b, d)
                == cmp::Ordering::Greater ==> c.order(a, d) == cmp::Ordering::Greater,
        forall|a: T, b: T, d: T|
            #[trigger] c.order(a, b) != cmp::Ordering::Greater && #[trigger] c.order(b, d)
                != cmp::Ordering::Greater ==> c.order(a, d) != cmp::Ordering::Greater,
        forall|a: T, b: T, d: T|
            #[trigger] c.order(a, b) != cmp::Ordering::Less && #[trigger] c.order(b, d)
                != cmp::Ordering::Less ==> c.order(a, d) != cmp::Ordering::Less,
{
    c.lemma_total_preorder();
    assert forall|a: T, b: T, d: T|
        #[trigger] c.order(a, b) != cmp::Ordering::Greater && #[trigger] c.order(b, d)
            != cmp::Ordering::Greater implies c.order(a, d) != cmp::Ordering::Greater by {
        if c.order(a, d) == cmp::Ordering::Greater {
            assert(c.order(d, a) == cmp::Ordering::Less);
            if c.order(a, b) == cmp::Ordering::Less {
                assert(c.order(d, b) == cmp::Ordering::Less);
                assert(c.order(b, d) == cmp::Ordering::Greater);
            } else {
                assert(c.order(a, b) == cmp::Ordering::Equal);
                if c.order(b, d) == cmp::Ordering::Less {
                    assert(c.order(b, a) == cmp::Ordering::Equal);
                    assert(c.order(b, d) == cmp::Ordering::Less);
                    assert(c.order(d, b) == cmp::Ordering::Greater);
                    assert(c.order(d, a) == cmp::Ordering::Less);
                    assert(c.order(a, d) == cmp::Ordering::Greater);
                    assert(c.order(d, b) != cmp::Ordering::Less);
                    // d < a and a == b give d < b
                    if c.order(d, b) == cmp::Ordering::Equal {
                        assert(c.order(b, d) == cmp::Ordering::Equal);
                    }
                } else {
                    assert(c.order(b, d) == cmp::Ordering::Equal);
                    assert(c.order(a, d) == cmp::Ordering::Equal);
                }
            }
        }
    }
    assert forall|a: T, b: T, d: T|
        #[trigger] c.order(a, b) != cmp::Ordering::Less && #[trigger] c.order(b, d)
            != cmp::Ordering::Less implies c.order(a, d) != cmp::Ordering::Less by {
        if c.order(a, d) == cmp::Ordering::Less {
            assert(c.order(d, a) == cmp::Ordering::Greater);
            if c.order(a, b) == cmp::Ordering::Greater {
                assert(c.order(b, a) == cmp::Ordering::Less);
                assert(c.order(b, d) == cmp::Ordering::Less);
            } else {
                assert(c.order(a, b) == cmp::Ordering::Equal);
                if c.order(b, d) == cmp::Ordering::Greater {
                    assert(c.order(d, b) == cmp::Ordering::Less);
                    assert(c.order(b, a) == cmp::Ordering::Equal);
                    if c.order(d, a) == cmp::Ordering::Equal {
                        assert(c.order(d, b) == cmp::Ordering::Equal);
                    }
                    assert(c.order(a, d) != cmp::Ordering::Less);
                } else {
                    assert(c.order(b, d) == cmp::Ordering::Equal);
                    assert(c.order(a, d) == cmp::Ordering::Equal);
                }
            }
        }
    }
}

/// A max heap: larger elements are on top and are popped first.
pub struct MaxHeap<C = Natural>(C);

impl<T, C: Cmp<T>> Ordering<T> for MaxHeap<C> {
    closed spec fn prefers(&self, a: T, b: T) -> bool {
        self.0.order(a, b) == cmp::Ordering::Greater
    }

    closed spec fn lawful(&self) -> bool {
        self.0.lawful()
    }

    proof fn lemma_strict_weak_order(&self) {
        lemma_cmp_derived::<T, C>(&self.0);
    }

    fn should_sift_up(&self, elt: &T, parent: &T) -> (r: bool) {
        match self.0.cmp(elt, parent) {
            cmp::Ordering::Greater => true,
            _ => false,
        }
    }

    fn should_sift_down(&self, elt: &T, child: &T) -> (r: bool) {
        let r = match self.0.cmp(elt, child) {
            cmp::Ordering::Less => true,
            _ => false,
        };
        proof {
            self.0.lemma_total_preorder();
        }
        r
    }
}

/// A min heap: smaller elements are on top and are popped first.
pub struct MinHeap<C = Natural>(C);

impl<T, C: Cmp<T>> Ordering<T> for MinHeap<C> {
    closed spec fn prefers(&self, a: T, b: T) -> bool {
        self.0.order(a, b) == cmp::Ordering::Less
    }

    closed spec fn lawful(&self) -> bool {
        self.0.lawful()
    }

    proof fn lemma_strict_weak_order(&self) {
        lemma_cmp_derived::<T, C>(&self.0);
        self.0.lemma_total_preorder();
    }

    fn should_sift_up(&self, elt: &T, parent: &T) -> (r: bool) {
        match self.0.cmp(elt, parent) {
            cmp::Ordering::Less => true,
            _ => false,
        }
    }

    fn should_sift_down(&self, elt: &T, child: &T) -> (r: bool) {
        let r = match self.0.cmp(elt, child) {
            cmp::Ordering::Greater => true,
            _ => false,
        };
        proof {
            self.0.lemma_total_preorder();
        }
        r
    }
}

impl MaxHeap {
    /// A max heap ordered by the elements' own `Ord`.
    pub fn natural() -> (r: MaxHeap) {
        MaxHeap(Natural)
    }

    /// Under the natural order an element belongs above another exactly when
    /// it is larger, and the order is lawful exactly when `T`'s `Ord` is.
    pub proof fn lemma_natural<T: Ord>(self, a: T, b: T)
        ensures
            <MaxHeap as Ordering<T>>::prefers(&self, a, b) == (a.cmp_spec(&b) == cmp::Ordering::Greater),
            <MaxHeap as Ordering<T>>::lawful(&self) == obeys_cmp::<T>(),
    {
    }
}

impl MinHeap {
    /// A min heap ordered by the elements' own `Ord`.
    pub fn natural() -> (r: MinHeap) {
        MinHeap(Natural)
    }

    /// Under the natural order an element belongs above another exactly when
    /// it is smaller, and the order is lawful exactly when `T`'s `Ord` is.
    pub proof fn lemma_natural<T: Ord>(self, a: T, b: T)
        ensures
            <MinHeap as Ordering<T>>::prefers(&self, a, b) == (a.cmp_spec(&b) == cmp::Ordering::Less),
            <MinHeap as Ordering<T>>::lawful(&self) == obeys_cmp::<T>(),
    {
    }
}

/// The natural order of a type, given by its `Ord` implementation.
#[derive(Clone, Copy)]
pub struct Natural;

impl Default for Natural {
    fn default() -> (r: Self)
        ensures
            r == Natural,
    {
        Natural
    }
}

impl<C: Default> Default for MaxHeap<C> {
    fn default() -> (r: Self)
        ensures
            call_ensures(C::default, (), r.strategy()),
    {
        MaxHeap(C::default())
    }
}

impl<C: Default> Default for MinHeap<C> {
    fn default() -> (r: Self)
        ensures
            call_ensures(C::default, (), r.strategy()),
    {
        MinHeap(C::default())
    }
}

impl<C> MaxHeap<C> {
    /// The comparison the heap is ordered by.
    pub closed spec fn strategy(&self) -> C {
        self.0
    }

    /// Two orderings with the same comparison are the same.
    pub proof fn lemma_same_strategy(self, other: Self)
        requires
            self.strategy() == other.strategy(),
        ensures
            self == other,
    {
    }
}

impl<C> MinHeap<C> {
    /// The comparison the heap is ordered by.
    pub closed spec fn strategy(&self) -> C {
        self.0
    }

    /// Two orderings with the same comparison are the same.
    pub proof fn lemma_same_strategy(self, other: Self)
        requires
            self.strategy() == other.strategy(),
        ensures
            self == other,
    {
    }
}

impl<T: Ord> Cmp<T> for Natural {
    open spec fn order(&self, a: T, b: T) -> cmp::Ordering {
        a.cmp_spec(&b)
    }

    open spec fn lawful(&self) -> bool {
        obeys_cmp::<T>()
    }

    proof fn lemma_total_preorder(&self) {
        reveal(obeys_cmp_ord);
        reveal(obeys_cmp_partial_ord);
        reveal(obeys_partial_cmp_spec_properties);
        reveal(obeys_eq_spec_properties);
        assert forall|a: T, b: T|
            (#[trigger] a.cmp_spec(&b) == cmp::Ordering::Less) == (b.cmp_spec(&a)
                == cmp::Ordering::Greater) by {
            assert(a.partial_cmp_spec(&b) == Some(a.cmp_spec(&b)));
            assert(b.partial_cmp_spec(&a) == Some(b.cmp_spec(&a)));
        }
        assert forall|a: T, b: T|
            (#[trigger] a.cmp_spec(&b) == cmp::Ordering::Equal) implies (b.cmp_spec(&a)
                == cmp::Ordering::Equal) by {
            assert(a.partial_cmp_spec(&b) == Some(a.cmp_spec(&b)));
            assert(b.partial_cmp_spec(&a) == Some(b.cmp_spec(&a)));
            assert(a.eq_spec(&b));
            assert(b.eq_spec(&a));
        }
        assert forall|a: T, b: T, c: T|
            #[trigger] a.cmp_spec(&b) == cmp::Ordering::Less && #[trigger] b.cmp_spec(&c)
                == cmp::Ordering::Less implies a.cmp_spec(&c) == cmp::Ordering::Less by {
            assert(a.partial_cmp_spec(&b) == Some(a.cmp_spec(&b)));
            assert(b.partial_cmp_spec(&c) == Some(b.cmp_spec(&c)));
            assert(a.partial_cmp_spec(&c) == Some(a.cmp_spec(&c)));
        }
        assert forall|a: T, b: T, c: T|
            #[trigger] a.cmp_spec(&b) == cmp::Ordering::Equal && #[trigger] b.cmp_spec(&c)
                == cmp::Ordering::Equal implies a.cmp_spec(&c) == cmp::Ordering::Equal by {
            assert(a.partial_cmp_spec(&b) == Some(a.cmp_spec(&b)));
            assert(b.partial_cmp_spec(&c) == Some(b.cmp_spec(&c)));
            assert(a.partial_cmp_spec(&c) == Some(a.cmp_spec(&c)));
            assert(a.eq_spec(&b));
            assert(b.eq_spec(&c));
            assert(a.eq_spec(&c));
        }
    }

    fn cmp(&self, a: &T, b: &T) -> (r: cmp::Ordering) {
        proof {
            reveal(obeys_cmp_ord);
        }
        a.cmp(b)
    }
}

/// What a comparison function returns for `a` and `b`.
pub open spec fn cmp_result<T, F: Fn(&T, &T) -> cmp::Ordering>(f: F, a: T, b: T) -> cmp::Ordering {
    choose|o: cmp::Ordering| call_ensures(f, (&a, &b), o)
}

/// The key function `f` gives `a`.
pub open spec fn key_result<T, K, F: Fn(&T) -> K>(f: F, a: T) -> K {
    choose|k: K| call_ensures(f, (&a,), k)
}

/// A comparison function that can be called on any two elements, always
/// gives the same answer for them, and orders them in a total preorder.
pub open spec fn cmp_fn_lawful<T, F: Fn(&T, &T) -> cmp::Ordering>(f: F) -> bool {
    &&& forall|a: T, b: T| call_requires(f, (&a, &b))
    &&& forall|a: T, b: T, o: cmp::Ordering|
        #[trigger] call_ensures(f, (&a, &b), o) ==> o == cmp_result(f, a, b)
    &&& forall|a: T, b: T|
        (#[trigger] cmp_result(f, a, b) == cmp::Ordering::Less) == (cmp_result(f, b, a)
            == cmp::Ordering::Greater)
    &&& forall|a: T, b: T|
        (#[trigger] cmp_result(f, a, b) == cmp::Ordering::Equal) ==> (cmp_result(f, b, a)
            == cmp::Ordering::Equal)
    &&& forall|a: T, b: T, c: T|
        #[trigger] cmp_result(f, a, b) == cmp::Ordering::Less && #[trigger] cmp_result(f, b, c)
            == cmp::Ordering::Less ==> cmp_result(f, a, c) == cmp::Ordering::Less
    &&& forall|a: T, b: T, c: T|
        #[trigger] cmp_result(f, a, b) == cmp::Ordering::Equal && #[trigger] cmp_result(f, b, c)
            == cmp::Ordering::Equal ==> cmp_result(f, a, c) == cmp::Ordering::Equal
}

/// A key function that can be called on any element, always gives the same
/// key for it, and whose keys have a lawful `Ord`.
pub open spec fn key_fn_lawful<T, K: Ord, F: Fn(&T) -> K>(f: F) -> bool {
    &&& forall|a: T| call_requires(f, (&a,))
    &&& forall|a: T, k: K| #[trigger] call_ensures(f, (&a,), k) ==> k == key_result(f, a)
    &&& obeys_cmp::<K>()
}

/// Order by a comparison function.
pub struct ByCmp<F>(F);

impl<T, F: Fn(&T, &T) -> cmp::Ordering> Cmp<T> for ByCmp<F> {
    closed spec fn order(&self, a: T, b: T) -> cmp::Ordering {
        cmp_result(self.0, a, b)
    }

    closed spec fn lawful(&self) -> bool {
        cmp_fn_lawful(self.0)
    }

    proof fn lemma_total_preorder(&self) {
    }

    fn cmp(&self, a: &T, b: &T) -> (r: cmp::Ordering) {
        (self.0)(a, b)
    }
}

/// Order by a key extracted from each element.
pub struct ByKey<F>(F);

impl<T, K: Ord, F: Fn(&T) -> K> Cmp<T> for ByKey<F> {
    closed spec fn order(&self, a: T, b: T) -> cmp::Ordering {
        key_result(self.0, a).cmp_spec(&key_result(self.0, b))
    }

    closed spec fn lawful(&self) -> bool {
        key_fn_lawful(self.0)
    }

    proof fn lemma_total_preorder(&self) {
        <Natural as Cmp<K>>::lemma_total_preorder(&Natural);
        let f = self.0;
        assert forall|a: T, b: T|
            (#[trigger] self.order(a, b) == cmp::Ordering::Less) == (self.order(b, a)
                == cmp::Ordering::Greater) by {
            assert(<Natural as Cmp<K>>::order(&Natural, key_result(f, a), key_result(f, b)) == self.order(a, b));
        }
        assert forall|a: T, b: T|
            (#[trigger] self.order(a, b) == cmp::Ordering::Equal) implies (self.order(b, a)
                == cmp::Ordering::Equal) by {
            assert(<Natural as Cmp<K>>::order(&Natural, key_result(f, a), key_result(f, b)) == self.order(a, b));
        }
        assert forall|a: T, b: T, c: T|
            #[trigger] self.order(a, b) == cmp::Ordering::Less && #[trigger] self.order(b, c)
                == cmp::Ordering::Less implies self.order(a, c) == cmp::Ordering::Less by {
            assert(<Natural as Cmp<K>>::order(&Natural, key_result(f, a), key_result(f, b)) == self.order(a, b));
            assert(<Natural as Cmp<K>>::order(&Natural, key_result(f, b), key_result(f, c)) == self.order(b, c));
        }
        assert forall|a: T, b: T, c: T|
            #[trigger] self.order(a, b) == cmp::Ordering::Equal && #[trigger] self.order(b, c)
                == cmp::Ordering::Equal implies self.order(a, c) == cmp::Ordering::Equal by {
            assert(<Natural as Cmp<K>>::order(&Natural, key_result(f, a), key_result(f, b)) == self.order(a, b));
            assert(<Natural as Cmp<K>>::order(&Natural, key_result(f, b), key_result(f, c)) == self.order(b, c));
        }
    }

    fn cmp(&self, a: &T, b: &T) -> (r: cmp::Ordering) {
        let ka = (self.0)(a);
        let kb = (self.0)(b);
        proof {
            reveal(obeys_cmp_ord);
        }
        ka.cmp(&kb)
    }
}

impl MaxHeap {
    /// A max heap ordered by a comparison function, which plays the part of
    /// `Ord::cmp`.
    pub fn by<T, F: Fn(&T, &T) -> cmp::Ordering>(cmp: F) -> (r: MaxHeap<ByCmp<F>>)
        ensures
            <MaxHeap<ByCmp<F>> as Ordering<T>>::lawful(&r) == cmp_fn_lawful(cmp),
            forall|a: T, b: T|
                <MaxHeap<ByCmp<F>> as Ordering<T>>::prefers(&r, a, b) == (cmp_result(cmp, a, b)
                    == cmp::Ordering::Greater),
    {
        MaxHeap(ByCmp(cmp))
    }

    /// A max heap ordered by a key of each element: larger keys come first.
    pub fn by_key<T, K: Ord, F: Fn(&T) -> K>(key: F) -> (r: MaxHeap<ByKey<F>>)
        ensures
            <MaxHeap<ByKey<F>> as Ordering<T>>::lawful(&r) == key_fn_lawful(key),
            forall|a: T, b: T|
                <MaxHeap<ByKey<F>> as Ordering<T>>::prefers(&r, a, b) == (key_result(
                    key,
                    a,
                ).cmp_spec(&key_result(key, b)) == cmp::Ordering::Greater),
    {
        MaxHeap(ByKey(key))
    }
}

impl MinHeap {
    /// A min heap ordered by a comparison function, which plays the part of
    /// `Ord::cmp`.
    pub fn by<T, F: Fn(&T, &T) -> cmp::Ordering>(cmp: F) -> (r: MinHeap<ByCmp<F>>)
        ensures
            <MinHeap<ByCmp<F>> as Ordering<T>>::lawful(&r) == cmp_fn_lawful(cmp),
            forall|a: T, b: T|
                <MinHeap<ByCmp<F>> as Ordering<T>>::prefers(&r, a, b) == (cmp_result(cmp, a, b)
                    == cmp::Ordering::Less),
    {
        MinHeap(ByCmp(cmp))
    }

    /// A min heap ordered by a key of each element: smaller keys come first.
    pub fn by_key<T, K: Ord, F: Fn(&T) -> K>(key: F) -> (r: MinHeap<ByKey<F>>)
        ensures
            <MinHeap<ByKey<F>> as Ordering<T>>::lawful(&r) == key_fn_lawful(key),
            forall|a: T, b: T|
                <MinHeap<ByKey<F>> as Ordering<T>>::prefers(&r, a, b) == (key_result(
                    key,
                    a,
                ).cmp_spec(&key_result(key, b)) == cmp::Ordering::Less),
    {
        MinHeap(ByKey(key))
    }
}

} // verus!
