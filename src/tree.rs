//! Navigation in the implicit complete binary tree of a storage: the slot at
//! position `p` has its children at `2p + 1` and `2p + 2` and its parent at
//! `(p - 1) / 2`.
use crate::storage::Storage;
use core::ops::Range;
use vstd::prelude::*;

verus! {

/// The parent position of `i` (for `i > 0`).
pub open spec fn parent_of(i: int) -> int {
    (i - 1) / 2
}

/// The position of child `k` (0 or 1) of `i`.
pub open spec fn child_of(i: int, k: int) -> int {
    2 * i + 1 + k
}

/// The number of children of `i` in a tree of `len` slots.
pub open spec fn children_count(len: int, i: int) -> int {
    let first = 2 * i + 1;
    if len <= first {
        0
    } else if len - first >= 2 {
        2
    } else {
        1
    }
}

/// The floor of the binary logarithm of `x`, for `x >= 1`.
pub open spec fn log2(x: nat) -> nat
    decreases x,
{
    if x <= 1 {
        0
    } else {
        1 + log2(x / 2)
    }
}

/// Whether, after slots `start..len` were appended to a heap of `start`
/// slots, rebuilding the whole heap is cheaper than sifting up each new
/// slot.
pub open spec fn rebuild_preferred(len: int, start: int) -> bool {
    let tail = len - start;
    if tail >= start {
        true
    } else if len <= 2048 {
        2 * len < tail * log2(start as nat)
    } else {
        2 * len < tail * 11
    }
}

pub fn root<S: Storage + ?Sized>(data: &S) -> (r: Option<usize>)
    ensures
        r == (if data.slots().len() != 0 {
            Some(0usize)
        } else {
            None
        }),
{
    if data.len() != 0 {
        Some(0)
    } else {
        None
    }
}

/// The parent of a node; never the node itself.
pub fn parent<S: Storage + ?Sized>(_data: &S, pos: usize) -> (r: Option<usize>)
    ensures
        r == (if pos == 0 {
            None
        } else {
            Some(parent_of(pos as int) as usize)
        }),
{
    if pos == 0 {
        None
    } else {
        Some((pos - 1) / 2)
    }
}

/// Child `index` of a node, if it is within the tree; never the node itself.
pub fn child<S: Storage + ?Sized>(data: &S, pos: usize, index: usize) -> (r: Option<usize>)
    requires
        index < 2,
    ensures
        r == (if child_of(pos as int, index as int) < data.slots().len() {
            Some(child_of(pos as int, index as int) as usize)
        } else {
            None
        }),
{
    let len = data.len();
    if pos >= len / 2 {
        return None;
    }
    let child = 2 * pos + 1 + index;
    if child < len {
        Some(child)
    } else {
        None
    }
}

/// A node, or its next sibling when `cond` holds.
pub fn select_sibling<S: Storage + ?Sized>(_data: &S, pos: usize, cond: bool) -> (r: Option<usize>)
    requires
        pos < usize::MAX,
    ensures
        r == Some((if cond {
            pos + 1
        } else {
            pos as int
        }) as usize),
{
    Some(pos + (cond as usize))
}

/// Whether a node has both of its children.
pub fn is_whole_node<S: Storage + ?Sized>(data: &S, pos: usize) -> (r: bool)
    ensures
        r == (child_of(pos as int, 1) < data.slots().len()),
{
    child(data, pos, 1).is_some()
}

/// How many children a node has: 0, 1 or 2.
pub fn nchildren<S: Storage + ?Sized>(data: &S, pos: usize) -> (r: usize)
    ensures
        r == children_count(data.slots().len() as int, pos as int),
{
    let len = data.len();
    if pos >= len / 2 {
        return 0;
    }
    let first = 2 * pos + 1;
    let s = len.saturating_sub(first);
    if s < 2 {
        s
    } else {
        2
    }
}

/// The positions of a node's children, in order.
pub fn children<S: Storage + ?Sized>(data: &S, pos: usize) -> (r: Range<usize>)
    ensures
        r.start == child_of(pos as int, 0) || children_count(data.slots().len() as int, pos as int)
            == 0,
        r.end - r.start == children_count(data.slots().len() as int, pos as int),
{
    let len = data.len();
    let n = nchildren(data, pos);
    if n == 0 {
        return 0..0;
    }
    let first = 2 * pos + 1;
    first..first + n
}

/// The positions that can have children, which a full rebuild sifts down.
pub fn rebuild_range<S: Storage + ?Sized>(data: &S) -> (r: Range<usize>)
    ensures
        r.start == 0,
        r.end == data.slots().len() / 2,
{
    let len = data.len();
    let n = len / 2;
    0..n
}

/// Whether it is better to rebuild the whole heap than to sift up the slots
/// from `start` on.
pub fn better_to_rebuild<S: Storage + ?Sized>(data: &S, start: usize) -> (r: bool)
    requires
        start <= data.slots().len(),
    ensures
        r == rebuild_preferred(data.slots().len() as int, start as int),
{
    let len = data.len();
    let tail_len = len - start;
    // Rebuilding costs about 2 * len comparisons; sifting up each new slot
    // about tail_len * log2(start). For larger heaps the crossover was
    // found by measurement instead.
    if tail_len >= start {
        true
    } else if len <= 2048 {
        let l = log2_fast(start);
        proof {
            vstd::arithmetic::power2::lemma2_to64();
            lemma_log2_le(start as nat, 11);
            assert(tail_len * l <= 2048 * 11) by (nonlinear_arith)
                requires
                    tail_len <= 2048,
                    l <= 11,
            ;
        }
        2 * len < tail_len * l
    } else {
        (2 * (len as u128)) < (tail_len as u128) * 11
    }
}

/// `log2(x) <= k` whenever `x < 2^(k+1)`.
proof fn lemma_log2_le(x: nat, k: nat)
    requires
        x <= vstd::arithmetic::power2::pow2(k),
    ensures
        log2(x) <= k,
    decreases x,
{
    vstd::arithmetic::power2::lemma2_to64();
    if x > 1 {
        if k == 0 {
            assert(vstd::arithmetic::power2::pow2(0) == 1);
        } else {
            vstd::arithmetic::power2::lemma_pow2_unfold(k);
            lemma_log2_le(x / 2, (k - 1) as nat);
        }
    }
}

proof fn lemma_log2_le_self(x: nat)
    requires
        x >= 1,
    ensures
        log2(x) <= x,
    decreases x,
{
    if x > 1 {
        lemma_log2_le_self(x / 2);
    }
}

/// The floor of the binary logarithm of `x`.
fn log2_fast(x: usize) -> (r: usize)
    requires
        x >= 1,
    ensures
        r == log2(x as nat),
{
    proof {
        lemma_log2_le_self(x as nat);
    }
    let mut v: usize = x;
    let mut r: usize = 0;
    while v > 1
        invariant
            v >= 1,
            r + log2(v as nat) == log2(x as nat),
            log2(x as nat) <= x,
        decreases v,
    {
        v = v / 2;
        r = r + 1;
    }
    r
}

} // verus!
