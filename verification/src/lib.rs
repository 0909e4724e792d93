//! A static-size segment tree: point assignment and associative range
//! aggregation over a fixed-capacity indexed sequence.
//!
//! The generic structure lives in [`generic`]; the combining operator is
//! supplied as a [`generic::Monoid`] implementation. [`monoids`] provides two
//! such operators: wrapping addition on `i32` and sequence concatenation on
//! `Vec<i64>`. This root module offers the classic special case, a sum
//! segment tree over `i32`.

use vstd::prelude::*;

pub mod generic;
pub mod monoids;

use crate::generic::SegTreeError;

verus! {

/// A segment tree over `i32` whose aggregate is the (wrapping) sum.
pub struct SegmentTree {
    inner: generic::SegmentTree<i32>,
}

impl SegmentTree {
    /// Number of logical slots (the smallest power of two at or above the
    /// size requested at construction).
    pub closed spec fn capacity(&self) -> int {
        self.inner.capacity()
    }

    /// The current leaf values, one per logical slot.
    pub closed spec fn leaves(&self) -> Seq<i32> {
        self.inner.leaves()
    }

    /// The structure is valid: every internal node holds the combine of its
    /// two children.
    pub closed spec fn wf(&self) -> bool {
        self.inner.wf()
    }

    /// The view of raw storage cell `k` (leaves and internal nodes alike).
    pub closed spec fn node_value(&self, k: int) -> i32 {
        self.inner.node_value(k)
    }

    /// Builds a sum tree with at least `size` logical slots, every slot
    /// holding `0`.
    pub fn new(size: usize) -> (t: Self)
        requires
            size <= usize::MAX / 4,
        ensures
            t.wf(),
            generic::is_pow2(t.capacity()),
            t.capacity() >= size,
            t.capacity() == 1 || t.capacity() < 2 * size,
            t.leaves() == Seq::new(t.capacity() as nat, |k: int| 0i32),
    {
        let inner = generic::SegmentTree::<i32>::new(size);
        proof {
            assert(inner.leaves() =~= Seq::new(inner.capacity() as nat, |k: int| 0i32));
        }
        SegmentTree { inner }
    }

    /// Stores `x` at logical slot `i` and repairs every ancestor, or reports
    /// `OutOfBounds` (leaving the tree unchanged) when `i` is not a slot.
    pub fn assign(&mut self, i: usize, x: i32) -> (res: Result<(), SegTreeError>)
        requires
            old(self).wf(),
        ensures
            final(self).wf(),
            final(self).capacity() == old(self).capacity(),
            match res {
                Ok(()) => i < old(self).capacity()
                    && final(self).leaves() == old(self).leaves().update(i as int, x),
                Err(e) => e == SegTreeError::OutOfBounds && i >= old(self).capacity()
                    && *final(self) == *old(self),
            },
    {
        self.inner.assign(i, x)
    }

    /// The wrapping sum of slots `i..=j`, or the error that says which bound
    /// was bad: `OutOfBounds` when an endpoint is not a slot, `InvalidRange`
    /// when both are slots but `i > j`.
    pub fn range_sum(&self, i: usize, j: usize) -> (res: Result<i32, SegTreeError>)
        requires
            self.wf(),
        ensures
            match res {
                Ok(t) => i <= j && j < self.capacity() && t == generic::fold_range::<i32>(
                    self.leaves(),
                    i as int,
                    j as int,
                ),
                Err(SegTreeError::OutOfBounds) => i >= self.capacity() || j >= self.capacity(),
                Err(SegTreeError::InvalidRange) => i < self.capacity() && j < self.capacity() && i
                    > j,
            },
    {
        self.inner.range_sum(i, j)
    }

    /// [`Self::range_sum`] with the span given as a pair of bounds, first
    /// normalized to a closed endpoint pair (see [`generic::norm_start`] and
    /// [`generic::norm_end`]) and then checked exactly as `range_sum` checks
    /// its arguments; nothing is silently clamped.
    pub fn range_sum_bounds(&self, start: generic::SpanBound, end: generic::SpanBound) -> (res:
        Result<i32, SegTreeError>)
        requires
            self.wf(),
        ensures
            ({
                let qi = generic::norm_start(start);
                let qj = generic::norm_end(end, self.capacity());
                match res {
                    Ok(t) => 0 <= qi && qi <= qj && qj < self.capacity() && t
                        == generic::fold_range::<i32>(self.leaves(), qi, qj),
                    Err(SegTreeError::OutOfBounds) => qi >= self.capacity() || qj
                        >= self.capacity(),
                    Err(SegTreeError::InvalidRange) => qi < self.capacity() && qj < self.capacity()
                        && qi > qj,
                }
            }),
    {
        self.inner.range_sum_bounds(start, end)
    }

    /// The raw storage cell `k` (internal nodes included), for diagnostics;
    /// `None` when `k` is outside the storage.
    pub fn storage_at(&self, k: usize) -> (res: Option<i32>)
        requires
            self.wf(),
        ensures
            match res {
                Some(v) => k < 2 * self.capacity() && v == self.node_value(k as int),
                None => k >= 2 * self.capacity(),
            },
    {
        self.inner.node_at(k)
    }

    /// The raw storage length, `2 * capacity`.
    pub fn storage_len(&self) -> (len: usize)
        requires
            self.wf(),
        ensures
            len == 2 * self.capacity(),
    {
        self.inner.storage_len()
    }
}

/// Builds a sum tree with at least `size` logical slots; the free-function
/// form of [`SegmentTree::new`].
pub fn new(size: usize) -> (t: SegmentTree)
    requires
        size <= usize::MAX / 4,
    ensures
        t.wf(),
        generic::is_pow2(t.capacity()),
        t.capacity() >= size,
        t.capacity() == 1 || t.capacity() < 2 * size,
        t.leaves() == Seq::new(t.capacity() as nat, |k: int| 0i32),
{
    SegmentTree::new(size)
}

} // verus!
