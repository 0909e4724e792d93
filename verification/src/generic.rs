//! The generic segment tree: an array-backed implicit binary tree over a
//! caller-supplied associative combining operator with identity.
//!
//! Storage uses the 1-based binary-heap layout: the root is cell 1, cell `v`
//! has children `2v` and `2v + 1`, and the leaf for logical slot `i` is cell
//! `capacity + i`, where `capacity` is a power of two. Cell 0 is unused.

use vstd::prelude::*;

verus! {

/// The combining structure the tree is parametric over: an associative
/// binary operator `op` with identity `id` on the view of the element type,
/// together with the executable functions that realize them.
///
/// Implementations must prove associativity and the identity laws; the tree's
/// contracts are stated over `op` and `id` and hold for any lawful
/// implementation, commutative or not.
pub trait Monoid: View + Sized {
    /// The identity element, as a view-level value.
    spec fn id() -> Self::V;

    /// The combining operator, as a view-level function.
    spec fn op(a: Self::V, b: Self::V) -> Self::V;

    /// `op` is associative.
    proof fn lemma_assoc(a: Self::V, b: Self::V, c: Self::V)
        ensures
            Self::op(Self::op(a, b), c) == Self::op(a, Self::op(b, c)),
    ;

    /// `id` is a left identity of `op`.
    proof fn lemma_id_left(a: Self::V)
        ensures
            Self::op(Self::id(), a) == a,
    ;

    /// `id` is a right identity of `op`.
    proof fn lemma_id_right(a: Self::V)
        ensures
            Self::op(a, Self::id()) == a,
    ;

    /// Produces the identity element.
    fn identity() -> (r: Self)
        ensures
            r@ == Self::id(),
    ;

    /// Applies the combining operator.
    fn combine(a: &Self, b: &Self) -> (r: Self)
        ensures
            r@ == Self::op(a@, b@),
    ;

    /// Copies an element (the element type must be copyable or cloneable).
    fn duplicate(a: &Self) -> (r: Self)
        ensures
            r@ == a@,
    ;
}

/// Which precondition of an operation was violated.
#[derive(Clone, Copy, Debug, PartialEq, Eq, Structural)]
pub enum SegTreeError {
    /// An index or range endpoint falls outside `[0, capacity)`.
    OutOfBounds,
    /// A query range whose start exceeds its end.
    InvalidRange,
}

/// One end of a queried span, before normalization to a closed endpoint
/// pair.
#[derive(Clone, Copy, Debug, PartialEq, Eq, Structural)]
pub enum SpanBound {
    /// The endpoint itself belongs to the span.
    Included(usize),
    /// The span begins or ends beside this endpoint, which is left out.
    Excluded(usize),
    /// The span runs to the corresponding edge of the slots.
    Unbounded,
}

/// The closed start index a span bound normalizes to: an excluded start `i`
/// becomes `i + 1`, an unbounded start becomes `0`.
pub open spec fn norm_start(b: SpanBound) -> int {
    match b {
        SpanBound::Included(i) => i as int,
        SpanBound::Excluded(i) => i as int + 1,
        SpanBound::Unbounded => 0,
    }
}

/// The closed end index a span bound normalizes to: an excluded end `j`
/// becomes `j - 1`, an unbounded end becomes `capacity - 1`.
pub open spec fn norm_end(b: SpanBound, capacity: int) -> int {
    match b {
        SpanBound::Included(j) => j as int,
        SpanBound::Excluded(j) => j as int - 1,
        SpanBound::Unbounded => capacity - 1,
    }
}

/// `n` is a positive power of two.
pub open spec fn is_pow2(n: int) -> bool
    decreases n,
{
    if n <= 0 {
        false
    } else if n == 1 {
        true
    } else {
        n % 2 == 0 && is_pow2(n / 2)
    }
}

/// The combine-fold of `s[i..=j]` in ascending index order, combined
/// left-to-right: `op(op(...op(s[i], s[i+1])..., s[j-1]), s[j])`.
pub open spec fn fold_range<T: Monoid>(s: Seq<T::V>, i: int, j: int) -> T::V
    decreases j - i,
    when i <= j
{
    if i >= j {
        s[i]
    } else {
        T::op(fold_range::<T>(s, i, j - 1), s[j])
    }
}

/// A fold over one slot is that slot's value: `range_sum(i, i)` returns
/// exactly what slot `i` holds.
pub proof fn lemma_fold_single<T: Monoid>(s: Seq<T::V>, i: int)
    requires
        0 <= i < s.len(),
    ensures
        fold_range::<T>(s, i, i) == s[i],
{
}

/// Splitting law: a fold over `[i, j]` equals the combine of the folds over
/// `[i, m]` and `[m + 1, j]`, for any split point `i <= m < j`.
pub proof fn lemma_fold_split<T: Monoid>(s: Seq<T::V>, i: int, m: int, j: int)
    requires
        0 <= i <= m < j < s.len(),
    ensures
        fold_range::<T>(s, i, j) == T::op(
            fold_range::<T>(s, i, m),
            fold_range::<T>(s, m + 1, j),
        ),
    decreases j - m,
{
    if m == j - 1 {
    } else {
        lemma_fold_split::<T>(s, i, m, j - 1);
        T::lemma_assoc(fold_range::<T>(s, i, m), fold_range::<T>(s, m + 1, j - 1), s[j]);
    }
}

/// Idempotence of assignment at the model level: writing the same value to
/// the same slot twice leaves exactly the leaves that one write leaves, so
/// every subsequent query (a function of the leaves alone) agrees.
pub proof fn lemma_assign_idempotent<T: Monoid>(s: Seq<T::V>, i: int, x: T::V)
    requires
        0 <= i < s.len(),
    ensures
        s.update(i, x).update(i, x) == s.update(i, x),
{
    assert(s.update(i, x).update(i, x) =~= s.update(i, x));
}

/// The segment tree proper: `n` logical slots (`n` a power of two) backed by
/// `2n` storage cells in binary-heap layout.
pub struct SegmentTree<T: Monoid> {
    n: usize,
    arr: Vec<T>,
}

impl<T: Monoid> SegmentTree<T> {
    /// Number of logical slots (the smallest power of two at or above the
    /// size requested at construction).
    pub closed spec fn capacity(&self) -> int {
        self.n as int
    }

    /// The view of storage cell `v` (leaves and internal nodes alike).
    pub closed spec fn node_value(&self, v: int) -> T::V {
        self.arr@[v]@
    }

    /// The current leaf values, one per logical slot: slot `i` lives in
    /// storage cell `capacity + i`.
    pub closed spec fn leaves(&self) -> Seq<T::V> {
        Seq::new(self.n as nat, |k: int| self.node_value(self.n + k))
    }

    /// Internal cell `v` holds the combine of its two children.
    spec fn node_ok(&self, v: int) -> bool {
        self.node_value(v) == T::op(self.node_value(2 * v), self.node_value(2 * v + 1))
    }

    /// The structure is valid: the capacity is a power of two, the storage
    /// holds `2 * capacity` cells, and every internal node holds the combine
    /// of its two children.
    pub closed spec fn wf(&self) -> bool {
        &&& is_pow2(self.n as int)
        &&& self.n <= usize::MAX / 2
        &&& self.arr@.len() == 2 * self.n as int
        &&& forall|v: int| 1 <= v < self.n as int ==> #[trigger] self.node_ok(v)
    }

    /// The node invariant, as a law: in a valid tree every internal node
    /// holds the combine of its children. `new` and `assign` ensure `wf`, so
    /// this holds after every assignment.
    pub proof fn lemma_node_invariant(&self, v: int)
        requires
            self.wf(),
            1 <= v < self.capacity(),
        ensures
            self.node_value(v) == T::op(self.node_value(2 * v), self.node_value(2 * v + 1)),
    {
        assert(self.node_ok(v));
    }

    /// Builds a tree with at least `size` logical slots, every storage cell
    /// holding the identity. A `size` of zero yields capacity 1.
    pub fn new(size: usize) -> (t: Self)
        requires
            size <= usize::MAX / 4,
        ensures
            t.wf(),
            is_pow2(t.capacity()),
            t.capacity() >= size,
            t.capacity() == 1 || t.capacity() < 2 * size,
            t.leaves() == Seq::new(t.capacity() as nat, |k: int| T::id()),
    {
        let n = super_ceiling(size);
        let bound = 2 * n;
        let mut arr: Vec<T> = Vec::new();
        while arr.len() < bound
            invariant
                arr@.len() <= bound,
                forall|k: int| 0 <= k < arr@.len() ==> #[trigger] arr@[k]@ == T::id(),
            decreases bound - arr@.len(),
        {
            arr.push(T::identity());
        }
        let t = SegmentTree { n, arr };
        proof {
            assert forall|v: int| 1 <= v < n as int implies #[trigger] t.node_ok(v) by {
                T::lemma_id_left(T::id());
            }
            assert(t.leaves() =~= Seq::new(t.capacity() as nat, |k: int| T::id()));
        }
        t
    }

    /// Stores `x` at logical slot `i` (storage cell `capacity + i`) and walks
    /// from that leaf to the root, recomputing each ancestor as the combine
    /// of its two children; or reports `OutOfBounds` (leaving the tree
    /// unchanged) when `i` is not a slot. On success the whole node invariant
    /// holds again and only leaf `i` has changed.
    pub fn assign(&mut self, i: usize, x: T) -> (res: Result<(), SegTreeError>)
        requires
            old(self).wf(),
        ensures
            final(self).wf(),
            final(self).capacity() == old(self).capacity(),
            match res {
                Ok(()) => i < old(self).capacity()
                    && final(self).leaves() == old(self).leaves().update(i as int, x@),
                Err(e) => e == SegTreeError::OutOfBounds && i >= old(self).capacity()
                    && *final(self) == *old(self),
            },
    {
        if i >= self.n {
            return Err(SegTreeError::OutOfBounds);
        }
        let ghost xv = x@;
        let ghost n = self.n as int;
        let ghost leaf: int = n + i as int;
        let two_n = self.arr.len();
        let li = i + self.n;
        self.arr[li] = x;
        let mut v = parent(li);
        proof {
            // The leaf write established the invariant below: nothing off the
            // leaf-to-root path has changed, and no ancestor above the leaf's
            // parent has been repaired yet (there is none strictly between).
            assert(is_anc(leaf, leaf));
            if v >= 1 {
                lemma_anc_parent(leaf, leaf);
            }
            assert forall|u: int| 1 <= u < n && #[trigger] is_anc(u, leaf) && u > v as int implies
                self.node_ok(u) by {
                lemma_anc_le(u, leaf);
                lemma_anc_chain(u, leaf, leaf);
            }
        }
        while v > 0
            invariant
                self.n == old(self).n,
                n == self.n as int,
                leaf == n + i as int,
                i < self.n,
                two_n == 2 * n,
                self.arr@.len() == 2 * n,
                (v as int) < n,
                v >= 1 ==> is_anc(v as int, leaf),
                self.node_value(leaf) == xv,
                forall|w: int|
                    1 <= w < 2 * n && !(#[trigger] is_anc(w, leaf)) ==> self.node_value(w) == old(
                        self,
                    ).node_value(w),
                forall|u: int|
                    1 <= u < n && #[trigger] is_anc(u, leaf) && u > v as int ==> self.node_ok(u),
            decreases v,
        {
            let ghost vi = v as int;
            let lc = left_child(v);
            let rc = right_child(v);
            let c = T::combine(&self.arr[lc], &self.arr[rc]);
            self.arr[v] = c;
            v = parent(v);
            proof {
                if v >= 1 {
                    lemma_anc_parent(vi, leaf);
                }
                assert(self.node_ok(vi));
                assert forall|u: int| 1 <= u < n && #[trigger] is_anc(u, leaf) && u > v as int
                    implies self.node_ok(u) by {
                    if u < vi {
                        lemma_anc_chain(u, vi, leaf);
                    }
                }
            }
        }
        proof {
            assert forall|u: int| 1 <= u < n implies #[trigger] self.node_ok(u) by {
                if !is_anc(u, leaf) {
                    if is_anc(2 * u, leaf) {
                        lemma_anc_parent(2 * u, leaf);
                    }
                    if is_anc(2 * u + 1, leaf) {
                        lemma_anc_parent(2 * u + 1, leaf);
                    }
                    assert(old(self).node_ok(u));
                }
            }
            assert forall|k: int| 0 <= k < n && k != i as int implies #[trigger] self.node_value(
                n + k,
            ) == old(self).node_value(n + k) by {
                if is_anc(n + k, leaf) {
                    lemma_anc_le(n + k, leaf);
                    lemma_anc_chain(n + k, leaf, leaf);
                }
            }
            assert(self.leaves() =~= old(self).leaves().update(i as int, xv));
        }
        Ok(())
    }

    /// A copy of raw storage cell `k` (leaves and internal nodes alike), for
    /// diagnostics; `None` when `k` is outside the storage.
    pub fn node_at(&self, k: usize) -> (res: Option<T>)
        requires
            self.wf(),
        ensures
            match res {
                Some(t) => k < 2 * self.capacity() && t@ == self.node_value(k as int),
                None => k >= 2 * self.capacity(),
            },
    {
        if k < self.arr.len() {
            Some(T::duplicate(&self.arr[k]))
        } else {
            None
        }
    }

    /// The raw storage length, `2 * capacity`.
    pub fn storage_len(&self) -> (len: usize)
        requires
            self.wf(),
        ensures
            len == 2 * self.capacity(),
    {
        self.arr.len()
    }

    /// In a valid tree, the cell of a node whose subtree covers the leaf
    /// block `[l, r]` holds exactly the fold of those leaves. A node `v`
    /// covers `[l, r]` when the block size `r - l + 1` is a power of two and
    /// the leftmost leaf of `v`'s subtree, cell `v * (r - l + 1)`, is the
    /// cell of slot `l`.
    proof fn lemma_subtree_fold(&self, v: int, l: int, r: int)
        requires
            self.wf(),
            0 <= l <= r < self.capacity(),
            is_pow2(r - l + 1),
            v * (r - l + 1) == self.capacity() + l,
        ensures
            self.node_value(v) == fold_range::<T>(self.leaves(), l, r),
        decreases r - l,
    {
        let n = self.capacity();
        let s = r - l + 1;
        assert(v >= 1) by (nonlinear_arith)
            requires
                v * s == n + l,
                s >= 1,
                n + l >= 1,
        ;
        if l == r {
            assert(v * s == v) by (nonlinear_arith)
                requires
                    s == 1,
            ;
            assert(self.leaves()[l] == self.node_value(n + l));
        } else {
            let h = s / 2;
            assert(s % 2 == 0 && is_pow2(h));
            let m = l + h - 1;
            assert(2 * v <= v * s) by (nonlinear_arith)
                requires
                    v >= 1,
                    s >= 2,
            ;
            assert((2 * v) * h == v * (2 * h)) by (nonlinear_arith);
            assert((2 * v + 1) * h == v * (2 * h) + h) by (nonlinear_arith);
            self.lemma_subtree_fold(2 * v, l, m);
            self.lemma_subtree_fold(2 * v + 1, m + 1, r);
            assert(self.node_ok(v));
            lemma_fold_split::<T>(self.leaves(), l, m, r);
        }
    }

    /// The answer for the query `[i, j]` computed from node `v`, whose
    /// subtree covers the leaf block `[l, r]` containing the query. When the
    /// query fills the block exactly, the node's cell is the answer; else the
    /// block is split at its midpoint, the query is clipped to each half, and
    /// the two partial answers are combined left before right.
    fn f(&self, v: usize, l: usize, r: usize, i: usize, j: usize) -> (res: T)
        requires
            self.wf(),
            l <= i,
            i <= j,
            j <= r,
            r < self.capacity(),
            is_pow2(r - l + 1),
            v * (r - l + 1) == self.capacity() + l,
        ensures
            res@ == fold_range::<T>(self.leaves(), i as int, j as int),
        decreases r - l,
    {
        let ghost n = self.capacity();
        let ghost s = r - l + 1;
        proof {
            assert(v >= 1) by (nonlinear_arith)
                requires
                    (v as int) * s == n + l,
                    s >= 1,
                    n + l >= 1,
            ;
            assert(v as int <= (v as int) * s) by (nonlinear_arith)
                requires
                    v >= 1,
                    s >= 1,
            ;
        }
        if l == i && r == j {
            proof {
                self.lemma_subtree_fold(v as int, l as int, r as int);
            }
            T::duplicate(&self.arr[v])
        } else {
            let ghost h = s / 2;
            proof {
                assert(l < r);
                assert(s % 2 == 0 && is_pow2(h));
                assert(2 * (v as int) <= (v as int) * s) by (nonlinear_arith)
                    requires
                        v >= 1,
                        s >= 2,
                ;
                assert((2 * v as int) * h == (v as int) * (2 * h)) by (nonlinear_arith);
                assert((2 * v as int + 1) * h == (v as int) * (2 * h) + h) by (nonlinear_arith);
            }
            let m = (l + r) / 2;
            let lc = left_child(v);
            let rc = right_child(v);
            let t1 = if i <= m {
                let hi = if j < m {
                    j
                } else {
                    m
                };
                self.f(lc, l, m, i, hi)
            } else {
                T::identity()
            };
            let t2 = if j > m {
                let lo = if i > m {
                    i
                } else {
                    m + 1
                };
                self.f(rc, m + 1, r, lo, j)
            } else {
                T::identity()
            };
            proof {
                if i <= m && j > m {
                    lemma_fold_split::<T>(self.leaves(), i as int, m as int, j as int);
                } else if i <= m {
                    T::lemma_id_right(fold_range::<T>(self.leaves(), i as int, j as int));
                } else {
                    T::lemma_id_left(fold_range::<T>(self.leaves(), i as int, j as int));
                }
            }
            T::combine(&t1, &t2)
        }
    }

    /// The fold of the leaf values of slots `i..=j`, combined in ascending
    /// index order; or the error that says which bound was bad: `OutOfBounds`
    /// when an endpoint is not a slot, `InvalidRange` when both are slots but
    /// `i > j`. A pure read: the tree is unchanged.
    pub fn range_sum(&self, i: usize, j: usize) -> (res: Result<T, SegTreeError>)
        requires
            self.wf(),
        ensures
            match res {
                Ok(t) => i <= j && j < self.capacity() && t@ == fold_range::<T>(
                    self.leaves(),
                    i as int,
                    j as int,
                ),
                Err(SegTreeError::OutOfBounds) => i >= self.capacity() || j >= self.capacity(),
                Err(SegTreeError::InvalidRange) => i < self.capacity() && j < self.capacity() && i
                    > j,
            },
    {
        if i >= self.n || j >= self.n {
            Err(SegTreeError::OutOfBounds)
        } else if i > j {
            Err(SegTreeError::InvalidRange)
        } else {
            Ok(self.f(1, 0, self.n - 1, i, j))
        }
    }

    /// [`Self::range_sum`] with the span given as a pair of bounds, first
    /// normalized to a closed endpoint pair (see [`norm_start`] and
    /// [`norm_end`]) and then checked exactly as `range_sum` checks its
    /// arguments; nothing is silently clamped.
    pub fn range_sum_bounds(&self, start: SpanBound, end: SpanBound) -> (res: Result<
        T,
        SegTreeError,
    >)
        requires
            self.wf(),
        ensures
            ({
                let qi = norm_start(start);
                let qj = norm_end(end, self.capacity());
                match res {
                    Ok(t) => 0 <= qi && qi <= qj && qj < self.capacity() && t@ == fold_range::<T>(
                        self.leaves(),
                        qi,
                        qj,
                    ),
                    Err(SegTreeError::OutOfBounds) => qi >= self.capacity() || qj
                        >= self.capacity(),
                    Err(SegTreeError::InvalidRange) => qi < self.capacity() && qj < self.capacity()
                        && qi > qj,
                }
            }),
    {
        let i = match start {
            SpanBound::Included(i) => i,
            SpanBound::Excluded(i) => {
                if i >= self.n {
                    return Err(SegTreeError::OutOfBounds);
                }
                i + 1
            },
            SpanBound::Unbounded => 0,
        };
        if i >= self.n {
            return Err(SegTreeError::OutOfBounds);
        }
        let j = match end {
            SpanBound::Included(j) => j,
            SpanBound::Excluded(j) => {
                if j == 0 {
                    return Err(SegTreeError::InvalidRange);
                }
                j - 1
            },
            SpanBound::Unbounded => self.n - 1,
        };
        self.range_sum(i, j)
    }
}

/// `u` lies on the path from storage cell `w` up to the root: `u` is `w`
/// itself or an ancestor of `w` under repeated halving.
spec fn is_anc(u: int, w: int) -> bool
    decreases w,
    when w >= 1
{
    u == w || (w > 1 && is_anc(u, w / 2))
}

/// Every cell on the path from `w` to the root lies in `[1, w]`.
proof fn lemma_anc_le(u: int, w: int)
    requires
        w >= 1,
        is_anc(u, w),
    ensures
        1 <= u <= w,
    decreases w,
{
    if u != w {
        lemma_anc_le(u, w / 2);
    }
}

/// The parent of a cell on the path from `w` to the root is on that path too.
proof fn lemma_anc_parent(u: int, w: int)
    requires
        w >= 1,
        u >= 2,
        is_anc(u, w),
    ensures
        is_anc(u / 2, w),
    decreases w,
{
    if u == w {
        assert(is_anc(u / 2, u / 2));
    } else {
        lemma_anc_parent(u, w / 2);
    }
}

/// Two distinct cells on the path from `w` to the root are separated by at
/// least one halving: the smaller is at most half the larger.
proof fn lemma_anc_chain(u: int, v: int, w: int)
    requires
        w >= 1,
        is_anc(u, w),
        is_anc(v, w),
        u < v,
    ensures
        u <= v / 2,
    decreases w,
{
    if v == w {
        lemma_anc_le(u, w);
        if u != w {
            lemma_anc_le(u, w / 2);
        }
    } else {
        lemma_anc_le(v, w);
        lemma_anc_chain(u, v, w / 2);
    }
}

/// The parent of storage cell `k` (cell 1, the root, maps to the unused 0).
fn parent(k: usize) -> (r: usize)
    ensures
        r == k as int / 2,
{
    k / 2
}

/// The left child of storage cell `k`.
fn left_child(k: usize) -> (r: usize)
    requires
        k <= usize::MAX / 2,
    ensures
        r == 2 * k,
{
    2 * k
}

/// The right child of storage cell `k`.
fn right_child(k: usize) -> (r: usize)
    requires
        k <= usize::MAX / 2,
    ensures
        r == 2 * k + 1,
{
    2 * k + 1
}

/// The smallest power of two at or above `size` (1 when `size` is 0 or 1).
fn super_ceiling(size: usize) -> (p: usize)
    requires
        size <= usize::MAX / 4,
    ensures
        is_pow2(p as int),
        p >= size,
        p == 1 || p / 2 < size,
        p <= usize::MAX / 2,
{
    let mut p: usize = 1;
    while p < size
        invariant
            1 <= p,
            is_pow2(p as int),
            p == 1 || p / 2 < size,
            size <= usize::MAX / 4,
            p <= usize::MAX / 2,
        decreases 2 * size - p,
    {
        p = 2 * p;
    }
    p
}

} // verus!
