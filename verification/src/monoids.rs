//! Two combining operators for the segment tree: wrapping addition on `i32`
//! (the classic sum tree, total over the whole type) and sequence
//! concatenation on `Vec<i64>` (associative but not commutative, so it
//! exercises the left-before-right combination order).

use vstd::prelude::*;

use crate::generic::Monoid;

verus! {

/// Wrapping 32-bit addition: associative, total, with identity 0. On inputs
/// whose mathematical sum fits in `i32` it is plain addition.
impl Monoid for i32 {
    open spec fn id() -> i32 {
        0
    }

    open spec fn op(a: i32, b: i32) -> i32 {
        vstd::wrapping::i32_specs::wrapping_add(a, b)
    }

    proof fn lemma_assoc(a: i32, b: i32, c: i32) {
    }

    proof fn lemma_id_left(a: i32) {
    }

    proof fn lemma_id_right(a: i32) {
    }

    fn identity() -> (r: i32) {
        0
    }

    fn combine(a: &i32, b: &i32) -> (r: i32) {
        (*a).wrapping_add(*b)
    }

    fn duplicate(a: &i32) -> (r: i32) {
        *a
    }
}

/// Sequence concatenation on `Vec<i64>`: associative with the empty sequence
/// as identity, and not commutative.
impl Monoid for Vec<i64> {
    open spec fn id() -> Seq<i64> {
        Seq::empty()
    }

    open spec fn op(a: Seq<i64>, b: Seq<i64>) -> Seq<i64> {
        a + b
    }

    proof fn lemma_assoc(a: Seq<i64>, b: Seq<i64>, c: Seq<i64>) {
        assert((a + b) + c =~= a + (b + c));
    }

    proof fn lemma_id_left(a: Seq<i64>) {
        assert(Seq::<i64>::empty() + a =~= a);
    }

    proof fn lemma_id_right(a: Seq<i64>) {
        assert(a + Seq::<i64>::empty() =~= a);
    }

    fn identity() -> (r: Vec<i64>) {
        let r: Vec<i64> = Vec::new();
        proof {
            assert(r@ =~= Seq::<i64>::empty());
        }
        r
    }

    fn combine(a: &Vec<i64>, b: &Vec<i64>) -> (r: Vec<i64>) {
        let mut r: Vec<i64> = Vec::new();
        let mut k: usize = 0;
        while k < a.len()
            invariant
                k <= a@.len(),
                r@ == a@.subrange(0, k as int),
            decreases a@.len() - k,
        {
            r.push(a[k]);
            proof {
                assert(r@ =~= a@.subrange(0, k as int + 1));
            }
            k = k + 1;
        }
        proof {
            assert(r@ =~= a@);
        }
        let mut k: usize = 0;
        while k < b.len()
            invariant
                k <= b@.len(),
                r@ == a@ + b@.subrange(0, k as int),
            decreases b@.len() - k,
        {
            r.push(b[k]);
            proof {
                assert(r@ =~= a@ + b@.subrange(0, k as int + 1));
            }
            k = k + 1;
        }
        proof {
            assert(r@ =~= a@ + b@);
        }
        r
    }

    fn duplicate(a: &Vec<i64>) -> (r: Vec<i64>) {
        let mut r: Vec<i64> = Vec::new();
        let mut k: usize = 0;
        while k < a.len()
            invariant
                k <= a@.len(),
                r@ == a@.subrange(0, k as int),
            decreases a@.len() - k,
        {
            r.push(a[k]);
            proof {
                assert(r@ =~= a@.subrange(0, k as int + 1));
            }
            k = k + 1;
        }
        proof {
            assert(r@ =~= a@);
        }
        r
    }
}

} // verus!
