//! The capability set that the clustering and classification engines are
//! generic over: a distance function, equality, cloning, and (for clustering)
//! a mean/aggregation operator, each with its specification.

use vstd::prelude::*;

verus! {

/// A distance function over a domain of points, together with the equality
/// and cloning capabilities the engines need.  `spec_same` is an equivalence
/// relation identifying points that every operation treats alike.
pub trait Metric<T>: Sized {
    /// The domain: the points on which the distance is defined.
    spec fn in_space(&self, p: T) -> bool;

    /// The distance, as a nonnegative integer.
    spec fn spec_distance(&self, a: T, b: T) -> u64;

    /// Observational equality of two points.
    spec fn spec_same(&self, a: T, b: T) -> bool;

    fn distance(&self, a: &T, b: &T) -> (r: u64)
        requires
            self.in_space(*a),
            self.in_space(*b),
        ensures
            r == self.spec_distance(*a, *b),
    ;

    fn same_point(&self, a: &T, b: &T) -> (r: bool)
        requires
            self.in_space(*a),
            self.in_space(*b),
        ensures
            r == self.spec_same(*a, *b),
    ;

    fn clone_point(&self, p: &T) -> (r: T)
        requires
            self.in_space(*p),
        ensures
            self.spec_same(r, *p),
            self.in_space(r),
    ;

    /// `spec_same` is reflexive, symmetric and transitive.
    proof fn lemma_same_is_equivalence(&self, a: T, b: T, c: T)
        ensures
            self.spec_same(a, a),
            self.spec_same(a, b) ==> self.spec_same(b, a),
            self.spec_same(a, b) && self.spec_same(b, c) ==> self.spec_same(a, c),
    ;

    /// Within the domain, the distance respects observational equality of a
    /// point.
    proof fn lemma_distance_respects_same(&self, q: T, a: T, b: T)
        requires
            self.in_space(q),
            self.in_space(a),
            self.in_space(b),
            self.spec_same(a, b),
        ensures
            self.spec_distance(q, a) == self.spec_distance(q, b),
    ;
}

/// A mean/aggregation operator over the same domain, for clustering.
/// `mean_post` relates a non-empty cluster to its aggregate.
pub trait MeanAggregate<T>: Metric<T> {
    /// What it means for `r` to be the mean of the points `items`.
    spec fn mean_post(&self, items: Seq<T>, r: T) -> bool;

    fn mean(&self, items: &Vec<T>) -> (r: T)
        requires
            items@.len() > 0,
            forall|i: int| 0 <= i < items@.len() ==> self.in_space(#[trigger] items@[i]),
        ensures
            self.mean_post(items@, r),
            self.in_space(r),
    ;

    /// The mean relation respects observational equality of the result.
    proof fn lemma_mean_respects_same(&self, items: Seq<T>, a: T, b: T)
        requires
            self.mean_post(items, a),
            self.spec_same(a, b),
        ensures
            self.mean_post(items, b),
    ;

    /// The mean relation respects observational equality of the cluster's
    /// points.
    proof fn lemma_mean_respects_items(&self, items1: Seq<T>, items2: Seq<T>, r: T)
        requires
            items1.len() > 0,
            items1.len() == items2.len(),
            forall|i: int| 0 <= i < items1.len() ==> self.spec_same(#[trigger] items1[i], items2[i]),
            self.mean_post(items1, r),
        ensures
            self.mean_post(items2, r),
    ;
}

/// The largest magnitude a scalar point may have, chosen so that sums and
/// squared distances stay well within the machine types.
pub const SCALAR_BOUND: i64 = 0x8000_0000;

/// Sum of a sequence of scalars.
pub open spec fn scalar_sum(s: Seq<i64>) -> int
    decreases s.len(),
{
    if s.len() == 0 {
        0
    } else {
        scalar_sum(s.drop_last()) + s.last()
    }
}

/// One-dimensional points: absolute-difference distance and integer
/// arithmetic mean (the quotient rounded toward zero).
pub struct ScalarSpace;

impl Metric<i64> for ScalarSpace {
    open spec fn in_space(&self, p: i64) -> bool {
        0 <= p <= SCALAR_BOUND
    }

    open spec fn spec_distance(&self, a: i64, b: i64) -> u64 {
        if a >= b {
            (a - b) as u64
        } else {
            (b - a) as u64
        }
    }

    open spec fn spec_same(&self, a: i64, b: i64) -> bool {
        a == b
    }

    fn distance(&self, a: &i64, b: &i64) -> (r: u64) {
        if *a >= *b {
            (*a - *b) as u64
        } else {
            (*b - *a) as u64
        }
    }

    fn same_point(&self, a: &i64, b: &i64) -> (r: bool) {
        *a == *b
    }

    fn clone_point(&self, p: &i64) -> (r: i64) {
        *p
    }

    proof fn lemma_same_is_equivalence(&self, a: i64, b: i64, c: i64) {
    }

    proof fn lemma_distance_respects_same(&self, q: i64, a: i64, b: i64) {
    }
}

impl MeanAggregate<i64> for ScalarSpace {
    open spec fn mean_post(&self, items: Seq<i64>, r: i64) -> bool {
        r == scalar_sum(items) / items.len() as int
    }

    fn mean(&self, items: &Vec<i64>) -> (r: i64) {
        let n = items.len();
        let mut sum: u128 = 0;
        let mut i: usize = 0;
        while i < n
            invariant
                n == items@.len(),
                0 <= i <= n,
                forall|j: int| 0 <= j < n ==> self.in_space(#[trigger] items@[j]),
                sum == scalar_sum(items@.take(i as int)),
                sum <= i * (SCALAR_BOUND as int),
            decreases n - i,
        {
            proof {
                assert(items@.take(i as int + 1).drop_last() =~= items@.take(i as int));
                assert(items@.take(i as int + 1).last() == items@[i as int]);
                assert((i + 1) * (SCALAR_BOUND as int) == i * (SCALAR_BOUND as int)
                    + SCALAR_BOUND) by (nonlinear_arith);
                vstd::arithmetic::mul::lemma_mul_inequality(
                    i as int + 1,
                    usize::MAX as int,
                    SCALAR_BOUND as int,
                );
            }
            sum = sum + (items[i] as u128);
            i = i + 1;
        }
        proof {
            assert(items@.take(n as int) =~= items@);
        }
        let m = sum / (n as u128);
        proof {
            let total = scalar_sum(items@);
            vstd::arithmetic::mul::lemma_mul_inequality(1, n as int, SCALAR_BOUND as int);
            vstd::arithmetic::div_mod::lemma_div_is_ordered(
                total,
                n as int * SCALAR_BOUND as int,
                n as int,
            );
            vstd::arithmetic::div_mod::lemma_div_multiples_vanish(SCALAR_BOUND as int, n as int);
        }
        m as i64
    }

    proof fn lemma_mean_respects_same(&self, items: Seq<i64>, a: i64, b: i64) {
    }

    proof fn lemma_mean_respects_items(&self, items1: Seq<i64>, items2: Seq<i64>, r: i64) {
        assert(items1 =~= items2);
    }
}

} // verus!
