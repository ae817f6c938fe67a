//! Squared Euclidean distance between equally sized images, and the image
//! space it induces: images of one fixed shape, with this distance and the
//! pixel-wise mean.

use vstd::prelude::*;
use crate::mnist_data::{Image, Grid, image_mean, sum_at, side_fits, lemma_side_unique, MAX_SIDE};
use crate::space::{Metric, MeanAggregate};

verus! {

/// Sum of squared differences over the first `n` pixel pairs.
pub open spec fn sq_diff_sum(a: Seq<u8>, b: Seq<u8>, n: int) -> int
    decreases n,
{
    if n <= 0 {
        0
    } else {
        sq_diff_sum(a, b, n - 1) + (a[n - 1] - b[n - 1]) * (a[n - 1] - b[n - 1])
    }
}

/// Each squared difference lies between 0 and 255 squared.
pub proof fn lemma_sq_diff_sum_bound(a: Seq<u8>, b: Seq<u8>, n: int)
    requires
        n >= 0,
    ensures
        0 <= sq_diff_sum(a, b, n) <= n * 65025,
    decreases n,
{
    if n > 0 {
        lemma_sq_diff_sum_bound(a, b, n - 1);
        let d = a[n - 1] - b[n - 1];
        assert(0 <= d * d <= 65025) by (nonlinear_arith)
            requires
                -255 <= d <= 255,
        ;
        assert((n - 1) * 65025 + 65025 == n * 65025) by (nonlinear_arith);
    }
}

/// The squared Euclidean distance between two images of the same shape: the
/// sum, over all pixel positions, of the squared pixel difference.
pub fn euclidean_distance(img1: &Image, img2: &Image) -> (r: u64)
    requires
        img1.grid_wf(),
        img2.grid_wf(),
        img1.spec_side() == img2.spec_side(),
        img1.cells().len() == img2.cells().len(),
    ensures
        r as int == sq_diff_sum(img1.cells(), img2.cells(), img1.cells().len() as int),
{
    let n = img1.len();
    proof {
        img1.lemma_wf_side();
        assert(n as int <= MAX_SIDE as int * MAX_SIDE as int) by (nonlinear_arith)
            requires
                side_fits(n as int, img1.spec_side()),
                0 <= img1.spec_side() <= MAX_SIDE as int,
                n as nat == img1.cells().len(),
        ;
    }
    let mut sum: u64 = 0;
    let mut i: usize = 0;
    while i < n
        invariant
            n as nat == img1.cells().len(),
            img2.cells().len() == n as nat,
            n as int <= MAX_SIDE as int * MAX_SIDE as int,
            0 <= i <= n,
            sum as int == sq_diff_sum(img1.cells(), img2.cells(), i as int),
            sum <= i * 65025,
        decreases n - i,
    {
        let p1 = img1.pixel_at(i);
        let p2 = img2.pixel_at(i);
        let d: u64 = if p1 >= p2 {
            (p1 - p2) as u64
        } else {
            (p2 - p1) as u64
        };
        proof {
            let sd = img1.cells()[i as int] - img2.cells()[i as int];
            assert(d * d == sd * sd && 0 <= d * d <= 65025) by (nonlinear_arith)
                requires
                    d == sd || d == -sd,
                    -255 <= sd <= 255,
                    d >= 0,
            ;
            assert(i as int * 65025 + 65025 == (i as int + 1) * 65025) by (nonlinear_arith);
            assert((i as int + 1) * 65025 <= (MAX_SIDE as int * MAX_SIDE as int) * 65025)
                by (nonlinear_arith)
                requires
                    i as int + 1 <= MAX_SIDE as int * MAX_SIDE as int,
            ;
        }
        sum = sum + d * d;
        i = i + 1;
    }
    sum
}

/// The space of images of one fixed shape: `side` pixels to a row, `len`
/// pixels in all.
pub struct ImageSpace {
    pub side: usize,
    pub len: usize,
}

impl ImageSpace {
    /// The space every image of the given full square shape lives in.
    pub fn with_side(side: usize) -> (r: ImageSpace)
        requires
            side * side <= usize::MAX,
        ensures
            r.side == side,
            r.len == side * side,
    {
        ImageSpace { side, len: side * side }
    }
}

impl Metric<Image> for ImageSpace {
    open spec fn in_space(&self, p: Image) -> bool {
        p.grid_wf() && p.spec_side() == self.side as int && p.cells().len() == self.len as nat
    }

    open spec fn spec_distance(&self, a: Image, b: Image) -> u64 {
        sq_diff_sum(a.cells(), b.cells(), a.cells().len() as int) as u64
    }

    open spec fn spec_same(&self, a: Image, b: Image) -> bool {
        a.cells() == b.cells() && a.spec_side() == b.spec_side()
    }

    fn distance(&self, a: &Image, b: &Image) -> (r: u64) {
        let d = euclidean_distance(a, b);
        proof {
            lemma_sq_diff_sum_bound(a.cells(), b.cells(), a.cells().len() as int);
        }
        d
    }

    fn same_point(&self, a: &Image, b: &Image) -> (r: bool) {
        let n = a.len();
        let mut i: usize = 0;
        while i < n
            invariant
                n as nat == a.cells().len(),
                b.cells().len() == n as nat,
                0 <= i <= n,
                forall|j: int| 0 <= j < i ==> a.cells()[j] == b.cells()[j],
            decreases n - i,
        {
            if a.pixel_at(i) != b.pixel_at(i) {
                return false;
            }
            i = i + 1;
        }
        proof {
            assert(a.cells() =~= b.cells());
        }
        true
    }

    fn clone_point(&self, p: &Image) -> (r: Image) {
        p.duplicate()
    }

    proof fn lemma_same_is_equivalence(&self, a: Image, b: Image, c: Image) {
    }

    proof fn lemma_distance_respects_same(&self, q: Image, a: Image, b: Image) {
    }
}

impl MeanAggregate<Image> for ImageSpace {
    open spec fn mean_post(&self, items: Seq<Image>, r: Image) -> bool {
        &&& r.grid_wf()
        &&& r.cells().len() == items[0].cells().len()
        &&& forall|p: int|
            0 <= p < r.cells().len() ==> (#[trigger] r.cells()[p]) as int == sum_at(items, p)
                / items.len() as int
    }

    fn mean(&self, items: &Vec<Image>) -> (r: Image) {
        let m = image_mean(items);
        proof {
            m.lemma_wf_side();
            items@[0].lemma_wf_side();
            lemma_side_unique(m.cells().len() as int, m.spec_side(), self.side as int);
        }
        m
    }

    proof fn lemma_mean_respects_same(&self, items: Seq<Image>, a: Image, b: Image) {
        crate::mnist_data::lemma_grid_wf_congruence(a, b);
    }

    proof fn lemma_mean_respects_items(&self, items1: Seq<Image>, items2: Seq<Image>, r: Image) {
        assert forall|p: int| 0 <= p < r.cells().len() implies (#[trigger] r.cells()[p]) as int
            == sum_at(items2, p) / items2.len() as int by {
            crate::mnist_data::lemma_sum_at_congruent(items1, items2, p);
        }
    }
}

} // verus!
