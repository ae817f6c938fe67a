//! Image pyramids: a chain of progressively shrunken copies of an image, and
//! a distance that weighs the squared Euclidean distance of each level by how
//! much area one of its pixels stands for.

use vstd::prelude::*;
use crate::mnist_data::{Image, Grid, block_sum, lemma_side_unique};
use crate::euclidean_distance::{euclidean_distance, sq_diff_sum, lemma_sq_diff_sum_bound};
use crate::space::Metric;

verus! {

/// The shrink factor between one pyramid level and the next.
pub const REDUCTION: usize = 2;

/// What `Image::shrunken` by `REDUCTION` promises: `b` is `a` shrunk by two.
pub open spec fn shrunk_of(a: Image, b: Image) -> bool {
    &&& b.grid_wf()
    &&& b.cells().len() == (a.spec_side() / 2) * (a.spec_side() / 2)
    &&& forall|x: int, y: int|
        #![trigger b.cells()[y * (a.spec_side() / 2) + x]]
        0 <= x < a.spec_side() / 2 && 0 <= y < a.spec_side() / 2 ==> b.cells()[y * (a.spec_side()
            / 2) + x] as int == block_sum(a.cells(), a.spec_side(), x, y, 2, 2) / 4
}

/// A pyramid: level zero is the source image, and each further level is the
/// previous one shrunk by `REDUCTION`, down to (and excluding) a side below
/// two.
pub struct Pyramid {
    images: Vec<Image>,
}

impl Pyramid {
    /// The images of the pyramid, largest first.
    pub closed spec fn spec_levels(&self) -> Seq<Image> {
        self.images@
    }

    /// Every level is a well-formed full square.
    pub open spec fn wf(&self) -> bool {
        forall|i: int|
            0 <= i < self.spec_levels().len() ==> (#[trigger] self.spec_levels()[i]).grid_wf()
                && self.spec_levels()[i].cells().len() == self.spec_levels()[i].spec_side()
                * self.spec_levels()[i].spec_side()
    }

    /// Builds the pyramid of an image: the image itself, then each shrink by
    /// `REDUCTION` whose source still has a side of at least two.
    pub fn new(src: &Image) -> (r: Pyramid)
        requires
            src.grid_wf(),
            src.cells().len() == src.spec_side() * src.spec_side(),
        ensures
            r.wf(),
            src.spec_side() >= 2 ==> r.spec_levels().len() >= 1,
            src.spec_side() < 2 ==> r.spec_levels().len() == 0,
            r.spec_levels().len() >= 1 ==> r.spec_levels()[0].cells() == src.cells()
                && r.spec_levels()[0].spec_side() == src.spec_side(),
            forall|i: int|
                0 <= i < r.spec_levels().len() ==> (#[trigger] r.spec_levels()[i]).spec_side()
                    >= 2,
            r.spec_levels().len() >= 1 ==> r.spec_levels()[r.spec_levels().len()
                - 1].spec_side() / 2 < 2,
            forall|i: int|
                1 <= i < r.spec_levels().len() ==> shrunk_of(
                    r.spec_levels()[i - 1],
                    #[trigger] r.spec_levels()[i],
                ),
    {
        let mut result = Pyramid { images: Vec::new() };
        let mut image = src.duplicate();
        proof {
            crate::mnist_data::lemma_grid_wf_congruence(image, *src);
        }
        while image.side() >= 2
            invariant
                image.grid_wf(),
                image.cells().len() == image.spec_side() * image.spec_side(),
                result.wf(),
                result.spec_levels().len() == 0 ==> image.cells() == src.cells()
                    && image.spec_side() == src.spec_side(),
                result.spec_levels().len() >= 1 ==> result.spec_levels()[0].cells() == src.cells()
                    && result.spec_levels()[0].spec_side() == src.spec_side(),
                result.spec_levels().len() >= 1 ==> shrunk_of(
                    result.spec_levels()[result.spec_levels().len() - 1],
                    image,
                ),
                result.spec_levels().len() >= 1 ==> image.spec_side() == result.spec_levels()[
                    result.spec_levels().len() - 1].spec_side() / 2,
                forall|i: int|
                    0 <= i < result.spec_levels().len() ==> (#[trigger] result.spec_levels()[
                    i]).spec_side() >= 2,
                forall|i: int|
                    1 <= i < result.spec_levels().len() ==> shrunk_of(
                        result.spec_levels()[i - 1],
                        #[trigger] result.spec_levels()[i],
                    ),
            decreases image.spec_side(),
        {
            let shrunk = image.shrunken(REDUCTION);
            proof {
                shrunk.lemma_wf_side();
                image.lemma_wf_side();
                let ts = image.spec_side() / 2;
                if ts > 0 {
                    assert((ts - 1) * (ts - 1) < ts * ts) by (nonlinear_arith)
                        requires
                            ts >= 1,
                    ;
                }
                lemma_side_unique(shrunk.cells().len() as int, shrunk.spec_side(), ts);
                assert(ts < image.spec_side());
            }
            result.images.push(image);
            image = shrunk;
        }
        result
    }

    /// The number of levels.
    pub fn levels(&self) -> (r: usize)
        ensures
            r as nat == self.spec_levels().len(),
    {
        self.images.len()
    }

    /// One level of the pyramid.
    pub fn level_at(&self, i: usize) -> (r: &Image)
        requires
            (i as int) < self.spec_levels().len(),
        ensures
            *r == self.spec_levels()[i as int],
    {
        &self.images[i]
    }
}

/// `x`, clamped from above to the largest value of the result type.
pub open spec fn sat64(x: int) -> int {
    if x > u64::MAX as int {
        u64::MAX as int
    } else {
        x
    }
}

/// Powers of four: the area weight of one pixel at a pyramid level.
pub open spec fn pow4(i: int) -> int
    decreases i,
{
    if i <= 0 {
        1
    } else {
        4 * pow4(i - 1)
    }
}

/// The weighted pyramid distance over the first `n` levels: the squared
/// Euclidean distance at level `i`, weighted by four to the `i`.
pub open spec fn spec_pyramid_distance(a: Seq<Image>, b: Seq<Image>, n: int) -> int
    decreases n,
{
    if n <= 0 {
        0
    } else {
        spec_pyramid_distance(a, b, n - 1) + pow4(n - 1) * sq_diff_sum(
            a[n - 1].cells(),
            b[n - 1].cells(),
            a[n - 1].cells().len() as int,
        )
    }
}

pub proof fn lemma_pyramid_distance_nonneg(a: Seq<Image>, b: Seq<Image>, n: int)
    ensures
        spec_pyramid_distance(a, b, n) >= 0,
    decreases n,
{
    if n > 0 {
        lemma_pyramid_distance_nonneg(a, b, n - 1);
        lemma_sq_diff_sum_bound(a[n - 1].cells(), b[n - 1].cells(), a[n - 1].cells().len() as int);
        assert(pow4(n - 1) >= 1) by {
            lemma_pow4_pos(n - 1);
        }
        assert(pow4(n - 1) * sq_diff_sum(
            a[n - 1].cells(),
            b[n - 1].cells(),
            a[n - 1].cells().len() as int,
        ) >= 0) by (nonlinear_arith)
            requires
                pow4(n - 1) >= 1,
                sq_diff_sum(a[n - 1].cells(), b[n - 1].cells(), a[n - 1].cells().len() as int)
                    >= 0,
        ;
    }
}

pub proof fn lemma_pow4_pos(i: int)
    ensures
        pow4(i) >= 1,
    decreases i,
{
    if i > 0 {
        lemma_pow4_pos(i - 1);
    }
}

/// The pyramid distance of two pyramids with equally many, equally shaped
/// levels, clamped to the range of the result type (the weights grow fast;
/// a sum too large to represent comes back as the largest value).
pub fn pyramid_distance(img1: &Pyramid, img2: &Pyramid) -> (r: u64)
    requires
        img1.wf(),
        img2.wf(),
        img1.spec_levels().len() == img2.spec_levels().len(),
        forall|i: int|
            0 <= i < img1.spec_levels().len() ==> (#[trigger] img1.spec_levels()[i]).spec_side()
                == img2.spec_levels()[i].spec_side() && img1.spec_levels()[i].cells().len()
                == img2.spec_levels()[i].cells().len(),
    ensures
        r as int == sat64(
            spec_pyramid_distance(
                img1.spec_levels(),
                img2.spec_levels(),
                img1.spec_levels().len() as int,
            ),
        ),
{
    let n = img1.levels();
    let mut total: u64 = 0;
    let mut multiplier: u64 = 1;
    let ghost a = img1.spec_levels();
    let ghost b = img2.spec_levels();
    let mut i: usize = 0;
    while i < n
        invariant
            img1.wf(),
            img2.wf(),
            a == img1.spec_levels(),
            b == img2.spec_levels(),
            n as nat == a.len(),
            b.len() == a.len(),
            forall|j: int|
                0 <= j < a.len() ==> (#[trigger] a[j]).spec_side() == b[j].spec_side()
                    && a[j].cells().len() == b[j].cells().len(),
            0 <= i <= n,
            multiplier as int == sat64(pow4(i as int)),
            total as int == sat64(spec_pyramid_distance(a, b, i as int)),
        decreases n - i,
    {
        let d = euclidean_distance(&img1.images[i], &img2.images[i]);
        proof {
            lemma_sq_diff_sum_bound(a[i as int].cells(), b[i as int].cells(), a[i as int].cells().len() as int);
            lemma_pow4_pos(i as int);
            lemma_pyramid_distance_nonneg(a, b, i as int);
        }
        let weighted = match multiplier.checked_mul(d) {
            Some(v) => v,
            None => u64::MAX,
        };
        proof {
            let m = pow4(i as int);
            let dd = sq_diff_sum(a[i as int].cells(), b[i as int].cells(), a[i as int].cells().len() as int);
            assert(weighted as int == sat64(m * dd)) by (nonlinear_arith)
                requires
                    m >= 1,
                    dd >= 0,
                    multiplier as int == sat64(m),
                    d as int == dd,
                    (weighted as int == multiplier as int * d as int && multiplier as int * d as int <= u64::MAX as int)
                        || (weighted as int == u64::MAX as int && multiplier as int * d as int > u64::MAX as int),
            ;
        }
        total = total.saturating_add(weighted);
        proof {
            let prev = spec_pyramid_distance(a, b, i as int);
            let m = pow4(i as int);
            let dd = sq_diff_sum(a[i as int].cells(), b[i as int].cells(), a[i as int].cells().len() as int);
            assert(total as int == sat64(prev + m * dd)) by (nonlinear_arith)
                requires
                    prev >= 0,
                    m >= 1,
                    dd >= 0,
                    total as int == sat64(sat64(prev) + sat64(m * dd)),
            ;
        }
        let next_multiplier = match multiplier.checked_mul(4) {
            Some(v) => v,
            None => u64::MAX,
        };
        proof {
            let m = pow4(i as int);
            assert(next_multiplier as int == sat64(4 * m)) by (nonlinear_arith)
                requires
                    m >= 1,
                    multiplier as int == sat64(m),
                    (next_multiplier as int == multiplier as int * 4 && multiplier as int * 4
                        <= u64::MAX as int) || (next_multiplier as int == u64::MAX as int
                        && multiplier as int * 4 > u64::MAX as int),
            ;
        }
        multiplier = next_multiplier;
        i = i + 1;
    }
    total
}


impl Pyramid {
    /// A copy whose levels hold the same pixels.
    pub fn duplicate(&self) -> (r: Pyramid)
        ensures
            r.spec_levels().len() == self.spec_levels().len(),
            forall|i: int|
                0 <= i < r.spec_levels().len() ==> (#[trigger] r.spec_levels()[i]).cells()
                    == self.spec_levels()[i].cells() && r.spec_levels()[i].spec_side()
                    == self.spec_levels()[i].spec_side(),
            self.wf() ==> r.wf(),
    {
        let n = self.images.len();
        let mut imgs: Vec<Image> = Vec::new();
        let mut i: usize = 0;
        while i < n
            invariant
                n == self.spec_levels().len(),
                0 <= i <= n,
                imgs@.len() == i,
                forall|j: int|
                    0 <= j < i ==> (#[trigger] imgs@[j]).cells() == self.spec_levels()[j].cells()
                        && imgs@[j].spec_side() == self.spec_levels()[j].spec_side(),
            decreases n - i,
        {
            let d = self.images[i].duplicate();
            imgs.push(d);
            i = i + 1;
        }
        let r = Pyramid { images: imgs };
        proof {
            if self.wf() {
                assert forall|j: int|
                    0 <= j < r.spec_levels().len() implies (#[trigger] r.spec_levels()[
                j]).grid_wf() && r.spec_levels()[j].cells().len() == r.spec_levels()[
                j].spec_side() * r.spec_levels()[j].spec_side() by {
                    crate::mnist_data::lemma_grid_wf_congruence(
                        r.spec_levels()[j],
                        self.spec_levels()[j],
                    );
                }
            }
        }
        r
    }
}

/// The side of a pyramid level: the source side halved once per level.
pub open spec fn spec_side_at(side0: int, i: int) -> int
    decreases i,
{
    if i <= 0 {
        side0
    } else {
        spec_side_at(side0, i - 1) / 2
    }
}

/// The space of pyramids built from full square images of one fixed side,
/// with one fixed level count, under the weighted pyramid distance.
pub struct PyramidSpace {
    pub side0: usize,
    pub levels: usize,
}

impl Metric<Pyramid> for PyramidSpace {
    open spec fn in_space(&self, p: Pyramid) -> bool {
        p.wf() && p.spec_levels().len() == self.levels && forall|i: int|
            0 <= i < self.levels ==> (#[trigger] p.spec_levels()[i]).spec_side() == spec_side_at(
                self.side0 as int,
                i,
            )
    }

    open spec fn spec_distance(&self, a: Pyramid, b: Pyramid) -> u64 {
        sat64(
            spec_pyramid_distance(a.spec_levels(), b.spec_levels(), a.spec_levels().len() as int),
        ) as u64
    }

    open spec fn spec_same(&self, a: Pyramid, b: Pyramid) -> bool {
        a.spec_levels().len() == b.spec_levels().len() && forall|i: int|
            0 <= i < a.spec_levels().len() ==> (#[trigger] a.spec_levels()[i]).cells()
                == b.spec_levels()[i].cells() && a.spec_levels()[i].spec_side()
                == b.spec_levels()[i].spec_side()
    }

    fn distance(&self, a: &Pyramid, b: &Pyramid) -> (r: u64) {
        let d = pyramid_distance(a, b);
        proof {
            lemma_pyramid_distance_nonneg(
                a.spec_levels(),
                b.spec_levels(),
                a.spec_levels().len() as int,
            );
        }
        d
    }

    fn same_point(&self, a: &Pyramid, b: &Pyramid) -> (r: bool) {
        let n = a.levels();
        if b.levels() != n {
            return false;
        }
        let mut i: usize = 0;
        while i < n
            invariant
                self.in_space(*a),
                self.in_space(*b),
                n == a.spec_levels().len(),
                b.spec_levels().len() == n as nat,
                0 <= i <= n,
                forall|j: int|
                    0 <= j < i ==> (#[trigger] a.spec_levels()[j]).cells()
                        == b.spec_levels()[j].cells() && a.spec_levels()[j].spec_side()
                        == b.spec_levels()[j].spec_side(),
            decreases n - i,
        {
            if !images_equal(a.level_at(i), b.level_at(i)) {
                return false;
            }
            i = i + 1;
        }
        true
    }

    fn clone_point(&self, p: &Pyramid) -> (r: Pyramid) {
        p.duplicate()
    }

    proof fn lemma_same_is_equivalence(&self, a: Pyramid, b: Pyramid, c: Pyramid) {
    }

    proof fn lemma_distance_respects_same(&self, q: Pyramid, a: Pyramid, b: Pyramid) {
        lemma_pyramid_distance_congruent(
            q.spec_levels(),
            a.spec_levels(),
            b.spec_levels(),
            q.spec_levels().len() as int,
        );
    }
}

/// The weighted pyramid distance depends only on the levels' pixels.
proof fn lemma_pyramid_distance_congruent(qs: Seq<Image>, a: Seq<Image>, b: Seq<Image>, n: int)
    requires
        forall|i: int| 0 <= i < n ==> (#[trigger] a[i]).cells() == b[i].cells(),
    ensures
        spec_pyramid_distance(qs, a, n) == spec_pyramid_distance(qs, b, n),
    decreases n,
{
    if n > 0 {
        lemma_pyramid_distance_congruent(qs, a, b, n - 1);
    }
}

/// Whether two images hold the same pixels in the same shape.
pub fn images_equal(a: &Image, b: &Image) -> (r: bool)
    requires
        a.grid_wf(),
        b.grid_wf(),
    ensures
        r == (a.cells() == b.cells() && a.spec_side() == b.spec_side()),
{
    if a.side() != b.side() || a.len() != b.len() {
        proof {
            if a.cells() == b.cells() {
                assert(a.cells().len() == b.cells().len());
            }
        }
        return false;
    }
    let n = a.len();
    let mut i: usize = 0;
    while i < n
        invariant
            n as nat == a.cells().len(),
            b.cells().len() == n as nat,
            0 <= i <= n,
            forall|j: int| 0 <= j < i ==> a.cells()[j] == b.cells()[j],
        decreases n - i,
    {
        if a.pixel_at(i) != b.pixel_at(i) {
            return false;
        }
        i = i + 1;
    }
    proof {
        assert(a.cells() =~= b.cells());
    }
    true
}

} // verus!
