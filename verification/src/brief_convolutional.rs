//! Binary-image convolutional features: square grids of bits, kernels found
//! by clustering their windows under Hamming distance with a majority-vote
//! mean, and projections that emit one bit per window position.

use vstd::prelude::*;
use crate::bits::{BitArray, hamming, lemma_hamming_le_len};
use crate::bits;
use crate::mnist_data::{Grid, Image, add_subgrid_of, side_fits, lemma_side_unique, subgrid_window, MAX_SIDE};
use crate::convolutional::steps;
use crate::kmeans::Kmeans;
use crate::space::{Metric, MeanAggregate};
use crate::patch::patchify;
use crate::pyramid::sat64;

verus! {

/// The side of a binary kernel window.
pub const BIT_KERNEL_SIZE: usize = 3;

/// A square grid of bits, growing like `Image` does.
pub struct BitImage {
    pixels: BitArray,
    side: usize,
}

impl Grid<bool> for BitImage {
    closed spec fn cells(&self) -> Seq<bool> {
        self.pixels@
    }

    closed spec fn spec_side(&self) -> int {
        self.side as int
    }

    closed spec fn grid_wf(&self) -> bool {
        self.pixels.wf() && side_fits(self.pixels@.len() as int, self.side as int) && self.side
            <= MAX_SIDE
    }

    proof fn lemma_wf_side(&self) {
    }

    fn add(&mut self, pixel: bool) {
        let ghost n0 = self.pixels@.len() as int;
        let ghost s0 = self.side as int;
        proof {
            assert(s0 * s0 <= MAX_SIDE as int * MAX_SIDE as int) by (nonlinear_arith)
                requires
                    0 <= s0 <= MAX_SIDE as int,
            ;
        }
        self.pixels.add(pixel);
        let count = self.pixels.len();
        if count > (self.side * self.side) as u64 {
            proof {
                assert(n0 == s0 * s0);
                assert(s0 < MAX_SIDE as int) by (nonlinear_arith)
                    requires
                        0 <= s0 <= MAX_SIDE as int,
                        s0 * s0 < MAX_SIDE as int * MAX_SIDE as int,
                ;
            }
            self.side = self.side + 1;
            proof {
                let s = self.side as int;
                assert((s - 1) * (s - 1) < n0 + 1 && n0 + 1 <= s * s) by (nonlinear_arith)
                    requires
                        s == s0 + 1,
                        s0 >= 0,
                        n0 == s0 * s0,
                ;
            }
        }
    }

    fn get(&self, x: usize, y: usize) -> (r: bool) {
        proof {
            assert(y * self.side + x < MAX_SIDE * MAX_SIDE) by (nonlinear_arith)
                requires
                    (x as int) < self.side as int,
                    (y as int) < self.side as int,
                    self.side <= MAX_SIDE,
            ;
        }
        self.pixels.is_set((y * self.side + x) as u64)
    }

    fn side(&self) -> usize {
        self.side
    }

    fn len(&self) -> usize {
        proof {
            assert(self.pixels@.len() <= MAX_SIDE as int * MAX_SIDE as int) by (nonlinear_arith)
                requires
                    0 <= self.side as int <= MAX_SIDE as int,
                    side_fits(self.pixels@.len() as int, self.side as int),
            ;
        }
        self.pixels.len() as usize
    }
}

impl BitImage {
    pub fn new() -> (r: BitImage)
        ensures
            r.grid_wf(),
            r.cells() =~= Seq::<bool>::empty(),
            r.spec_side() == 0,
    {
        BitImage { pixels: BitArray::new(), side: 0 }
    }

    /// A bit image holding the given bits, as if appended one by one.
    pub fn from(bits: &BitArray) -> (r: BitImage)
        requires
            bits.wf(),
            bits@.len() < MAX_SIDE * MAX_SIDE,
        ensures
            r.grid_wf(),
            r.cells() == bits@,
    {
        let mut result = BitImage::new();
        let n = bits.len();
        let mut i: u64 = 0;
        while i < n
            invariant
                bits.wf(),
                n == bits@.len(),
                n < MAX_SIDE * MAX_SIDE,
                0 <= i <= n,
                result.grid_wf(),
                result.cells() == bits@.take(i as int),
            decreases n - i,
        {
            proof {
                assert(bits@.take(i as int + 1) =~= bits@.take(i as int).push(bits@[i as int]));
            }
            result.add(bits.is_set(i));
            i = i + 1;
        }
        proof {
            assert(bits@.take(n as int) =~= bits@);
        }
        result
    }

    /// A copy holding the same bits.
    pub fn duplicate(&self) -> (r: BitImage)
        requires
            self.grid_wf(),
        ensures
            r.cells() == self.cells(),
            r.spec_side() == self.spec_side(),
            r.grid_wf(),
    {
        proof {
            assert(self.side as int * self.side as int <= MAX_SIDE as int * MAX_SIDE as int)
                by (nonlinear_arith)
                requires
                    0 <= self.side as int <= MAX_SIDE as int,
            ;
        }
        let px = self.pixels.duplicate();
        BitImage { pixels: px, side: self.side }
    }

    /// The `side`-by-`side` window centered on the given cell, false beyond
    /// the edges and at positions the image holds no cell for.
    pub fn subimage(&self, x_center: usize, y_center: usize, side: usize) -> (r: BitImage)
        requires
            self.grid_wf(),
            x_center <= MAX_SIDE,
            y_center <= MAX_SIDE,
            side <= MAX_SIDE,
        ensures
            r.grid_wf(),
            r.cells() == subgrid_window(*self, false, x_center as int, y_center as int, side as int),
            r.spec_side() == side,
    {
        let mut result = BitImage::new();
        proof {
            assert(side * side <= MAX_SIDE * MAX_SIDE) by (nonlinear_arith)
                requires
                    side <= MAX_SIDE,
            ;
        }
        add_subgrid_of(self, &mut result, false, x_center, y_center, side);
        proof {
            result.lemma_wf_side();
            if side > 0 {
                assert((side as int - 1) * (side as int - 1) < side as int * side as int)
                    by (nonlinear_arith)
                    requires
                        side as int >= 1,
                ;
            }
            lemma_side_unique(result.cells().len() as int, result.spec_side(), side as int);
        }
        result
    }

    /// Clusters every kernel-sized window of this image into `num_kernels`
    /// representative kernels (the clustering's seeding is random).
    pub fn find_kernels(&self, num_kernels: usize) -> (r: Vec<BitImage>)
        requires
            self.grid_wf(),
            self.cells().len() == self.spec_side() * self.spec_side(),
            num_kernels >= 1,
            num_kernels <= self.spec_side() * self.spec_side(),
        ensures
            r@.len() == num_kernels,
            forall|i: int|
                0 <= i < num_kernels ==> (#[trigger] r@[i]).grid_wf() && r@[i].spec_side()
                    == BIT_KERNEL_SIZE as int && r@[i].cells().len() == BIT_KERNEL_SIZE as int
                    * BIT_KERNEL_SIZE as int,
    {
        let side = self.side();
        let mut candidates: Vec<BitImage> = Vec::new();
        let mut y: usize = 0;
        while y < side
            invariant
                self.grid_wf(),
                self.cells().len() == self.spec_side() * self.spec_side(),
                side as int == self.spec_side(),
                side <= MAX_SIDE,
                0 <= y <= side,
                candidates@.len() == y as int * side as int,
                forall|m: int|
                    0 <= m < candidates@.len() ==> (#[trigger] candidates@[m]).grid_wf()
                        && candidates@[m].spec_side() == BIT_KERNEL_SIZE as int
                        && candidates@[m].cells().len() == BIT_KERNEL_SIZE as int
                        * BIT_KERNEL_SIZE as int,
            decreases side - y,
        {
            let mut x: usize = 0;
            while x < side
                invariant
                    self.grid_wf(),
                    self.cells().len() == self.spec_side() * self.spec_side(),
                    side as int == self.spec_side(),
                    side <= MAX_SIDE,
                    0 <= y < side,
                    0 <= x <= side,
                    candidates@.len() == y as int * side as int + x as int,
                    forall|m: int|
                        0 <= m < candidates@.len() ==> (#[trigger] candidates@[m]).grid_wf()
                            && candidates@[m].spec_side() == BIT_KERNEL_SIZE as int
                            && candidates@[m].cells().len() == BIT_KERNEL_SIZE as int
                            * BIT_KERNEL_SIZE as int,
                decreases side - x,
            {
                candidates.push(self.subimage(x, y, BIT_KERNEL_SIZE));
                x = x + 1;
            }
            proof {
                assert(y as int * side as int + side as int == (y as int + 1) * side as int)
                    by (nonlinear_arith);
            }
            y = y + 1;
        }
        let space = BitImageSpace { side: BIT_KERNEL_SIZE };
        let km = Kmeans::new(num_kernels, &candidates, space);
        let r = km.move_means();
        proof {
            assert forall|i: int| 0 <= i < num_kernels implies (#[trigger] r@[i]).grid_wf()
                && r@[i].spec_side() == BIT_KERNEL_SIZE as int && r@[i].cells().len()
                == BIT_KERNEL_SIZE as int * BIT_KERNEL_SIZE as int by {
                assert(space.in_space(r@[i]));
            }
        }
        r
    }

    /// Projects this image through one binary kernel: one bit per window
    /// position of the stride grid, set when the window differs from the
    /// kernel in more than half its cells.
    pub fn project_through(&self, kernel: &BitImage, stride: usize) -> (r: BitImage)
        requires
            self.grid_wf(),
            self.cells().len() == self.spec_side() * self.spec_side(),
            self.spec_side() >= 1,
            kernel.grid_wf(),
            kernel.spec_side() == BIT_KERNEL_SIZE as int,
            kernel.cells().len() == BIT_KERNEL_SIZE as int * BIT_KERNEL_SIZE as int,
            1 <= stride <= MAX_SIDE,
        ensures
            r.grid_wf(),
            r.spec_side() == steps(self.spec_side(), stride as int),
            r.cells().len() == steps(self.spec_side(), stride as int) * steps(
                self.spec_side(),
                stride as int,
            ),
            forall|idx: int|
                0 <= idx < r.cells().len() ==> (#[trigger] r.cells()[idx]) == (hamming(
                    subgrid_window(
                        *self,
                        false,
                        (idx % steps(self.spec_side(), stride as int)) * stride as int,
                        (idx / steps(self.spec_side(), stride as int)) * stride as int,
                        BIT_KERNEL_SIZE as int,
                    ),
                    kernel.cells(),
                ) > kernel.cells().len() / 2),
    {
        let side = self.side();
        let c = (side + stride - 1) / stride;
        let ghost st = stride as int;
        proof {
            vstd::arithmetic::div_mod::lemma_fundamental_div_mod(side as int + st - 1, st);
            assert(c as int == steps(self.spec_side(), st));
            assert(c >= 1 && c as int <= side as int) by (nonlinear_arith)
                requires
                    side as int >= 1,
                    1 <= st <= MAX_SIDE as int,
                    c as int == (side as int + st - 1) / st,
                    side as int + st - 1 == st * ((side as int + st - 1) / st) + (side as int + st
                        - 1) % st,
                    0 <= (side as int + st - 1) % st,
                    ((side as int + st - 1) % st) < st,
            ;
            assert(c as int * c as int <= MAX_SIDE as int * MAX_SIDE as int) by (nonlinear_arith)
                requires
                    0 <= c as int <= MAX_SIDE as int,
            ;
        }
        let half = kernel.len() / 2;
        let mut result = BitImage::new();
        let mut ry: usize = 0;
        while ry < c
            invariant
                self.grid_wf(),
                self.cells().len() == self.spec_side() * self.spec_side(),
                self.spec_side() >= 1,
                kernel.grid_wf(),
                kernel.spec_side() == BIT_KERNEL_SIZE as int,
                kernel.cells().len() == BIT_KERNEL_SIZE as int * BIT_KERNEL_SIZE as int,
                1 <= stride <= MAX_SIDE,
                st == stride as int,
                side as int == self.spec_side(),
                side <= MAX_SIDE,
                c as int == steps(self.spec_side(), st),
                1 <= c as int <= side as int,
                c as int * c as int <= MAX_SIDE as int * MAX_SIDE as int,
                half as int == kernel.cells().len() / 2,
                0 <= ry <= c,
                result.grid_wf(),
                result.cells().len() == ry as int * c as int,
                forall|idx: int|
                    0 <= idx < ry as int * c as int ==> (#[trigger] result.cells()[idx]) == (
                    hamming(
                        subgrid_window(
                            *self,
                            false,
                            (idx % c as int) * st,
                            (idx / c as int) * st,
                            BIT_KERNEL_SIZE as int,
                        ),
                        kernel.cells(),
                    ) > kernel.cells().len() / 2),
            decreases c - ry,
        {
            let mut rx: usize = 0;
            while rx < c
                invariant
                    self.grid_wf(),
                    self.cells().len() == self.spec_side() * self.spec_side(),
                    self.spec_side() >= 1,
                    kernel.grid_wf(),
                    kernel.spec_side() == BIT_KERNEL_SIZE as int,
                    kernel.cells().len() == BIT_KERNEL_SIZE as int * BIT_KERNEL_SIZE as int,
                    1 <= stride <= MAX_SIDE,
                    st == stride as int,
                    side as int == self.spec_side(),
                    side <= MAX_SIDE,
                    c as int == steps(self.spec_side(), st),
                    1 <= c as int <= side as int,
                    c as int * c as int <= MAX_SIDE as int * MAX_SIDE as int,
                    half as int == kernel.cells().len() / 2,
                    0 <= ry < c,
                    0 <= rx <= c,
                    result.grid_wf(),
                    result.cells().len() == ry as int * c as int + rx as int,
                    forall|idx: int|
                        0 <= idx < ry as int * c as int + rx as int ==> (
                        #[trigger] result.cells()[idx]) == (hamming(
                            subgrid_window(
                                *self,
                                false,
                                (idx % c as int) * st,
                                (idx / c as int) * st,
                                BIT_KERNEL_SIZE as int,
                            ),
                            kernel.cells(),
                        ) > kernel.cells().len() / 2),
                decreases c - rx,
            {
                proof {
                    vstd::arithmetic::div_mod::lemma_fundamental_div_mod(
                        side as int + st - 1,
                        st,
                    );
                    assert(((rx as int) * st) < side as int && ((ry as int) * st) < side as int
                        && rx as int * st <= MAX_SIDE as int * MAX_SIDE as int && ry as int * st
                        <= MAX_SIDE as int * MAX_SIDE as int) by (nonlinear_arith)
                        requires
                            0 <= rx as int && (rx as int) < c as int,
                            0 <= ry as int && (ry as int) < c as int,
                            1 <= st <= MAX_SIDE as int,
                            1 <= c as int <= MAX_SIDE as int,
                            c as int == (side as int + st - 1) / st,
                            side as int + st - 1 == st * ((side as int + st - 1) / st) + (side
                                as int + st - 1) % st,
                            0 <= (side as int + st - 1) % st,
                            ((side as int + st - 1) % st) < st,
                    ;
                    assert((ry as int * c as int + rx as int) < c as int * c as int)
                        by (nonlinear_arith)
                        requires
                            0 <= rx as int && (rx as int) < c as int,
                            0 <= ry as int && (ry as int) < c as int,
                    ;
                }
                let x = rx * stride;
                let y = ry * stride;
                let sub = self.subimage(x, y, BIT_KERNEL_SIZE);
                let d = distance(&sub, kernel);
                let bit = d > half;
                result.add(bit);
                proof {
                    let idx0 = ry as int * c as int + rx as int;
                    vstd::arithmetic::div_mod::lemma_fundamental_div_mod_converse(
                        idx0,
                        c as int,
                        ry as int,
                        rx as int,
                    );
                    assert(result.cells()[idx0] == bit);
                }
                rx = rx + 1;
            }
            proof {
                assert(ry as int * c as int + c as int == (ry as int + 1) * c as int)
                    by (nonlinear_arith);
            }
            ry = ry + 1;
        }
        proof {
            result.lemma_wf_side();
            assert((c as int - 1) * (c as int - 1) < c as int * c as int) by (nonlinear_arith)
                requires
                    c as int >= 1,
            ;
            lemma_side_unique(result.cells().len() as int, result.spec_side(), c as int);
        }
        result
    }
}

/// The number of cells at which two equally shaped bit images differ.
pub fn distance(img1: &BitImage, img2: &BitImage) -> (r: usize)
    requires
        img1.grid_wf(),
        img2.grid_wf(),
        img1.spec_side() == img2.spec_side(),
        img1.cells().len() == img2.cells().len(),
    ensures
        r as nat == hamming(img1.cells(), img2.cells()),
{
    proof {
        img1.lemma_wf_side();
        assert(img1.cells().len() <= MAX_SIDE as int * MAX_SIDE as int) by (nonlinear_arith)
            requires
                side_fits(img1.cells().len() as int, img1.spec_side()),
                0 <= img1.spec_side() <= MAX_SIDE as int,
        ;
    }
    bits::distance(&img1.pixels, &img2.pixels) as usize
}

/// The Hamming distance, in the distance type the classifiers use.
pub fn real_distance(img1: &BitImage, img2: &BitImage) -> (r: u64)
    requires
        img1.grid_wf(),
        img2.grid_wf(),
        img1.spec_side() == img2.spec_side(),
        img1.cells().len() == img2.cells().len(),
    ensures
        r as nat == hamming(img1.cells(), img2.cells()),
{
    distance(img1, img2) as u64
}

/// How many of the images have their cell `p` set.
pub open spec fn true_count(imgs: Seq<BitImage>, p: int) -> int
    decreases imgs.len(),
{
    if imgs.len() == 0 {
        0
    } else {
        true_count(imgs.drop_last(), p) + (if imgs.last().cells()[p] {
            1int
        } else {
            0int
        })
    }
}

pub proof fn lemma_true_count_bound(imgs: Seq<BitImage>, p: int)
    ensures
        0 <= true_count(imgs, p) <= imgs.len(),
    decreases imgs.len(),
{
    if imgs.len() > 0 {
        lemma_true_count_bound(imgs.drop_last(), p);
    }
}

/// The majority image of a non-empty set of equally shaped bit images: cell
/// `p` of the result is set iff at least as many images have it set as clear.
pub fn image_mean(images: &Vec<BitImage>) -> (r: BitImage)
    requires
        images@.len() > 0,
        forall|i: int| 0 <= i < images@.len() ==> (#[trigger] images@[i]).grid_wf(),
        forall|i: int|
            0 <= i < images@.len() ==> (#[trigger] images@[i]).cells().len()
                == images@[0].cells().len(),
    ensures
        r.grid_wf(),
        r.cells().len() == images@[0].cells().len(),
        forall|p: int|
            0 <= p < r.cells().len() ==> (#[trigger] r.cells()[p]) == (2 * true_count(images@, p)
                >= images@.len()),
{
    let count = images.len();
    let len0 = images[0].len();
    proof {
        images@[0].lemma_wf_side();
        assert(len0 as int <= MAX_SIDE as int * MAX_SIDE as int) by (nonlinear_arith)
            requires
                side_fits(len0 as int, images@[0].spec_side()),
                0 <= images@[0].spec_side() <= MAX_SIDE as int,
                len0 == images@[0].cells().len(),
        ;
    }
    let mut counts: Vec<u64> = Vec::new();
    let mut p: usize = 0;
    while p < len0
        invariant
            0 <= p <= len0,
            counts@.len() == p,
            forall|q: int| 0 <= q < p ==> (#[trigger] counts@[q]) == 0,
        decreases len0 - p,
    {
        counts.push(0);
        p = p + 1;
    }
    let mut i: usize = 0;
    while i < count
        invariant
            count == images@.len(),
            count > 0,
            forall|j: int| 0 <= j < count ==> (#[trigger] images@[j]).grid_wf(),
            forall|j: int|
                0 <= j < count ==> (#[trigger] images@[j]).cells().len() == len0 as int,
            len0 == images@[0].cells().len(),
            counts@.len() == len0,
            0 <= i <= count,
            forall|q: int|
                0 <= q < len0 ==> (#[trigger] counts@[q]) as int == true_count(
                    images@.take(i as int),
                    q,
                ),
        decreases count - i,
    {
        let img = &images[i];
        let side = img.side();
        let mut q: usize = 0;
        while q < len0
            invariant
                count == images@.len(),
                forall|j: int| 0 <= j < count ==> (#[trigger] images@[j]).grid_wf(),
                forall|j: int|
                    0 <= j < count ==> (#[trigger] images@[j]).cells().len() == len0 as int,
                counts@.len() == len0,
                0 <= i < count,
                img == &images@[i as int],
                img.cells().len() == len0 as int,
                0 <= q <= len0,
                forall|w: int|
                    q <= w < len0 ==> (#[trigger] counts@[w]) as int == true_count(
                        images@.take(i as int),
                        w,
                    ),
                forall|w: int|
                    0 <= w < q ==> (#[trigger] counts@[w]) as int == true_count(
                        images@.take(i as int + 1),
                        w,
                    ),
            decreases len0 - q,
        {
            proof {
                assert(images@.take(i as int + 1).drop_last() =~= images@.take(i as int));
                assert(images@.take(i as int + 1).last() == images@[i as int]);
                lemma_true_count_bound(images@.take(i as int), q as int);
            }
            let bit = img.bit_at(q);
            let v = counts[q] + (if bit {
                1u64
            } else {
                0u64
            });
            counts.set(q, v);
            q = q + 1;
        }
        i = i + 1;
    }
    proof {
        assert(images@.take(count as int) =~= images@);
    }
    let mut result = BitImage::new();
    let mut p2: usize = 0;
    while p2 < len0
        invariant
            count == images@.len(),
            count > 0,
            counts@.len() == len0,
            len0 as int <= MAX_SIDE as int * MAX_SIDE as int,
            forall|q: int|
                0 <= q < len0 ==> (#[trigger] counts@[q]) as int == true_count(images@, q),
            0 <= p2 <= len0,
            result.grid_wf(),
            result.cells().len() == p2,
            forall|q: int|
                0 <= q < p2 ==> (#[trigger] result.cells()[q]) == (2 * true_count(images@, q)
                    >= count as int),
        decreases len0 - p2,
    {
        proof {
            lemma_true_count_bound(images@, p2 as int);
        }
        let c = counts[p2];
        let bit = 2 * (c as u128) >= count as u128;
        result.add(bit);
        p2 = p2 + 1;
    }
    result
}

impl BitImage {
    /// The bit at a flat row-major position.
    pub fn bit_at(&self, p: usize) -> (r: bool)
        requires
            self.grid_wf(),
            (p as int) < self.cells().len(),
        ensures
            r == self.cells()[p as int],
    {
        self.pixels.is_set(p as u64)
    }
}

/// The space of bit images of one fixed side: Hamming distance, majority
/// mean.
pub struct BitImageSpace {
    pub side: usize,
}

impl Metric<BitImage> for BitImageSpace {
    open spec fn in_space(&self, p: BitImage) -> bool {
        p.grid_wf() && p.spec_side() == self.side as int && p.cells().len() == self.side as int
            * self.side as int
    }

    open spec fn spec_distance(&self, a: BitImage, b: BitImage) -> u64 {
        hamming(a.cells(), b.cells()) as u64
    }

    open spec fn spec_same(&self, a: BitImage, b: BitImage) -> bool {
        a.cells() == b.cells() && a.spec_side() == b.spec_side()
    }

    fn distance(&self, a: &BitImage, b: &BitImage) -> (r: u64) {
        let d = real_distance(a, b);
        proof {
            lemma_hamming_le_len(a.cells(), b.cells());
        }
        d
    }

    fn same_point(&self, a: &BitImage, b: &BitImage) -> (r: bool) {
        let n = a.len();
        let mut i: usize = 0;
        while i < n
            invariant
                self.in_space(*a),
                self.in_space(*b),
                n as nat == a.cells().len(),
                b.cells().len() == n as nat,
                0 <= i <= n,
                forall|j: int| 0 <= j < i ==> a.cells()[j] == b.cells()[j],
            decreases n - i,
        {
            if a.bit_at(i) != b.bit_at(i) {
                return false;
            }
            i = i + 1;
        }
        proof {
            assert(a.cells() =~= b.cells());
        }
        true
    }

    fn clone_point(&self, p: &BitImage) -> (r: BitImage) {
        p.duplicate()
    }

    proof fn lemma_same_is_equivalence(&self, a: BitImage, b: BitImage, c: BitImage) {
    }

    proof fn lemma_distance_respects_same(&self, q: BitImage, a: BitImage, b: BitImage) {
    }
}

impl MeanAggregate<BitImage> for BitImageSpace {
    open spec fn mean_post(&self, items: Seq<BitImage>, r: BitImage) -> bool {
        &&& r.cells().len() == items[0].cells().len()
        &&& forall|p: int|
            0 <= p < r.cells().len() ==> (#[trigger] r.cells()[p]) == (2 * true_count(items, p)
                >= items.len())
    }

    fn mean(&self, items: &Vec<BitImage>) -> (r: BitImage) {
        let m = image_mean(items);
        proof {
            m.lemma_wf_side();
            items@[0].lemma_wf_side();
            lemma_side_unique(m.cells().len() as int, m.spec_side(), self.side as int);
        }
        m
    }

    proof fn lemma_mean_respects_same(&self, items: Seq<BitImage>, a: BitImage, b: BitImage) {
    }

    proof fn lemma_mean_respects_items(
        &self,
        items1: Seq<BitImage>,
        items2: Seq<BitImage>,
        r: BitImage,
    ) {
        assert forall|p: int| 0 <= p < r.cells().len() implies (#[trigger] r.cells()[p]) == (2
            * true_count(items2, p) >= items2.len()) by {
            lemma_true_count_congruent(items1, items2, p);
        }
    }
}

/// Per-cell counts depend only on the images' bits.
proof fn lemma_true_count_congruent(a: Seq<BitImage>, b: Seq<BitImage>, p: int)
    requires
        a.len() == b.len(),
        forall|i: int| 0 <= i < a.len() ==> (#[trigger] a[i]).cells() == b[i].cells(),
    ensures
        true_count(a, p) == true_count(b, p),
    decreases a.len(),
{
    if a.len() > 0 {
        assert forall|i: int| 0 <= i < a.drop_last().len() implies (#[trigger] a.drop_last()[
        i]).cells() == b.drop_last()[i].cells() by {
            assert(a.drop_last()[i] == a[i] && b.drop_last()[i] == b[i]);
        }
        lemma_true_count_congruent(a.drop_last(), b.drop_last(), p);
    }
}

/// A grayscale image turned into bits by the patch descriptor.
pub fn binary_via_brief_patch(src: &Image, patch_size: usize) -> (r: BitImage)
    requires
        src.grid_wf(),
        src.cells().len() == src.spec_side() * src.spec_side(),
        patch_size <= MAX_SIDE,
        src.cells().len() * (patch_size * patch_size) < MAX_SIDE * MAX_SIDE,
    ensures
        r.grid_wf(),
        r.cells().len() == src.cells().len() * (patch_size as int * patch_size as int),
{
    let bits = patchify(src, patch_size);
    proof {
        assert(MAX_SIDE * MAX_SIDE < u64::MAX);
    }
    BitImage::from(&bits)
}

/// How deep a chain of projections keeps at least `num_kernels` windows.
pub open spec fn bit_sides_ok(side: int, levels: int, kernels: int) -> bool
    decreases levels,
{
    if levels <= 0 {
        true
    } else {
        side >= 1 && kernels <= side * side && bit_sides_ok(steps(side, 2), levels - 1, kernels)
    }
}

/// Converts one image into its stack of binary kernel responses: the patch
/// bits of the image, then `levels` rounds in which every current bit image
/// is projected through each of its own clustered kernels (the clustering's
/// seeding is random).
pub fn to_kernelized(img: &Image, levels: usize, num_kernels: usize) -> (r: Vec<BitImage>)
    requires
        img.grid_wf(),
        img.cells().len() == img.spec_side() * img.spec_side(),
        img.cells().len() * (BIT_KERNEL_SIZE * BIT_KERNEL_SIZE) < MAX_SIDE * MAX_SIDE,
        num_kernels >= 1,
        img.cells().len() * (BIT_KERNEL_SIZE as int * BIT_KERNEL_SIZE as int) == first_bit_side(
            img.cells().len() * (BIT_KERNEL_SIZE as int * BIT_KERNEL_SIZE as int),
        ) * first_bit_side(img.cells().len() * (BIT_KERNEL_SIZE as int * BIT_KERNEL_SIZE as int)),
        bit_sides_ok(
            first_bit_side(img.cells().len() * (BIT_KERNEL_SIZE as int * BIT_KERNEL_SIZE as int)),
            levels as int,
            num_kernels as int,
        ),
    ensures
        r@.len() >= 1,
        forall|i: int|
            0 <= i < r@.len() ==> (#[trigger] r@[i]).grid_wf() && r@[i].cells().len() == r@[
            i].spec_side() * r@[i].spec_side(),
{
    let base = binary_via_brief_patch(img, BIT_KERNEL_SIZE);
    proof {
        base.lemma_wf_side();
        assert(side_fits(base.cells().len() as int, base.spec_side()));
        let chosen = first_bit_side(base.cells().len() as int);
        assert(chosen >= 0 && side_fits(base.cells().len() as int, chosen));
        lemma_side_unique(base.cells().len() as int, base.spec_side(), chosen);
    }
    let mut kernelized: Vec<BitImage> = Vec::new();
    let ghost side0 = base.spec_side();
    let mut cur_side = base.side();
    kernelized.push(base);
    let mut t: usize = 0;
    while t < levels
        invariant
            num_kernels >= 1,
            0 <= t <= levels,
            kernelized@.len() >= 1,
            cur_side as int == kernelized@[0].spec_side(),
            forall|i: int|
                0 <= i < kernelized@.len() ==> (#[trigger] kernelized@[i]).grid_wf()
                    && kernelized@[i].cells().len() == kernelized@[i].spec_side()
                    * kernelized@[i].spec_side() && kernelized@[i].spec_side()
                    == cur_side as int,
            bit_sides_ok(cur_side as int, (levels - t) as int, num_kernels as int),
        decreases levels - t,
    {
        let n = kernelized.len();
        let mut iterated: Vec<BitImage> = Vec::new();
        let ghost next_side = steps(cur_side as int, 2);
        let mut i: usize = 0;
        while i < n
            invariant
                num_kernels >= 1,
                n == kernelized@.len(),
                forall|i2: int|
                    0 <= i2 < kernelized@.len() ==> (#[trigger] kernelized@[i2]).grid_wf()
                        && kernelized@[i2].cells().len() == kernelized@[i2].spec_side()
                        * kernelized@[i2].spec_side() && kernelized@[i2].spec_side()
                        == cur_side as int,
                cur_side >= 1,
                num_kernels as int <= cur_side as int * cur_side as int,
                next_side == steps(cur_side as int, 2),
                0 <= i <= n,
                forall|m: int|
                    0 <= m < iterated@.len() ==> (#[trigger] iterated@[m]).grid_wf()
                        && iterated@[m].cells().len() == iterated@[m].spec_side()
                        * iterated@[m].spec_side() && iterated@[m].spec_side() == next_side,
                iterated@.len() == i as int * num_kernels as int,
            decreases n - i,
        {
            let src = &kernelized[i];
            let kernels = src.find_kernels(num_kernels);
            let mut k: usize = 0;
            while k < num_kernels
                invariant
                    num_kernels >= 1,
                    n == kernelized@.len(),
                    0 <= i < n,
                    src == &kernelized@[i as int],
                    src.grid_wf(),
                    src.cells().len() == src.spec_side() * src.spec_side(),
                    src.spec_side() == cur_side as int,
                    cur_side >= 1,
                    next_side == steps(cur_side as int, 2),
                    kernels@.len() == num_kernels,
                    forall|k2: int|
                        0 <= k2 < num_kernels ==> (#[trigger] kernels@[k2]).grid_wf()
                            && kernels@[k2].spec_side() == BIT_KERNEL_SIZE as int
                            && kernels@[k2].cells().len() == BIT_KERNEL_SIZE as int
                            * BIT_KERNEL_SIZE as int,
                    0 <= k <= num_kernels,
                    forall|m: int|
                        0 <= m < iterated@.len() ==> (#[trigger] iterated@[m]).grid_wf()
                            && iterated@[m].cells().len() == iterated@[m].spec_side()
                            * iterated@[m].spec_side() && iterated@[m].spec_side() == next_side,
                    iterated@.len() == i as int * num_kernels as int + k as int,
                decreases num_kernels - k,
            {
                let projected = src.project_through(&kernels[k], 2);
                iterated.push(projected);
                k = k + 1;
            }
            proof {
                assert(i as int * num_kernels as int + num_kernels as int == (i as int + 1)
                    * num_kernels as int) by (nonlinear_arith);
            }
            i = i + 1;
        }
        proof {
            vstd::arithmetic::div_mod::lemma_fundamental_div_mod(cur_side as int + 1, 2);
            assert(1 <= next_side <= cur_side as int) by (nonlinear_arith)
                requires
                    cur_side as int >= 1,
                    next_side == (cur_side as int + 1) / 2,
                    cur_side as int + 1 == 2 * ((cur_side as int + 1) / 2) + (cur_side as int + 1)
                        % 2,
                    0 <= (cur_side as int + 1) % 2,
                    ((cur_side as int + 1) % 2) < 2,
            ;
            assert(iterated@.len() >= 1) by (nonlinear_arith)
                requires
                    iterated@.len() == n as int * num_kernels as int,
                    n as int >= 1,
                    num_kernels as int >= 1,
            ;
        }
        kernelized = iterated;
        cur_side = (cur_side + 1) / 2;
        t = t + 1;
    }
    kernelized
}

/// The side the base bit image of `n` cells settles on.
pub open spec fn first_bit_side(n: int) -> int {
    choose|s: int| s >= 0 && side_fits(n, s)
}

/// The distance between two equally shaped stacks of bit images: the summed
/// Hamming distance of corresponding images, clamped to the result type's
/// range.
pub fn kernelized_distance(k1: &Vec<BitImage>, k2: &Vec<BitImage>) -> (r: u64)
    requires
        k1@.len() == k2@.len(),
        forall|i: int|
            0 <= i < k1@.len() ==> (#[trigger] k1@[i]).grid_wf() && k2@[i].grid_wf() && k1@[
            i].spec_side() == k2@[i].spec_side() && k1@[i].cells().len() == k2@[i].cells().len(),
    ensures
        r as int == sat64(bit_stack_dist(k1@, k2@, k1@.len() as int)),
{
    let n = k1.len();
    let mut total: u64 = 0;
    let mut i: usize = 0;
    while i < n
        invariant
            n as nat == k1@.len(),
            k2@.len() == n as nat,
            forall|j: int|
                0 <= j < n ==> (#[trigger] k1@[j]).grid_wf() && k2@[j].grid_wf() && k1@[
                j].spec_side() == k2@[j].spec_side() && k1@[j].cells().len() == k2@[
                j].cells().len(),
            0 <= i <= n,
            total as int == sat64(bit_stack_dist(k1@, k2@, i as int)),
        decreases n - i,
    {
        let d = real_distance(&k1[i], &k2[i]);
        proof {
            lemma_bit_stack_dist_nonneg(k1@, k2@, i as int);
            lemma_hamming_le_len(k1@[i as int].cells(), k2@[i as int].cells());
        }
        total = total.saturating_add(d);
        i = i + 1;
    }
    total
}

/// Sum of the Hamming distances of corresponding bit images.
pub open spec fn bit_stack_dist(a: Seq<BitImage>, b: Seq<BitImage>, n: int) -> int
    decreases n,
{
    if n <= 0 {
        0
    } else {
        bit_stack_dist(a, b, n - 1) + hamming(a[n - 1].cells(), b[n - 1].cells())
    }
}

pub proof fn lemma_bit_stack_dist_nonneg(a: Seq<BitImage>, b: Seq<BitImage>, n: int)
    ensures
        bit_stack_dist(a, b, n) >= 0,
    decreases n,
{
    if n > 0 {
        lemma_bit_stack_dist_nonneg(a, b, n - 1);
    }
}


/// The space of binary response stacks of one fixed shape.
pub struct BitStackSpace {
    pub count: usize,
    pub side: usize,
}

impl Metric<Vec<BitImage>> for BitStackSpace {
    open spec fn in_space(&self, p: Vec<BitImage>) -> bool {
        p@.len() == self.count && forall|i: int|
            0 <= i < p@.len() ==> (#[trigger] p@[i]).grid_wf() && p@[i].spec_side()
                == self.side as int && p@[i].cells().len() == self.side as int * self.side as int
    }

    open spec fn spec_distance(&self, a: Vec<BitImage>, b: Vec<BitImage>) -> u64 {
        sat64(bit_stack_dist(a@, b@, a@.len() as int)) as u64
    }

    open spec fn spec_same(&self, a: Vec<BitImage>, b: Vec<BitImage>) -> bool {
        a@.len() == b@.len() && forall|i: int|
            0 <= i < a@.len() ==> (#[trigger] a@[i]).cells() == b@[i].cells() && a@[i].spec_side()
                == b@[i].spec_side()
    }

    fn distance(&self, a: &Vec<BitImage>, b: &Vec<BitImage>) -> (r: u64) {
        let d = kernelized_distance(a, b);
        proof {
            lemma_bit_stack_dist_nonneg(a@, b@, a@.len() as int);
        }
        d
    }

    fn same_point(&self, a: &Vec<BitImage>, b: &Vec<BitImage>) -> (r: bool) {
        let n = a.len();
        let mut i: usize = 0;
        while i < n
            invariant
                self.in_space(*a),
                self.in_space(*b),
                n == a@.len(),
                b@.len() == n as nat,
                0 <= i <= n,
                forall|j: int|
                    0 <= j < i ==> (#[trigger] a@[j]).cells() == b@[j].cells() && a@[j].spec_side()
                        == b@[j].spec_side(),
            decreases n - i,
        {
            if !bit_images_equal(&a[i], &b[i]) {
                return false;
            }
            i = i + 1;
        }
        true
    }

    fn clone_point(&self, p: &Vec<BitImage>) -> (r: Vec<BitImage>) {
        let n = p.len();
        let mut r: Vec<BitImage> = Vec::new();
        let mut i: usize = 0;
        while i < n
            invariant
                self.in_space(*p),
                n == p@.len(),
                0 <= i <= n,
                r@.len() == i,
                forall|j: int|
                    0 <= j < i ==> (#[trigger] r@[j]).cells() == p@[j].cells() && r@[j].spec_side()
                        == p@[j].spec_side() && r@[j].grid_wf(),
            decreases n - i,
        {
            r.push(p[i].duplicate());
            i = i + 1;
        }
        r
    }

    proof fn lemma_same_is_equivalence(
        &self,
        a: Vec<BitImage>,
        b: Vec<BitImage>,
        c: Vec<BitImage>,
    ) {
    }

    proof fn lemma_distance_respects_same(
        &self,
        q: Vec<BitImage>,
        a: Vec<BitImage>,
        b: Vec<BitImage>,
    ) {
        lemma_bit_stack_dist_congruent(q@, a@, b@, q@.len() as int);
    }
}

/// The binary stack distance depends only on the images' bits.
proof fn lemma_bit_stack_dist_congruent(
    qs: Seq<BitImage>,
    a: Seq<BitImage>,
    b: Seq<BitImage>,
    n: int,
)
    requires
        forall|i: int| 0 <= i < n ==> (#[trigger] a[i]).cells() == b[i].cells(),
    ensures
        bit_stack_dist(qs, a, n) == bit_stack_dist(qs, b, n),
    decreases n,
{
    if n > 0 {
        lemma_bit_stack_dist_congruent(qs, a, b, n - 1);
    }
}

/// Whether two bit images hold the same bits in the same shape.
pub fn bit_images_equal(a: &BitImage, b: &BitImage) -> (r: bool)
    requires
        a.grid_wf(),
        b.grid_wf(),
    ensures
        r == (a.cells() == b.cells() && a.spec_side() == b.spec_side()),
{
    if a.side() != b.side() || a.len() != b.len() {
        proof {
            if a.cells() == b.cells() {
                assert(a.cells().len() == b.cells().len());
            }
        }
        return false;
    }
    let n = a.len();
    let mut i: usize = 0;
    while i < n
        invariant
            a.grid_wf(),
            b.grid_wf(),
            n as nat == a.cells().len(),
            b.cells().len() == n as nat,
            0 <= i <= n,
            forall|j: int| 0 <= j < i ==> a.cells()[j] == b.cells()[j],
        decreases n - i,
    {
        if a.bit_at(i) != b.bit_at(i) {
            return false;
        }
        i = i + 1;
    }
    proof {
        assert(a.cells() =~= b.cells());
    }
    true
}

} // verus!
