//! Convolution-style feature extraction: kernels found by clustering the
//! small windows of images, images projected through kernels into response
//! grids, and a distance over the projected stacks.  Kernel selection runs
//! through k-means, whose seeding is random, so contracts here state what
//! holds of every outcome: shapes, counts, and how each response pixel is
//! computed from the chosen kernels.

use vstd::prelude::*;
use crate::mnist_data::{Image, Grid, subgrid_window, lemma_side_unique, MAX_SIDE};
use crate::euclidean_distance::{
    euclidean_distance, sq_diff_sum, lemma_sq_diff_sum_bound, ImageSpace,
};
use crate::kmeans::{Kmeans, derived_from, all_in_space};
use crate::space::Metric;

verus! {

/// How many kernels the standard extraction asks for.
pub const NUM_KERNELS: usize = 8;

/// The side of a kernel window.
pub const KERNEL_SIZE: usize = 3;

/// The step between window positions when projecting.
pub const STRIDE: usize = 2;

/// How many window positions a row of the given side offers at the given
/// stride.
pub open spec fn steps(side: int, stride: int) -> int {
    if side <= 0 {
        0
    } else {
        (side + stride - 1) / stride
    }
}

/// A kernel-shaped image: a full square of the given side.
pub open spec fn window_shaped(ks: int, c: Image) -> bool {
    c.grid_wf() && c.spec_side() == ks && c.cells().len() == ks * ks
}

/// `c` reads as some `ks`-window of one of the images.
pub open spec fn is_window_of(images: Seq<Image>, ks: int, c: Image) -> bool {
    exists|j: int, x: int, y: int|
        0 <= j < images.len() && 0 <= x < images[j].spec_side() && 0 <= y
            < images[j].spec_side() && c.cells() == #[trigger] subgrid_window(
            images[j],
            0u8,
            x,
            y,
            ks,
        )
}

/// The squared Euclidean distance between the kernel and the window of `img`
/// centered on position `idx` of the stride grid.
pub open spec fn grid_dist(img: Image, kernel: Image, stride: int, idx: int) -> int {
    let c = steps(img.spec_side(), stride);
    sq_diff_sum(
        subgrid_window(img, 0u8, (idx % c) * stride, (idx / c) * stride, kernel.spec_side()),
        kernel.cells(),
        kernel.cells().len() as int,
    )
}

/// The response byte for a squared window distance: the distance scaled onto
/// the byte range in exact thirds (zero distance gives zero; the scale tops
/// out at 255).
pub open spec fn pixelize_spec(d: int) -> int {
    if d / 3 > 255 {
        255
    } else {
        d / 3
    }
}

/// `out` is `img` projected through `kernel` at the given stride: one
/// response byte per window position, row-major.
pub open spec fn applied_to(img: Image, kernel: Image, stride: int, out: Image) -> bool {
    let c = steps(img.spec_side(), stride);
    &&& out.grid_wf()
    &&& out.cells().len() == c * c
    &&& out.spec_side() == c
    &&& forall|idx: int|
        0 <= idx < c * c ==> (#[trigger] out.cells()[idx]) as int == pixelize_spec(
            grid_dist(img, kernel, stride, idx),
        )
}

/// Scales a squared window distance onto the byte range.
pub fn pixelize(distance: u64) -> (r: u8)
    ensures
        r as int == pixelize_spec(distance as int),
{
    let t = distance / 3;
    if t > 255 {
        255
    } else {
        t as u8
    }
}

/// Projects an image through one kernel: the response at every window
/// position of the stride grid, row-major.
pub fn apply_kernel_to(img: &Image, kernel: &Image) -> (r: Image)
    requires
        img.grid_wf(),
        img.cells().len() == img.spec_side() * img.spec_side(),
        kernel.grid_wf(),
        kernel.spec_side() == KERNEL_SIZE as int,
        kernel.cells().len() == KERNEL_SIZE as int * KERNEL_SIZE as int,
        img.spec_side() >= 1,
    ensures
        applied_to(*img, *kernel, STRIDE as int, r),
{
    proof {
        img.lemma_wf_side();
    }
    let side = img.side();
    let c = (side + STRIDE - 1) / STRIDE;
    proof {
        assert(c as int == steps(img.spec_side(), STRIDE as int));
        assert(c as int * c as int <= MAX_SIDE as int * MAX_SIDE as int) by (nonlinear_arith)
            requires
                0 <= c as int <= MAX_SIDE as int,
        ;
    }
    let mut result = Image::new();
    let mut ry: usize = 0;
    while ry < c
        invariant
            img.grid_wf(),
            img.cells().len() == img.spec_side() * img.spec_side(),
            kernel.grid_wf(),
            kernel.spec_side() == KERNEL_SIZE as int,
            kernel.cells().len() == KERNEL_SIZE as int * KERNEL_SIZE as int,
            img.spec_side() >= 1,
            side as int == img.spec_side(),
            side <= MAX_SIDE,
            c as int == steps(img.spec_side(), STRIDE as int),
            c as int * c as int <= MAX_SIDE as int * MAX_SIDE as int,
            0 <= ry <= c,
            result.grid_wf(),
            result.cells().len() == ry as int * c as int,
            forall|idx: int|
                0 <= idx < ry as int * c as int ==> (#[trigger] result.cells()[idx]) as int
                    == pixelize_spec(grid_dist(*img, *kernel, STRIDE as int, idx)),
        decreases c - ry,
    {
        let mut rx: usize = 0;
        while rx < c
            invariant
                img.grid_wf(),
                img.cells().len() == img.spec_side() * img.spec_side(),
                kernel.grid_wf(),
                kernel.spec_side() == KERNEL_SIZE as int,
                kernel.cells().len() == KERNEL_SIZE as int * KERNEL_SIZE as int,
                img.spec_side() >= 1,
                side as int == img.spec_side(),
                side <= MAX_SIDE,
                c as int == steps(img.spec_side(), STRIDE as int),
                c as int * c as int <= MAX_SIDE as int * MAX_SIDE as int,
                0 <= ry < c,
                0 <= rx <= c,
                result.grid_wf(),
                result.cells().len() == ry as int * c as int + rx as int,
                forall|idx: int|
                    0 <= idx < ry as int * c as int + rx as int ==> (#[trigger] result.cells()[
                    idx]) as int == pixelize_spec(grid_dist(*img, *kernel, STRIDE as int, idx)),
            decreases c - rx,
        {
            let x = rx * STRIDE;
            let y = ry * STRIDE;
            proof {
                vstd::arithmetic::div_mod::lemma_fundamental_div_mod(
                    side as int + STRIDE as int - 1,
                    STRIDE as int,
                );
                assert(((rx as int) * STRIDE as int) < side as int && ((ry as int) * STRIDE
                    as int) < side as int) by (nonlinear_arith)
                    requires
                        0 <= rx as int && (rx as int) < c as int,
                        0 <= ry as int && (ry as int) < c as int,
                        STRIDE as int == 2,
                        c as int == (side as int + 1) / 2,
                        side as int + 1 == 2 * ((side as int + 1) / 2) + (side as int + 1) % 2,
                        0 <= (side as int + 1) % 2 < 2,
                ;
            }
            let sub = img.subimage(x, y, KERNEL_SIZE);
            let d = euclidean_distance(&sub, kernel);
            let p = pixelize(d);
            proof {
                assert((ry as int * c as int + rx as int) < c as int * c as int)
                    by (nonlinear_arith)
                    requires
                        0 <= rx as int && (rx as int) < c as int,
                        0 <= ry as int && (ry as int) < c as int,
                ;
            }
            result.add(p);
            proof {
                let idx0 = ry as int * c as int + rx as int;
                vstd::arithmetic::div_mod::lemma_fundamental_div_mod_converse(
                    idx0,
                    c as int,
                    ry as int,
                    rx as int,
                );
                assert(idx0 < c as int * c as int) by (nonlinear_arith)
                    requires
                        0 <= rx as int && (rx as int) < c as int,
                        0 <= ry as int && (ry as int) < c as int,
                        idx0 == ry as int * c as int + rx as int,
                ;
                assert(result.cells()[idx0] == p);
            }
            rx = rx + 1;
        }
        proof {
            assert(ry as int * c as int + c as int == (ry as int + 1) * c as int)
                by (nonlinear_arith);
        }
        ry = ry + 1;
    }
    proof {
        result.lemma_wf_side();
        if c > 0 {
            assert((c as int - 1) * (c as int - 1) < c as int * c as int) by (nonlinear_arith)
                requires
                    c as int >= 1,
            ;
        }
        lemma_side_unique(result.cells().len() as int, result.spec_side(), c as int);
    }
    result
}

/// Projects one image through every kernel, in kernel order.
pub fn project_image_through(img: &Image, kernels: &Vec<Image>) -> (r: Vec<Image>)
    requires
        img.grid_wf(),
        img.cells().len() == img.spec_side() * img.spec_side(),
        img.spec_side() >= 1,
        forall|k: int|
            0 <= k < kernels@.len() ==> window_shaped(KERNEL_SIZE as int, #[trigger] kernels@[k]),
    ensures
        r@.len() == kernels@.len(),
        forall|k: int|
            0 <= k < kernels@.len() ==> applied_to(
                *img,
                kernels@[k],
                STRIDE as int,
                #[trigger] r@[k],
            ),
{
    let n = kernels.len();
    let mut r: Vec<Image> = Vec::new();
    let mut k: usize = 0;
    while k < n
        invariant
            img.grid_wf(),
            img.cells().len() == img.spec_side() * img.spec_side(),
            img.spec_side() >= 1,
            n == kernels@.len(),
            forall|j: int|
                0 <= j < n ==> window_shaped(KERNEL_SIZE as int, #[trigger] kernels@[j]),
            0 <= k <= n,
            r@.len() == k,
            forall|j: int|
                0 <= j < k ==> applied_to(*img, kernels@[j], STRIDE as int, #[trigger] r@[j]),
        decreases n - k,
    {
        r.push(apply_kernel_to(img, &kernels[k]));
        k = k + 1;
    }
    r
}

/// Projects every image through every kernel: the responses of image `i`
/// occupy positions `i * kernels.len() ..` of the result, in kernel order.
pub fn project_all_through(images: &Vec<Image>, kernels: &Vec<Image>) -> (r: Vec<Image>)
    requires
        forall|i: int|
            0 <= i < images@.len() ==> (#[trigger] images@[i]).grid_wf() && images@[i].cells().len()
                == images@[i].spec_side() * images@[i].spec_side() && images@[i].spec_side() >= 1,
        forall|k: int|
            0 <= k < kernels@.len() ==> window_shaped(KERNEL_SIZE as int, #[trigger] kernels@[k]),
    ensures
        r@.len() == images@.len() * kernels@.len(),
        forall|i: int, k: int|
            0 <= i < images@.len() && 0 <= k < kernels@.len() ==> applied_to(
                images@[i],
                kernels@[k],
                STRIDE as int,
                #[trigger] r@[i * kernels@.len() + k],
            ),
{
    let n = images.len();
    let nk = kernels.len();
    let mut r: Vec<Image> = Vec::new();
    let mut i: usize = 0;
    while i < n
        invariant
            n == images@.len(),
            nk == kernels@.len(),
            forall|j: int|
                0 <= j < n ==> (#[trigger] images@[j]).grid_wf() && images@[j].cells().len()
                    == images@[j].spec_side() * images@[j].spec_side() && images@[j].spec_side()
                    >= 1,
            forall|k: int|
                0 <= k < nk ==> window_shaped(KERNEL_SIZE as int, #[trigger] kernels@[k]),
            0 <= i <= n,
            r@.len() == i as int * nk as int,
            forall|j: int, k: int|
                0 <= j < i as int && 0 <= k < nk ==> applied_to(
                    images@[j],
                    kernels@[k],
                    STRIDE as int,
                    #[trigger] r@[j * nk as int + k],
                ),
        decreases n - i,
    {
        let block = project_image_through(&images[i], kernels);
        let ghost prev = r@;
        let mut k: usize = 0;
        while k < nk
            invariant
                nk == block@.len(),
                nk == kernels@.len(),
                (i as int) < images@.len(),
                forall|j: int|
                    0 <= j < nk ==> applied_to(
                        images@[i as int],
                        kernels@[j],
                        STRIDE as int,
                        #[trigger] block@[j],
                    ),
                0 <= k <= nk,
                r@.len() == prev.len() + k,
                forall|m: int| 0 <= m < prev.len() ==> #[trigger] r@[m] == prev[m],
                forall|j: int|
                    0 <= j < k ==> applied_to(
                        images@[i as int],
                        kernels@[j],
                        STRIDE as int,
                        #[trigger] r@[prev.len() + j],
                    ),
            decreases nk - k,
        {
            let v = block[k].duplicate();
            proof {
                lemma_applied_congruence(images@[i as int], kernels@[k as int], block@[k as int], v);
            }
            r.push(v);
            k = k + 1;
        }
        proof {
            assert forall|j: int, k2: int|
                0 <= j < i as int + 1 && 0 <= k2 < nk implies applied_to(
                images@[j],
                kernels@[k2],
                STRIDE as int,
                #[trigger] r@[j * nk as int + k2],
            ) by {
                if j < i as int {
                    assert(0 <= j * nk as int + k2 && (j * nk as int + k2) < i as int
                        * nk as int) by (nonlinear_arith)
                        requires
                            0 <= j && j < i as int,
                            0 <= k2 && k2 < nk as int,
                    ;
                    assert(r@[j * nk as int + k2] == prev[j * nk as int + k2]);
                } else {
                    assert(j * nk as int + k2 == i as int * nk as int + k2);
                    assert(prev.len() == i as int * nk as int);
                }
            }
            assert(i as int * nk as int + nk as int == (i as int + 1) * nk as int)
                by (nonlinear_arith);
        }
        i = i + 1;
    }
    r
}

/// Two images with the same cells and side satisfy the same projection
/// relation.
proof fn lemma_applied_congruence(img: Image, kernel: Image, a: Image, b: Image)
    requires
        applied_to(img, kernel, STRIDE as int, a),
        b.cells() == a.cells(),
        b.spec_side() == a.spec_side(),
    ensures
        applied_to(img, kernel, STRIDE as int, b),
{
    crate::mnist_data::lemma_grid_wf_congruence(a, b);
}

/// The total number of windows the images offer.
pub open spec fn windows_count(images: Seq<Image>) -> int
    decreases images.len(),
{
    if images.len() == 0 {
        0
    } else {
        windows_count(images.drop_last()) + images.last().spec_side() * images.last().spec_side()
    }
}

/// Appends every `kernel_size`-window of the image, row-major by window
/// center.
pub fn add_kernels_from_to(img: &Image, raw_filters: &mut Vec<Image>, kernel_size: usize)
    requires
        img.grid_wf(),
        img.cells().len() == img.spec_side() * img.spec_side(),
        kernel_size >= 1,
        kernel_size <= MAX_SIDE,
    ensures
        final(raw_filters)@.len() == old(raw_filters)@.len() + img.spec_side()
            * img.spec_side(),
        forall|m: int|
            0 <= m < old(raw_filters)@.len() ==> #[trigger] final(raw_filters)@[m] == old(
                raw_filters,
            )@[m],
        forall|m: int|
            old(raw_filters)@.len() <= m < final(raw_filters)@.len() ==> window_shaped(
                kernel_size as int,
                #[trigger] final(raw_filters)@[m],
            ) && is_window_of(seq![*img], kernel_size as int, final(raw_filters)@[m]),
{
    let side = img.side();
    proof {
        img.lemma_wf_side();
    }
    let mut y: usize = 0;
    while y < side
        invariant
            img.grid_wf(),
            img.cells().len() == img.spec_side() * img.spec_side(),
            kernel_size >= 1,
            kernel_size <= MAX_SIDE,
            side as int == img.spec_side(),
            side <= MAX_SIDE,
            0 <= y <= side,
            raw_filters@.len() == old(raw_filters)@.len() + y as int * side as int,
            forall|m: int|
                0 <= m < old(raw_filters)@.len() ==> #[trigger] raw_filters@[m] == old(
                    raw_filters,
                )@[m],
            forall|m: int|
                old(raw_filters)@.len() <= m < raw_filters@.len() ==> window_shaped(
                    kernel_size as int,
                    #[trigger] raw_filters@[m],
                ) && is_window_of(seq![*img], kernel_size as int, raw_filters@[m]),
        decreases side - y,
    {
        let mut x: usize = 0;
        while x < side
            invariant
                img.grid_wf(),
                img.cells().len() == img.spec_side() * img.spec_side(),
                kernel_size >= 1,
                kernel_size <= MAX_SIDE,
                side as int == img.spec_side(),
                side <= MAX_SIDE,
                0 <= y < side,
                0 <= x <= side,
                raw_filters@.len() == old(raw_filters)@.len() + y as int * side as int + x as int,
                forall|m: int|
                    0 <= m < old(raw_filters)@.len() ==> #[trigger] raw_filters@[m] == old(
                        raw_filters,
                    )@[m],
                forall|m: int|
                    old(raw_filters)@.len() <= m < raw_filters@.len() ==> window_shaped(
                        kernel_size as int,
                        #[trigger] raw_filters@[m],
                    ) && is_window_of(seq![*img], kernel_size as int, raw_filters@[m]),
            decreases side - x,
        {
            let w = img.subimage(x, y, kernel_size);
            proof {
                assert(w.cells().len() == kernel_size as int * kernel_size as int);
            }
            raw_filters.push(w);
            proof {
                let m = raw_filters@.len() - 1;
                assert(seq![*img][0] == *img);
                assert(is_window_of(seq![*img], kernel_size as int, raw_filters@[m]));
            }
            x = x + 1;
        }
        proof {
            assert(y as int * side as int + side as int == (y as int + 1) * side as int)
                by (nonlinear_arith);
        }
        y = y + 1;
    }
}

/// Clusters the windows of the images into `num_kernels` representative
/// kernels; the clustering's seeding is random, so which representatives come
/// back is open, but each is a window or a mean of windows of the images.
pub fn extract_kernels_from(images: &Vec<Image>, num_kernels: usize, kernel_size: usize) -> (r:
    Vec<Image>)
    requires
        forall|i: int|
            0 <= i < images@.len() ==> (#[trigger] images@[i]).grid_wf()
                && images@[i].cells().len() == images@[i].spec_side() * images@[i].spec_side(),
        num_kernels >= 1,
        num_kernels <= windows_count(images@),
        kernel_size >= 1,
        kernel_size <= MAX_SIDE,
    ensures
        r@.len() == num_kernels,
        forall|i: int|
            0 <= i < num_kernels ==> window_shaped(kernel_size as int, #[trigger] r@[i]),
        exists|cands: Seq<Image>|
            cands.len() >= num_kernels && (forall|m: int|
                0 <= m < cands.len() ==> window_shaped(kernel_size as int, #[trigger] cands[m])
                    && is_window_of(images@, kernel_size as int, cands[m])) && (forall|i: int|
                0 <= i < num_kernels ==> derived_from(
                    kernel_space(kernel_size),
                    cands,
                    #[trigger] r@[i],
                )),
{
    let mut candidates: Vec<Image> = Vec::new();
    let n = images.len();
    let mut i: usize = 0;
    while i < n
        invariant
            n == images@.len(),
            forall|j: int|
                0 <= j < n ==> (#[trigger] images@[j]).grid_wf() && images@[j].cells().len()
                    == images@[j].spec_side() * images@[j].spec_side(),
            kernel_size >= 1,
            kernel_size <= MAX_SIDE,
            0 <= i <= n,
            candidates@.len() == windows_count(images@.take(i as int)),
            forall|m: int|
                0 <= m < candidates@.len() ==> window_shaped(
                    kernel_size as int,
                    #[trigger] candidates@[m],
                ) && is_window_of(images@, kernel_size as int, candidates@[m]),
        decreases n - i,
    {
        proof {
            assert(images@.take(i as int + 1).drop_last() =~= images@.take(i as int));
            assert(images@.take(i as int + 1).last() == images@[i as int]);
        }
        let ghost before = candidates@.len() as int;
        add_kernels_from_to(&images[i], &mut candidates, kernel_size);
        proof {
            assert forall|m: int|
                before <= m < candidates@.len() implies is_window_of(
                images@,
                kernel_size as int,
                #[trigger] candidates@[m],
            ) by {
                let c = candidates@[m];
                assert(is_window_of(seq![images@[i as int]], kernel_size as int, c));
                let (j0, x, y) = choose|j0: int, x: int, y: int|
                    0 <= j0 < 1 && 0 <= x < seq![images@[i as int]][j0].spec_side() && 0 <= y
                        < seq![images@[i as int]][j0].spec_side() && c.cells()
                        == #[trigger] subgrid_window(
                        seq![images@[i as int]][j0],
                        0u8,
                        x,
                        y,
                        kernel_size as int,
                    );
                assert(seq![images@[i as int]][0] == images@[i as int]);
                assert(c.cells() == subgrid_window(
                    images@[i as int],
                    0u8,
                    x,
                    y,
                    kernel_size as int,
                ));
            }
        }
        i = i + 1;
    }
    proof {
        assert(images@.take(n as int) =~= images@);
        lemma_windows_nonneg(images@);
    }
    proof {
        assert(kernel_size * kernel_size <= MAX_SIDE * MAX_SIDE) by (nonlinear_arith)
            requires
                0 <= kernel_size <= MAX_SIDE,
        ;
    }
    let space = ImageSpace { side: kernel_size, len: kernel_size * kernel_size };
    proof {
        assert(space == kernel_space(kernel_size));
    }
    proof {
        assert forall|m: int| 0 <= m < candidates@.len() implies space.in_space(
            #[trigger] candidates@[m],
        ) by {}
        assert(all_in_space(space, candidates@));
    }
    let km = Kmeans::new(num_kernels, &candidates, space);
    let r = km.move_means();
    proof {
        assert forall|i2: int| 0 <= i2 < num_kernels implies window_shaped(
            kernel_size as int,
            #[trigger] r@[i2],
        ) by {
            assert(space.in_space(r@[i2]));
        }
    }
    r
}

/// The space a kernel extraction clusters in.
pub open spec fn kernel_space(kernel_size: usize) -> ImageSpace {
    ImageSpace { side: kernel_size, len: (kernel_size * kernel_size) as usize }
}

proof fn lemma_windows_nonneg(images: Seq<Image>)
    ensures
        windows_count(images) >= 0,
    decreases images.len(),
{
    if images.len() > 0 {
        lemma_windows_nonneg(images.drop_last());
        let s = images.last().spec_side();
        assert(s * s >= 0) by (nonlinear_arith);
    }
}


/// Two images with equal cells and side offer the same windows.
proof fn lemma_window_congruence(a: Image, b: Image, x: int, y: int, ks: int)
    requires
        a.cells() == b.cells(),
        a.spec_side() == b.spec_side(),
    ensures
        subgrid_window(a, 0u8, x, y, ks) == subgrid_window(b, 0u8, x, y, ks),
{
    assert(subgrid_window(a, 0u8, x, y, ks) =~= subgrid_window(b, 0u8, x, y, ks));
}

/// Clusters the windows of the two images into `num_filters` representative
/// filters; each comes back kernel-shaped, and is a window or a mean of
/// windows of the two images.
pub fn find_filters_from(img1: &Image, img2: &Image, num_filters: usize, kernel_size: usize) -> (r:
    Vec<Image>)
    requires
        img1.grid_wf(),
        img1.cells().len() == img1.spec_side() * img1.spec_side(),
        img2.grid_wf(),
        img2.cells().len() == img2.spec_side() * img2.spec_side(),
        num_filters >= 1,
        num_filters <= img1.spec_side() * img1.spec_side() + img2.spec_side() * img2.spec_side(),
        kernel_size >= 1,
        kernel_size <= MAX_SIDE,
    ensures
        r@.len() == num_filters,
        forall|i: int|
            0 <= i < num_filters ==> window_shaped(kernel_size as int, #[trigger] r@[i]),
{
    let mut pair: Vec<Image> = Vec::new();
    let d1 = img1.duplicate();
    let d2 = img2.duplicate();
    proof {
        crate::mnist_data::lemma_grid_wf_congruence(d1, *img1);
        crate::mnist_data::lemma_grid_wf_congruence(d2, *img2);
    }
    pair.push(d1);
    pair.push(d2);
    proof {
        assert(pair@.drop_last() =~= seq![pair@[0]]);
        assert(seq![pair@[0]].drop_last() =~= Seq::<Image>::empty());
        assert(windows_count(Seq::<Image>::empty()) == 0);
        assert(windows_count(seq![pair@[0]]) == pair@[0].spec_side() * pair@[0].spec_side());
        assert(windows_count(pair@) == pair@[0].spec_side() * pair@[0].spec_side()
            + pair@[1].spec_side() * pair@[1].spec_side());
    }
    extract_kernels_from(&pair, num_filters, kernel_size)
}

/// The largest entry across the inner lists; some list must be non-empty.
pub fn max_across(distances: &Vec<Vec<u64>>) -> (r: u64)
    requires
        exists|i: int| 0 <= i < distances@.len() && (#[trigger] distances@[i])@.len() > 0,
    ensures
        exists|i: int, j: int|
            0 <= i < distances@.len() && 0 <= j < distances@[i]@.len() && r
                == #[trigger] distances@[i]@[j],
        forall|i: int, j: int|
            0 <= i < distances@.len() && 0 <= j < distances@[i]@.len() ==> #[trigger] distances@[
            i]@[j] <= r,
{
    let n = distances.len();
    let mut found = false;
    let mut m: u64 = 0;
    let mut i: usize = 0;
    while i < n
        invariant
            n == distances@.len(),
            0 <= i <= n,
            found ==> exists|a: int, b: int|
                0 <= a < n && 0 <= b < distances@[a]@.len() && m == #[trigger] distances@[a]@[b],
            !found ==> forall|a: int| 0 <= a < i ==> (#[trigger] distances@[a])@.len() == 0,
            forall|a: int, b: int|
                0 <= a < i && 0 <= b < distances@[a]@.len() ==> found && #[trigger] distances@[a]@[
                b] <= m,
        decreases n - i,
    {
        let inner = &distances[i];
        let len = inner.len();
        let mut j: usize = 0;
        while j < len
            invariant
                n == distances@.len(),
                0 <= i < n,
                inner == &distances@[i as int],
                len == inner@.len(),
                0 <= j <= len,
                found ==> exists|a: int, b: int|
                    0 <= a < n && 0 <= b < distances@[a]@.len() && m == #[trigger] distances@[a]@[
                    b],
                !found ==> (forall|a: int|
                    0 <= a < i ==> (#[trigger] distances@[a])@.len() == 0) && j == 0,
                forall|a: int, b: int|
                    0 <= a < i && 0 <= b < distances@[a]@.len() ==> found && #[trigger] distances@[
                    a]@[b] <= m,
                forall|b: int| 0 <= b < j ==> found && (#[trigger] inner@[b]) <= m,
            decreases len - j,
        {
            let v = inner[j];
            if !found || v > m {
                m = v;
                found = true;
            }
            j = j + 1;
        }
        i = i + 1;
    }
    proof {
        if !found {
            let w = choose|w: int|
                0 <= w < distances@.len() && (#[trigger] distances@[w])@.len() > 0;
            assert(false);
        }
    }
    m
}

/// The smallest entry across the inner lists; some list must be non-empty.
pub fn min_across(distances: &Vec<Vec<u64>>) -> (r: u64)
    requires
        exists|i: int| 0 <= i < distances@.len() && (#[trigger] distances@[i])@.len() > 0,
    ensures
        exists|i: int, j: int|
            0 <= i < distances@.len() && 0 <= j < distances@[i]@.len() && r
                == #[trigger] distances@[i]@[j],
        forall|i: int, j: int|
            0 <= i < distances@.len() && 0 <= j < distances@[i]@.len() ==> #[trigger] distances@[
            i]@[j] >= r,
{
    let n = distances.len();
    let mut found = false;
    let mut m: u64 = 0;
    let mut i: usize = 0;
    while i < n
        invariant
            n == distances@.len(),
            0 <= i <= n,
            found ==> exists|a: int, b: int|
                0 <= a < n && 0 <= b < distances@[a]@.len() && m == #[trigger] distances@[a]@[b],
            !found ==> forall|a: int| 0 <= a < i ==> (#[trigger] distances@[a])@.len() == 0,
            forall|a: int, b: int|
                0 <= a < i && 0 <= b < distances@[a]@.len() ==> found && #[trigger] distances@[a]@[
                b] >= m,
        decreases n - i,
    {
        let inner = &distances[i];
        let len = inner.len();
        let mut j: usize = 0;
        while j < len
            invariant
                n == distances@.len(),
                0 <= i < n,
                inner == &distances@[i as int],
                len == inner@.len(),
                0 <= j <= len,
                found ==> exists|a: int, b: int|
                    0 <= a < n && 0 <= b < distances@[a]@.len() && m == #[trigger] distances@[a]@[
                    b],
                !found ==> (forall|a: int|
                    0 <= a < i ==> (#[trigger] distances@[a])@.len() == 0) && j == 0,
                forall|a: int, b: int|
                    0 <= a < i && 0 <= b < distances@[a]@.len() ==> found && #[trigger] distances@[
                    a]@[b] >= m,
                forall|b: int| 0 <= b < j ==> found && (#[trigger] inner@[b]) >= m,
            decreases len - j,
        {
            let v = inner[j];
            if !found || v < m {
                m = v;
                found = true;
            }
            j = j + 1;
        }
        i = i + 1;
    }
    proof {
        if !found {
            let w = choose|w: int|
                0 <= w < distances@.len() && (#[trigger] distances@[w])@.len() > 0;
            assert(false);
        }
    }
    m
}

/// The response byte of a window distance relative to the smallest and
/// largest distance of its grid: the smallest maps to 255, the largest to
/// zero, falling by the distance's share of the spread, rounded down (a grid
/// whose distances are all equal maps to zero).
pub open spec fn scale_spec(value: int, mn: int, mx: int) -> int {
    if mx == mn {
        0
    } else {
        (mx - value) * 255 / (mx - mn)
    }
}

/// Scales one distance onto the byte range relative to the grid's extremes.
pub fn scale(value: u64, min: u64, max: u64) -> (r: u8)
    requires
        min <= value <= max,
        max - min <= 0x1_0000_0000_0000,
    ensures
        r as int == scale_spec(value as int, min as int, max as int),
{
    if max == min {
        0
    } else {
        let t = (max - value) * 255 / (max - min);
        proof {
            let v = value as int;
            let mn = min as int;
            let mx = max as int;
            vstd::arithmetic::mul::lemma_mul_inequality(mx - v, mx - mn, 255);
            assert((mx - v) * 255 == 255 * (mx - v) && (mx - mn) * 255 == 255 * (mx - mn))
                by (nonlinear_arith);
            vstd::arithmetic::div_mod::lemma_div_is_ordered(
                (mx - v) * 255,
                (mx - mn) * 255,
                mx - mn,
            );
            vstd::arithmetic::div_mod::lemma_div_multiples_vanish(255, mx - mn);
            vstd::arithmetic::div_mod::lemma_div_pos_is_pos((mx - v) * 255, mx - mn);
        }
        t as u8
    }
}

/// `out` lists, kernel by kernel, the scaled response grid of `src` under
/// that kernel, with the scale anchored at the smallest and largest window
/// distance across all kernels.
pub open spec fn projected_post(
    src: Image,
    kernels: Seq<Image>,
    stride: int,
    out: Seq<Image>,
    mn: int,
    mx: int,
) -> bool {
    let c = steps(src.spec_side(), stride);
    &&& (exists|k: int, idx: int|
        0 <= k < kernels.len() && 0 <= idx < c * c && mn == #[trigger] grid_dist(
            src,
            kernels[k],
            stride,
            idx,
        ))
    &&& (exists|k: int, idx: int|
        0 <= k < kernels.len() && 0 <= idx < c * c && mx == #[trigger] grid_dist(
            src,
            kernels[k],
            stride,
            idx,
        ))
    &&& (forall|k: int, idx: int|
        0 <= k < kernels.len() && 0 <= idx < c * c ==> mn <= #[trigger] grid_dist(
            src,
            kernels[k],
            stride,
            idx,
        ) <= mx)
    &&& out.len() == kernels.len()
    &&& (forall|k: int, idx: int|
        0 <= k < kernels.len() && 0 <= idx < c * c ==> (#[trigger] out[k].cells()[idx]) as int
            == scale_spec(grid_dist(src, kernels[k], stride, idx), mn, mx))
}

/// Projects an image through every kernel, scaling each response grid by the
/// smallest and largest window distance seen across all kernels.
pub fn project_through(src: &Image, kernels: &Vec<Image>, stride: usize) -> (r: Vec<Image>)
    requires
        src.grid_wf(),
        src.cells().len() == src.spec_side() * src.spec_side(),
        src.spec_side() >= 1,
        kernels@.len() >= 1,
        forall|k: int|
            0 <= k < kernels@.len() ==> (#[trigger] kernels@[k]).grid_wf()
                && kernels@[k].cells().len() == kernels@[k].spec_side() * kernels@[k].spec_side()
                && 1 <= kernels@[k].spec_side() <= MAX_SIDE,
        1 <= stride <= MAX_SIDE,
    ensures
        r@.len() == kernels@.len(),
        forall|k: int|
            0 <= k < kernels@.len() ==> (#[trigger] r@[k]).grid_wf() && r@[k].spec_side() == steps(
                src.spec_side(),
                stride as int,
            ) && r@[k].cells().len() == steps(src.spec_side(), stride as int) * steps(
                src.spec_side(),
                stride as int,
            ),
        exists|mn: int, mx: int| projected_post(*src, kernels@, stride as int, r@, mn, mx),
{
    proof {
        src.lemma_wf_side();
    }
    let side = src.side();
    let c = (side + stride - 1) / stride;
    let nk = kernels.len();
    let ghost st = stride as int;
    proof {
        vstd::arithmetic::div_mod::lemma_fundamental_div_mod(side as int + st - 1, st);
        assert(c as int == steps(src.spec_side(), st));
        assert(c >= 1 && c as int <= side as int) by (nonlinear_arith)
            requires
                side as int >= 1,
                1 <= st <= MAX_SIDE as int,
                c as int == (side as int + st - 1) / st,
                side as int + st - 1 == st * ((side as int + st - 1) / st) + (side as int + st
                    - 1) % st,
                0 <= (side as int + st - 1) % st < st,
        ;
        assert(c as int * c as int <= MAX_SIDE as int * MAX_SIDE as int) by (nonlinear_arith)
            requires
                0 <= c as int <= MAX_SIDE as int,
        ;
    }
    // Every window distance, kernel-major, each grid row-major.
    let mut grids: Vec<Vec<u64>> = Vec::new();
    let mut k: usize = 0;
    while k < nk
        invariant
            src.grid_wf(),
            src.cells().len() == src.spec_side() * src.spec_side(),
            src.spec_side() >= 1,
            nk == kernels@.len(),
            forall|k2: int|
                0 <= k2 < nk ==> (#[trigger] kernels@[k2]).grid_wf()
                    && kernels@[k2].cells().len() == kernels@[k2].spec_side()
                    * kernels@[k2].spec_side() && 1 <= kernels@[k2].spec_side() <= MAX_SIDE,
            1 <= stride <= MAX_SIDE,
            st == stride as int,
            side as int == src.spec_side(),
            side <= MAX_SIDE,
            c as int == steps(src.spec_side(), st),
            1 <= c as int <= side as int,
            c as int * c as int <= MAX_SIDE as int * MAX_SIDE as int,
            0 <= k <= nk,
            grids@.len() == k,
            forall|k2: int| 0 <= k2 < k ==> (#[trigger] grids@[k2])@.len() == c as int * c as int,
            forall|k2: int, idx: int|
                0 <= k2 < k && 0 <= idx < c as int * c as int ==> (#[trigger] grids@[k2]@[idx])
                    as int == grid_dist(*src, kernels@[k2], st, idx),
        decreases nk - k,
    {
        let kernel = &kernels[k];
        let mut grid: Vec<u64> = Vec::new();
        let mut ry: usize = 0;
        while ry < c
            invariant
                src.grid_wf(),
                src.cells().len() == src.spec_side() * src.spec_side(),
                src.spec_side() >= 1,
                kernel == &kernels@[k as int],
                kernel.grid_wf(),
                kernel.cells().len() == kernel.spec_side() * kernel.spec_side(),
                1 <= kernel.spec_side() <= MAX_SIDE,
                1 <= stride <= MAX_SIDE,
                st == stride as int,
                side as int == src.spec_side(),
                side <= MAX_SIDE,
                c as int == steps(src.spec_side(), st),
                1 <= c as int <= side as int,
                0 <= ry <= c,
                grid@.len() == ry as int * c as int,
                forall|idx: int|
                    0 <= idx < ry as int * c as int ==> (#[trigger] grid@[idx]) as int
                        == grid_dist(*src, kernels@[k as int], st, idx),
            decreases c - ry,
        {
            let mut rx: usize = 0;
            while rx < c
                invariant
                    src.grid_wf(),
                    src.cells().len() == src.spec_side() * src.spec_side(),
                    src.spec_side() >= 1,
                    kernel == &kernels@[k as int],
                    kernel.grid_wf(),
                    kernel.cells().len() == kernel.spec_side() * kernel.spec_side(),
                    1 <= kernel.spec_side() <= MAX_SIDE,
                    1 <= stride <= MAX_SIDE,
                    st == stride as int,
                    side as int == src.spec_side(),
                    side <= MAX_SIDE,
                    c as int == steps(src.spec_side(), st),
                    1 <= c as int <= side as int,
                    0 <= ry < c,
                    0 <= rx <= c,
                    grid@.len() == ry as int * c as int + rx as int,
                    forall|idx: int|
                        0 <= idx < ry as int * c as int + rx as int ==> (#[trigger] grid@[idx])
                            as int == grid_dist(*src, kernels@[k as int], st, idx),
                decreases c - rx,
            {
                proof {
                    vstd::arithmetic::div_mod::lemma_fundamental_div_mod(
                        side as int + st - 1,
                        st,
                    );
                    assert(((rx as int) * st) < side as int && ((ry as int) * st) < side as int
                        && rx as int * st <= MAX_SIDE as int * MAX_SIDE as int && ry as int * st
                        <= MAX_SIDE as int * MAX_SIDE as int) by (nonlinear_arith)
                        requires
                            0 <= rx as int && (rx as int) < c as int,
                            0 <= ry as int && (ry as int) < c as int,
                            1 <= st <= MAX_SIDE as int,
                            1 <= c as int <= MAX_SIDE as int,
                            c as int == (side as int + st - 1) / st,
                            side as int + st - 1 == st * ((side as int + st - 1) / st) + (side
                                as int + st - 1) % st,
                            0 <= (side as int + st - 1) % st < st,
                    ;
                }
                let x = rx * stride;
                let y = ry * stride;
                let sub = src.subimage(x, y, kernel.side());
                let d = euclidean_distance(&sub, kernel);
                grid.push(d);
                proof {
                    let idx0 = ry as int * c as int + rx as int;
                    vstd::arithmetic::div_mod::lemma_fundamental_div_mod_converse(
                        idx0,
                        c as int,
                        ry as int,
                        rx as int,
                    );
                }
                rx = rx + 1;
            }
            proof {
                assert(ry as int * c as int + c as int == (ry as int + 1) * c as int)
                    by (nonlinear_arith);
            }
            ry = ry + 1;
        }
        proof {
            assert(c as int * c as int == c as int * c as int);
        }
        grids.push(grid);
        k = k + 1;
    }
    proof {
        assert(1 <= c as int * c as int) by (nonlinear_arith)
            requires
                c as int >= 1,
        ;
        assert(grids@[0]@.len() > 0);
    }
    let mn = min_across(&grids);
    let mx = max_across(&grids);
    proof {
        assert forall|k2: int, idx: int|
            0 <= k2 < nk && 0 <= idx < c as int * c as int implies mn as int <= #[trigger] grid_dist(
            *src,
            kernels@[k2],
            st,
            idx,
        ) <= mx as int by {
            assert(grids@[k2]@[idx] >= mn);
            assert(grids@[k2]@[idx] <= mx);
        }
        assert forall|k2: int| 0 <= k2 < kernels@.len() implies (#[trigger] kernels@[k2]).cells().len()
            <= MAX_SIDE as int * MAX_SIDE as int by {
            assert(kernels@[k2].cells().len() == kernels@[k2].spec_side() * kernels@[k2].spec_side());
            assert(kernels@[k2].spec_side() * kernels@[k2].spec_side() <= MAX_SIDE as int
                * MAX_SIDE as int) by (nonlinear_arith)
                requires
                    0 <= kernels@[k2].spec_side() <= MAX_SIDE as int,
            ;
        }
        lemma_grid_bound(*src, kernels@, st, grids@, mn as int, mx as int);
    }
    // Scale every grid onto the byte range.
    let mut r: Vec<Image> = Vec::new();
    let mut k3: usize = 0;
    while k3 < nk
        invariant
            src.grid_wf(),
            src.cells().len() == src.spec_side() * src.spec_side(),
            src.spec_side() >= 1,
            nk == kernels@.len(),
            st == stride as int,
            c as int == steps(src.spec_side(), st),
            1 <= c as int,
            c as int * c as int <= MAX_SIDE as int * MAX_SIDE as int,
            grids@.len() == nk,
            forall|k2: int|
                0 <= k2 < nk ==> (#[trigger] grids@[k2])@.len() == c as int * c as int,
            forall|k2: int, idx: int|
                0 <= k2 < nk && 0 <= idx < c as int * c as int ==> (#[trigger] grids@[k2]@[idx])
                    as int == grid_dist(*src, kernels@[k2], st, idx),
            forall|k2: int, idx: int|
                0 <= k2 < nk && 0 <= idx < c as int * c as int ==> mn <= (#[trigger] grids@[k2]@[
                idx]) <= mx,
            mx as int - mn as int <= 0x1_0000_0000_0000,
            0 <= k3 <= nk,
            r@.len() == k3,
            forall|k2: int|
                0 <= k2 < k3 ==> (#[trigger] r@[k2]).grid_wf() && r@[k2].spec_side() == c as int
                    && r@[k2].cells().len() == c as int * c as int,
            forall|k2: int, idx: int|
                0 <= k2 < k3 && 0 <= idx < c as int * c as int ==> (#[trigger] r@[k2].cells()[
                idx]) as int == scale_spec(
                    grid_dist(*src, kernels@[k2], st, idx),
                    mn as int,
                    mx as int,
                ),
        decreases nk - k3,
    {
        let grid = &grids[k3];
        let mut img = Image::new();
        let total = c * c;
        let mut idx: usize = 0;
        while idx < total
            invariant
                grid == &grids@[k3 as int],
                grid@.len() == c as int * c as int,
                total == c * c,
                total as int == c as int * c as int,
                total as int <= MAX_SIDE as int * MAX_SIDE as int,
                forall|id2: int|
                    0 <= id2 < total ==> mn <= (#[trigger] grid@[id2]) <= mx,
                mx as int - mn as int <= 0x1_0000_0000_0000,
                0 <= idx <= total,
                img.grid_wf(),
                img.cells().len() == idx,
                forall|id2: int|
                    0 <= id2 < idx ==> (#[trigger] img.cells()[id2]) == scale_spec(
                        grid@[id2] as int,
                        mn as int,
                        mx as int,
                    ),
            decreases total - idx,
        {
            let p = scale(grid[idx], mn, mx);
            img.add(p);
            idx = idx + 1;
        }
        proof {
            img.lemma_wf_side();
            assert((c as int - 1) * (c as int - 1) < c as int * c as int) by (nonlinear_arith)
                requires
                    c as int >= 1,
            ;
            lemma_side_unique(img.cells().len() as int, img.spec_side(), c as int);
        }
        r.push(img);
        k3 = k3 + 1;
    }
    proof {
        assert(projected_post(*src, kernels@, st, r@, mn as int, mx as int));
    }
    r
}

/// Every stored grid distance is a squared distance of a kernel-sized window,
/// so the spread of the grid stays far below the scaling limit.
proof fn lemma_grid_bound(
    src: Image,
    kernels: Seq<Image>,
    st: int,
    grids: Seq<Vec<u64>>,
    mn: int,
    mx: int,
)
    requires
        grids.len() == kernels.len(),
        grids.len() >= 1,
        forall|k: int| 0 <= k < kernels.len() ==> (#[trigger] kernels[k]).cells().len()
            <= MAX_SIDE as int * MAX_SIDE as int,
        exists|k: int, idx: int|
            0 <= k < grids.len() && 0 <= idx < grids[k]@.len() && mx == #[trigger] grids[k]@[idx],
        mn >= 0,
        forall|k: int, idx: int|
            0 <= k < grids.len() && 0 <= idx < grids[k]@.len() ==> (#[trigger] grids[k]@[idx])
                as int == grid_dist(src, kernels[k], st, idx),
    ensures
        mx - mn <= 0x1_0000_0000_0000,
{
    let (k, idx) = choose|k: int, idx: int|
        0 <= k < grids.len() && 0 <= idx < grids[k]@.len() && mx == #[trigger] grids[k]@[idx];
    let c = steps(src.spec_side(), st);
    lemma_sq_diff_sum_bound(
        subgrid_window(src, 0u8, (idx % c) * st, (idx / c) * st, kernels[k].spec_side()),
        kernels[k].cells(),
        kernels[k].cells().len() as int,
    );
    assert(kernels[k].cells().len() as int * 65025 <= MAX_SIDE as int * MAX_SIDE as int * 65025)
        by (nonlinear_arith)
        requires
            kernels[k].cells().len() <= MAX_SIDE as int * MAX_SIDE as int,
    ;
}


/// Sum of the squared Euclidean distances of corresponding images in two
/// equally long stacks.
pub open spec fn stack_dist(a: Seq<Image>, b: Seq<Image>, n: int) -> int
    decreases n,
{
    if n <= 0 {
        0
    } else {
        stack_dist(a, b, n - 1) + sq_diff_sum(
            a[n - 1].cells(),
            b[n - 1].cells(),
            a[n - 1].cells().len() as int,
        )
    }
}

pub proof fn lemma_stack_dist_nonneg(a: Seq<Image>, b: Seq<Image>, n: int)
    ensures
        stack_dist(a, b, n) >= 0,
    decreases n,
{
    if n > 0 {
        lemma_stack_dist_nonneg(a, b, n - 1);
        lemma_sq_diff_sum_bound(a[n - 1].cells(), b[n - 1].cells(), a[n - 1].cells().len() as int);
    }
}

/// The distance between two projected stacks of the same shape: the summed
/// squared Euclidean distance of corresponding images, clamped to the result
/// type's range.
pub fn kernelized_distance(k1: &Vec<Image>, k2: &Vec<Image>) -> (r: u64)
    requires
        k1@.len() == k2@.len(),
        forall|i: int|
            0 <= i < k1@.len() ==> (#[trigger] k1@[i]).grid_wf() && k2@[i].grid_wf()
                && k1@[i].spec_side() == k2@[i].spec_side() && k1@[i].cells().len()
                == k2@[i].cells().len(),
    ensures
        r as int == crate::pyramid::sat64(stack_dist(k1@, k2@, k1@.len() as int)),
{
    let n = k1.len();
    let mut total: u64 = 0;
    let mut i: usize = 0;
    while i < n
        invariant
            n as nat == k1@.len(),
            k2@.len() == n as nat,
            forall|j: int|
                0 <= j < n ==> (#[trigger] k1@[j]).grid_wf() && k2@[j].grid_wf()
                    && k1@[j].spec_side() == k2@[j].spec_side() && k1@[j].cells().len()
                    == k2@[j].cells().len(),
            0 <= i <= n,
            total as int == crate::pyramid::sat64(stack_dist(k1@, k2@, i as int)),
        decreases n - i,
    {
        let d = euclidean_distance(&k1[i], &k2[i]);
        proof {
            lemma_stack_dist_nonneg(k1@, k2@, i as int);
            lemma_sq_diff_sum_bound(
                k1@[i as int].cells(),
                k2@[i as int].cells(),
                k1@[i as int].cells().len() as int,
            );
        }
        total = total.saturating_add(d);
        i = i + 1;
    }
    total
}

/// Two image stacks of equal length whose corresponding images share a shape.
pub open spec fn layers_match(a: Seq<Image>, b: Seq<Image>) -> bool {
    &&& a.len() == b.len()
    &&& forall|i: int|
        0 <= i < a.len() ==> (#[trigger] a[i]).grid_wf() && b[i].grid_wf() && a[i].spec_side()
            == b[i].spec_side() && a[i].cells().len() == a[i].spec_side() * a[i].spec_side()
            && b[i].cells().len() == b[i].spec_side() * b[i].spec_side() && a[i].spec_side() >= 1
            && a[i].spec_side() <= MAX_SIDE
}

/// Whether `levels` rounds of projection keep enough windows for `kernels`
/// filters: at every round the pair of current images must offer at least
/// `kernels` windows.
pub open spec fn sides_ok(side: int, stride: int, levels: int, kernels: int) -> bool
    decreases levels,
{
    if levels <= 0 {
        true
    } else {
        side >= 1 && kernels <= 2 * (side * side) && sides_ok(
            steps(side, stride),
            stride,
            levels - 1,
            kernels,
        )
    }
}

/// Builds the chain of projection layers of two images: level zero holds the
/// images themselves, and each further level projects every image of the
/// previous one through `kernels` filters clustered (with random seeding)
/// from the two corresponding images' windows.  The shapes of the two chains
/// match level by level; the filters drawn at each step are random, so the
/// pixel contents are not pinned beyond level zero.
pub fn make_convolutional_layers(
    img1: &Image,
    img2: &Image,
    kernels: usize,
    stride: usize,
    levels: usize,
) -> (r: (Vec<Vec<Image>>, Vec<Vec<Image>>))
    requires
        img1.grid_wf(),
        img1.cells().len() == img1.spec_side() * img1.spec_side(),
        img2.grid_wf(),
        img2.cells().len() == img2.spec_side() * img2.spec_side(),
        img1.spec_side() == img2.spec_side(),
        1 <= img1.spec_side(),
        kernels >= 1,
        1 <= stride <= MAX_SIDE,
        sides_ok(img1.spec_side(), stride as int, levels as int, kernels as int),
    ensures
        r.0@.len() == levels + 1,
        r.1@.len() == levels + 1,
        forall|t: int| 0 <= t <= levels ==> layers_match((#[trigger] r.0@[t])@, r.1@[t]@),
        r.0@[0]@.len() == 1 && r.1@[0]@.len() == 1,
        r.0@[0]@[0].cells() == img1.cells() && r.0@[0]@[0].spec_side() == img1.spec_side(),
        r.1@[0]@[0].cells() == img2.cells() && r.1@[0]@[0].spec_side() == img2.spec_side(),
        forall|t: int|
            0 < t <= levels ==> (#[trigger] r.0@[t])@.len() == r.0@[t - 1]@.len() * kernels,
{
    let mut layers1: Vec<Vec<Image>> = Vec::new();
    let mut layers2: Vec<Vec<Image>> = Vec::new();
    let mut frontier1: Vec<Image> = Vec::new();
    let mut frontier2: Vec<Image> = Vec::new();
    let d1 = img1.duplicate();
    let d2 = img2.duplicate();
    proof {
        img1.lemma_wf_side();
        img2.lemma_wf_side();
        crate::mnist_data::lemma_grid_wf_congruence(d1, *img1);
        crate::mnist_data::lemma_grid_wf_congruence(d2, *img2);
    }
    frontier1.push(d1);
    frontier2.push(d2);
    proof {
        assert(frontier1@[0] == d1 && frontier2@[0] == d2);
    }
    let mut t: usize = 0;
    let ghost side0 = img1.spec_side();
    let mut cur_side = img1.side();
    while t < levels
        invariant
            kernels >= 1,
            1 <= stride <= MAX_SIDE,
            0 <= t <= levels,
            layers1@.len() == t,
            layers2@.len() == t,
            layers_match(frontier1@, frontier2@),
            frontier1@.len() >= 1,
            cur_side as int == frontier1@[0].spec_side(),
            forall|i: int|
                0 <= i < frontier1@.len() ==> (#[trigger] frontier1@[i]).spec_side()
                    == cur_side as int,
            sides_ok(cur_side as int, stride as int, (levels - t) as int, kernels as int),
            t == 0 ==> frontier1@[0].cells() == img1.cells() && frontier1@[0].spec_side()
                == img1.spec_side() && frontier2@[0].cells() == img2.cells()
                && frontier2@[0].spec_side() == img2.spec_side(),
            forall|t2: int|
                0 <= t2 < t ==> layers_match((#[trigger] layers1@[t2])@, layers2@[t2]@),
            t > 0 ==> layers1@[0]@.len() == 1 && layers2@[0]@.len() == 1 && layers1@[0]@[0].cells()
                == img1.cells() && layers1@[0]@[0].spec_side() == img1.spec_side()
                && layers2@[0]@[0].cells() == img2.cells() && layers2@[0]@[0].spec_side()
                == img2.spec_side(),
            forall|t2: int|
                0 < t2 < t ==> (#[trigger] layers1@[t2])@.len() == layers1@[t2 - 1]@.len()
                    * kernels,
            t > 0 ==> frontier1@.len() == layers1@[t - 1]@.len() * kernels && frontier2@.len()
                == layers2@[t - 1]@.len() * kernels,
            t > 0 ==> layers2@[t - 1]@.len() == layers1@[t - 1]@.len(),
            t == 0 ==> frontier1@.len() == 1 && frontier2@.len() == 1,
        decreases levels - t,
    {
        let fl = frontier1.len();
        let mut projections1: Vec<Image> = Vec::new();
        let mut projections2: Vec<Image> = Vec::new();
        let mut i: usize = 0;
        let ghost next_side = steps(cur_side as int, stride as int);
        while i < fl
            invariant
                kernels >= 1,
                1 <= stride <= MAX_SIDE,
                fl == frontier1@.len(),
                layers_match(frontier1@, frontier2@),
                forall|i2: int|
                    0 <= i2 < frontier1@.len() ==> (#[trigger] frontier1@[i2]).spec_side()
                        == cur_side as int,
                cur_side >= 1,
                kernels as int <= 2 * (cur_side as int * cur_side as int),
                next_side == steps(cur_side as int, stride as int),
                0 <= i <= fl,
                projections1@.len() == i as int * kernels as int,
                projections2@.len() == i as int * kernels as int,
                layers_match(projections1@, projections2@),
                forall|m: int|
                    0 <= m < projections1@.len() ==> (#[trigger] projections1@[m]).spec_side()
                        == next_side,
            decreases fl - i,
        {
            let f1 = &frontier1[i];
            let f2 = &frontier2[i];
            proof {
                assert(2 * (cur_side as int * cur_side as int) == cur_side as int
                    * cur_side as int + cur_side as int * cur_side as int);
            }
            let filters = find_filters_from(f1, f2, kernels, KERNEL_SIZE);
            let mut p1 = project_through(f1, &filters, stride);
            let mut p2 = project_through(f2, &filters, stride);
            let ghost pre1 = projections1@;
            let ghost pre2 = projections2@;
            let ghost p1v = p1@;
            let ghost p2v = p2@;
            projections1.append(&mut p1);
            projections2.append(&mut p2);
            proof {
                assert(projections1@.len() == pre1.len() + kernels as int);
                assert(i as int * kernels as int + kernels as int == (i as int + 1)
                    * kernels as int) by (nonlinear_arith);
                assert forall|m: int|
                    0 <= m < projections1@.len() implies (#[trigger] projections1@[m]).grid_wf()
                    && projections2@[m].grid_wf() && projections1@[m].spec_side()
                    == projections2@[m].spec_side() && projections1@[m].cells().len()
                    == projections1@[m].spec_side() * projections1@[m].spec_side()
                    && projections2@[m].cells().len() == projections2@[m].spec_side()
                    * projections2@[m].spec_side() && projections1@[m].spec_side() >= 1
                    && projections1@[m].spec_side() <= MAX_SIDE && projections1@[m].spec_side()
                    == next_side by {
                    if m < pre1.len() {
                        assert(projections1@[m] == pre1[m]);
                        assert(projections2@[m] == pre2[m]);
                    } else {
                        assert(projections1@[m] == p1v[m - pre1.len()]);
                        assert(projections2@[m] == p2v[m - pre2.len()]);
                        vstd::arithmetic::div_mod::lemma_fundamental_div_mod(
                            cur_side as int + stride as int - 1,
                            stride as int,
                        );
                        assert(1 <= next_side <= cur_side as int) by (nonlinear_arith)
                            requires
                                cur_side as int >= 1,
                                1 <= stride as int,
                                next_side == (cur_side as int + stride as int - 1) / stride as int,
                                cur_side as int + stride as int - 1 == stride as int * ((cur_side
                                    as int + stride as int - 1) / stride as int) + (cur_side as int
                                    + stride as int - 1) % stride as int,
                                0 <= (cur_side as int + stride as int - 1) % stride as int,
                                ((cur_side as int + stride as int - 1) % stride as int)
                                    < stride as int,
                        ;
                    }
                }
            }
            i = i + 1;
        }
        layers1.push(frontier1);
        layers2.push(frontier2);
        frontier1 = projections1;
        frontier2 = projections2;
        cur_side = (cur_side + stride - 1) / stride;
        t = t + 1;
        proof {
            assert(frontier1@.len() == fl as int * kernels as int);
            assert(fl >= 1);
            assert(frontier1@.len() >= 1) by (nonlinear_arith)
                requires
                    frontier1@.len() == fl as int * kernels as int,
                    fl as int >= 1,
                    kernels as int >= 1,
            ;
        }
    }
    layers1.push(frontier1);
    layers2.push(frontier2);
    (layers1, layers2)
}

/// The convolutional distance: project both images through `levels` rounds of
/// clustered filters and sum the squared Euclidean distances of the final
/// stacks, clamped to the result type's range.  The filters are drawn at
/// random, so what holds of every outcome is stated: the result is the
/// clamped stack distance of a pair of equally shaped final stacks.
pub fn convolutional_distance(img1: &Image, img2: &Image, levels: usize) -> (r: u64)
    requires
        levels >= 1,
        img1.grid_wf(),
        img1.cells().len() == img1.spec_side() * img1.spec_side(),
        img2.grid_wf(),
        img2.cells().len() == img2.spec_side() * img2.spec_side(),
        img1.spec_side() == img2.spec_side(),
        1 <= img1.spec_side(),
        sides_ok(img1.spec_side(), STRIDE as int, levels as int, NUM_KERNELS as int),
    ensures
        exists|a: Seq<Image>, b: Seq<Image>|
            #[trigger] layers_match(a, b) && r as int == crate::pyramid::sat64(
                stack_dist(a, b, a.len() as int),
            ),
{
    let layers = make_convolutional_layers(img1, img2, NUM_KERNELS, STRIDE, levels);
    let final_layer_1 = &layers.0[layers.0.len() - 1];
    let final_layer_2 = &layers.1[layers.1.len() - 1];
    let r = kernelized_distance(final_layer_1, final_layer_2);
    proof {
        assert(layers_match(final_layer_1@, final_layer_2@));
    }
    r
}

/// One round of projection: every image of `prev` projected through every
/// kernel, image-major.
pub open spec fn step_rel(prev: Seq<Image>, kernels: Seq<Image>, next: Seq<Image>) -> bool {
    &&& next.len() == prev.len() * kernels.len()
    &&& forall|i: int, k: int|
        0 <= i < prev.len() && 0 <= k < kernels.len() ==> applied_to(
            prev[i],
            kernels[k],
            STRIDE as int,
            #[trigger] next[i * kernels.len() + k],
        )
}

/// `chain` documents `levels` rounds of projection from `start` through the
/// given kernels, ending at `out`.
pub open spec fn projection_chain(
    start: Image,
    kernels: Seq<Image>,
    levels: int,
    chain: Seq<Seq<Image>>,
    out: Seq<Image>,
) -> bool {
    &&& chain.len() == levels + 1
    &&& chain[0].len() == 1
    &&& chain[0][0].cells() == start.cells()
    &&& chain[0][0].spec_side() == start.spec_side()
    &&& forall|t: int| 0 <= t < levels ==> step_rel(#[trigger] chain[t], kernels, chain[t + 1])
    &&& chain[levels] == out
}

/// A produced entry keeps its source's label, and its image stack closes a
/// projection chain from the source image through the shared kernels.
pub open spec fn kernelized_entry(
    orig: (u8, Image),
    kernels: Seq<Image>,
    levels: int,
    entry: (u8, Vec<Image>),
) -> bool {
    entry.0 == orig.0 && exists|chain: Seq<Seq<Image>>|
        #[trigger] projection_chain(orig.1, kernels, levels, chain, entry.1@)
}

/// Converts every labeled image into its stack of kernel responses: one set
/// of kernels is clustered from all the images' windows (with random
/// seeding), and every image is then projected through those kernels for the
/// given number of rounds, keeping its label.
pub fn kernelize_all(labeled_images: &Vec<(u8, Image)>, levels: usize) -> (r: Vec<
    (u8, Vec<Image>),
>)
    requires
        labeled_images@.len() >= 1,
        forall|e: int|
            0 <= e < labeled_images@.len() ==> (#[trigger] labeled_images@[e]).1.grid_wf()
                && labeled_images@[e].1.cells().len() == labeled_images@[e].1.spec_side()
                * labeled_images@[e].1.spec_side() && labeled_images@[e].1.spec_side()
                >= KERNEL_SIZE as int,
    ensures
        r@.len() == labeled_images@.len(),
        forall|e: int| 0 <= e < r@.len() ==> (#[trigger] r@[e]).0 == labeled_images@[e].0,
        exists|kernels: Seq<Image>|
            kernels.len() == NUM_KERNELS && (forall|k: int|
                0 <= k < kernels.len() ==> window_shaped(
                    KERNEL_SIZE as int,
                    #[trigger] kernels[k],
                )) && (forall|e: int|
                0 <= e < r@.len() ==> kernelized_entry(
                    labeled_images@[e],
                    kernels,
                    levels as int,
                    #[trigger] r@[e],
                )),
{
    let n = labeled_images.len();
    let mut imgs: Vec<Image> = Vec::new();
    let mut e: usize = 0;
    while e < n
        invariant
            n == labeled_images@.len(),
            forall|e2: int|
                0 <= e2 < n ==> (#[trigger] labeled_images@[e2]).1.grid_wf()
                    && labeled_images@[e2].1.cells().len() == labeled_images@[e2].1.spec_side()
                    * labeled_images@[e2].1.spec_side() && labeled_images@[e2].1.spec_side()
                    >= KERNEL_SIZE as int,
            0 <= e <= n,
            imgs@.len() == e,
            forall|e2: int|
                0 <= e2 < e ==> (#[trigger] imgs@[e2]).grid_wf() && imgs@[e2].cells().len()
                    == imgs@[e2].spec_side() * imgs@[e2].spec_side() && imgs@[e2].spec_side()
                    == labeled_images@[e2].1.spec_side(),
        decreases n - e,
    {
        let d = labeled_images[e].1.duplicate();
        proof {
            crate::mnist_data::lemma_grid_wf_congruence(d, labeled_images@[e as int].1);
        }
        imgs.push(d);
        e = e + 1;
    }
    proof {
        lemma_windows_ge_first(imgs@);
        assert(imgs@[0].spec_side() * imgs@[0].spec_side() >= KERNEL_SIZE as int
            * KERNEL_SIZE as int) by (nonlinear_arith)
            requires
                imgs@[0].spec_side() >= KERNEL_SIZE as int,
                KERNEL_SIZE as int >= 1,
        ;
    }
    let kernels = extract_kernels_from(&imgs, NUM_KERNELS, KERNEL_SIZE);
    let mut r: Vec<(u8, Vec<Image>)> = Vec::new();
    let mut e2: usize = 0;
    while e2 < n
        invariant
            n == labeled_images@.len(),
            forall|e3: int|
                0 <= e3 < n ==> (#[trigger] labeled_images@[e3]).1.grid_wf()
                    && labeled_images@[e3].1.cells().len() == labeled_images@[e3].1.spec_side()
                    * labeled_images@[e3].1.spec_side() && labeled_images@[e3].1.spec_side()
                    >= KERNEL_SIZE as int,
            kernels@.len() == NUM_KERNELS,
            forall|k: int|
                0 <= k < kernels@.len() ==> window_shaped(
                    KERNEL_SIZE as int,
                    #[trigger] kernels@[k],
                ),
            0 <= e2 <= n,
            r@.len() == e2,
            forall|e3: int| 0 <= e3 < e2 ==> (#[trigger] r@[e3]).0 == labeled_images@[e3].0,
            forall|e3: int|
                0 <= e3 < e2 ==> kernelized_entry(
                    labeled_images@[e3],
                    kernels@,
                    levels as int,
                    #[trigger] r@[e3],
                ),
        decreases n - e2,
    {
        let src = labeled_images[e2].1.duplicate();
        proof {
            crate::mnist_data::lemma_grid_wf_congruence(src, labeled_images@[e2 as int].1);
        }
        let mut cur: Vec<Image> = Vec::new();
        cur.push(src);
        let ghost mut chain: Seq<Seq<Image>> = seq![cur@];
        let mut t: usize = 0;
        while t < levels
            invariant
                kernels@.len() == NUM_KERNELS,
                forall|k: int|
                    0 <= k < kernels@.len() ==> window_shaped(
                        KERNEL_SIZE as int,
                        #[trigger] kernels@[k],
                    ),
                0 <= t <= levels,
                projection_chain(labeled_images@[e2 as int].1, kernels@, t as int, chain, cur@),
                forall|m: int|
                    0 <= m < cur@.len() ==> (#[trigger] cur@[m]).grid_wf() && cur@[m].cells().len()
                        == cur@[m].spec_side() * cur@[m].spec_side() && cur@[m].spec_side() >= 1,
            decreases levels - t,
        {
            let next = project_all_through(&cur, &kernels);
            proof {
                assert forall|m: int|
                    0 <= m < next@.len() implies (#[trigger] next@[m]).grid_wf()
                    && next@[m].cells().len() == next@[m].spec_side() * next@[m].spec_side()
                    && next@[m].spec_side() >= 1 by {
                    vstd::arithmetic::div_mod::lemma_fundamental_div_mod(
                        next@[m].spec_side() * 2 - 1,
                        2,
                    );
                    let i0 = m / kernels@.len() as int;
                    let k0 = m % kernels@.len() as int;
                    vstd::arithmetic::div_mod::lemma_fundamental_div_mod(
                        m,
                        kernels@.len() as int,
                    );
                    assert(0 <= i0 < cur@.len() && 0 <= k0 < kernels@.len())
                        by (nonlinear_arith)
                        requires
                            m == kernels@.len() * i0 + k0,
                            0 <= k0 < kernels@.len(),
                            0 <= m < cur@.len() * kernels@.len(),
                            kernels@.len() >= 1,
                    ;
                    assert(applied_to(cur@[i0], kernels@[k0], STRIDE as int, next@[i0
                        * kernels@.len() as int + k0]));
                    assert(i0 * kernels@.len() as int + k0 == m) by (nonlinear_arith)
                        requires
                            m == kernels@.len() * i0 + k0,
                    ;
                    let c = steps(cur@[i0].spec_side(), STRIDE as int);
                    assert(c >= 1) by (nonlinear_arith)
                        requires
                            cur@[i0].spec_side() >= 1,
                            c == (cur@[i0].spec_side() + 1) / 2,
                            cur@[i0].spec_side() + 1 == 2 * ((cur@[i0].spec_side() + 1) / 2) + (
                            cur@[i0].spec_side() + 1) % 2,
                            0 <= (cur@[i0].spec_side() + 1) % 2 < 2,
                    ;
                }
                let prior = chain;
                chain = chain.push(next@);
                assert forall|t2: int| 0 <= t2 < t as int + 1 implies step_rel(
                    #[trigger] chain[t2],
                    kernels@,
                    chain[t2 + 1],
                ) by {
                    if t2 < t as int {
                        assert(chain[t2] == prior[t2] && chain[t2 + 1] == prior[t2 + 1]);
                    } else {
                        assert(chain[t2] == cur@ && chain[t2 + 1] == next@);
                        assert(step_rel(cur@, kernels@, next@));
                    }
                }
            }
            cur = next;
            t = t + 1;
        }
        let ghost old_r = r@;
        r.push((labeled_images[e2].0, cur));
        proof {
            assert forall|e3: int|
                0 <= e3 < r@.len() implies kernelized_entry(
                labeled_images@[e3],
                kernels@,
                levels as int,
                #[trigger] r@[e3],
            ) by {
                if e3 < old_r.len() {
                    assert(r@[e3] == old_r[e3]);
                } else {
                    assert(r@[e3].1@ == cur@ && r@[e3].0 == labeled_images@[e3].0);
                    assert(projection_chain(
                        labeled_images@[e3].1,
                        kernels@,
                        levels as int,
                        chain,
                        r@[e3].1@,
                    ));
                }
            }
        }
        e2 = e2 + 1;
    }
    proof {
        assert(kernels@.len() == NUM_KERNELS && (forall|k: int|
            0 <= k < kernels@.len() ==> window_shaped(KERNEL_SIZE as int, #[trigger] kernels@[k]))
            && (forall|e: int|
            0 <= e < r@.len() ==> kernelized_entry(
                labeled_images@[e],
                kernels@,
                levels as int,
                #[trigger] r@[e],
            )));
    }
    r
}

/// A non-empty image list offers at least its first image's windows.
proof fn lemma_windows_ge_first(images: Seq<Image>)
    requires
        images.len() >= 1,
    ensures
        windows_count(images) >= images[0].spec_side() * images[0].spec_side(),
    decreases images.len(),
{
    if images.len() == 1 {
        assert(images.drop_last() =~= Seq::<Image>::empty());
        assert(windows_count(Seq::<Image>::empty()) == 0);
        assert(images.last() == images[0]);
    } else {
        lemma_windows_ge_first(images.drop_last());
        assert(images.drop_last()[0] == images[0]);
        let s = images.last().spec_side();
        assert(s * s >= 0) by (nonlinear_arith);
    }
}



/// The space of projected image stacks of one fixed shape: `count` images of
/// side `side` each, under the summed squared Euclidean distance.
pub struct StackSpace {
    pub count: usize,
    pub side: usize,
}

impl Metric<Vec<Image>> for StackSpace {
    open spec fn in_space(&self, p: Vec<Image>) -> bool {
        p@.len() == self.count && self.side >= 1 && self.side <= MAX_SIDE && forall|i: int|
            0 <= i < p@.len() ==> (#[trigger] p@[i]).grid_wf() && p@[i].spec_side()
                == self.side as int && p@[i].cells().len() == self.side as int * self.side as int
    }

    open spec fn spec_distance(&self, a: Vec<Image>, b: Vec<Image>) -> u64 {
        crate::pyramid::sat64(stack_dist(a@, b@, a@.len() as int)) as u64
    }

    open spec fn spec_same(&self, a: Vec<Image>, b: Vec<Image>) -> bool {
        a@.len() == b@.len() && forall|i: int|
            0 <= i < a@.len() ==> (#[trigger] a@[i]).cells() == b@[i].cells() && a@[i].spec_side()
                == b@[i].spec_side()
    }

    fn distance(&self, a: &Vec<Image>, b: &Vec<Image>) -> (r: u64) {
        let d = kernelized_distance(a, b);
        proof {
            lemma_stack_dist_nonneg(a@, b@, a@.len() as int);
        }
        d
    }

    fn same_point(&self, a: &Vec<Image>, b: &Vec<Image>) -> (r: bool) {
        let n = a.len();
        let mut i: usize = 0;
        while i < n
            invariant
                self.in_space(*a),
                self.in_space(*b),
                n == a@.len(),
                b@.len() == n as nat,
                0 <= i <= n,
                forall|j: int|
                    0 <= j < i ==> (#[trigger] a@[j]).cells() == b@[j].cells() && a@[j].spec_side()
                        == b@[j].spec_side(),
            decreases n - i,
        {
            if !crate::pyramid::images_equal(&a[i], &b[i]) {
                return false;
            }
            i = i + 1;
        }
        true
    }

    fn clone_point(&self, p: &Vec<Image>) -> (r: Vec<Image>) {
        let n = p.len();
        let mut r: Vec<Image> = Vec::new();
        let mut i: usize = 0;
        while i < n
            invariant
                self.in_space(*p),
                n == p@.len(),
                0 <= i <= n,
                r@.len() == i,
                forall|j: int|
                    0 <= j < i ==> (#[trigger] r@[j]).cells() == p@[j].cells() && r@[j].spec_side()
                        == p@[j].spec_side() && r@[j].grid_wf(),
            decreases n - i,
        {
            let d = p[i].duplicate();
            proof {
                crate::mnist_data::lemma_grid_wf_congruence(d, p@[i as int]);
            }
            r.push(d);
            i = i + 1;
        }
        r
    }

    proof fn lemma_same_is_equivalence(&self, a: Vec<Image>, b: Vec<Image>, c: Vec<Image>) {
    }

    proof fn lemma_distance_respects_same(&self, q: Vec<Image>, a: Vec<Image>, b: Vec<Image>) {
        lemma_stack_dist_congruent(q@, a@, b@, q@.len() as int);
    }
}

/// The stack distance depends only on the images' pixels.
proof fn lemma_stack_dist_congruent(qs: Seq<Image>, a: Seq<Image>, b: Seq<Image>, n: int)
    requires
        forall|i: int| 0 <= i < n ==> (#[trigger] a[i]).cells() == b[i].cells(),
    ensures
        stack_dist(qs, a, n) == stack_dist(qs, b, n),
    decreases n,
{
    if n > 0 {
        lemma_stack_dist_congruent(qs, a, b, n - 1);
    }
}

} // verus!
