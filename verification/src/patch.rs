//! Patch descriptors: for every pixel, one bit per cell of the patch-sized
//! window centered on it, set when the center pixel is brighter than that
//! cell (cells beyond the edge read as zero).

use vstd::prelude::*;
use crate::mnist_data::{Image, Grid, subgrid_window, MAX_SIDE};
use crate::bits::BitArray;

verus! {

/// The descriptor bits of one image: pixels in row-major order, and for each
/// pixel the bits of its centered window in row-major order.
pub fn patchify(img: &Image, patch_size: usize) -> (r: BitArray)
    requires
        img.grid_wf(),
        img.cells().len() == img.spec_side() * img.spec_side(),
        patch_size <= MAX_SIDE,
        img.cells().len() * (patch_size * patch_size) < u64::MAX,
    ensures
        r.wf(),
        r@.len() == img.cells().len() * (patch_size * patch_size),
        forall|p: int, w: int|
            0 <= p < img.cells().len() && 0 <= w < patch_size * patch_size ==> (#[trigger] r@[p
                * (patch_size as int * patch_size as int) + w]) == (img.cells()[p]
                > subgrid_window(
                *img,
                0u8,
                p % img.spec_side(),
                p / img.spec_side(),
                patch_size as int,
            )[w]),
{
    proof {
        img.lemma_wf_side();
    }
    let side = img.side();
    proof {
        assert(patch_size * patch_size <= MAX_SIDE * MAX_SIDE) by (nonlinear_arith)
            requires
                0 <= patch_size <= MAX_SIDE,
        ;
    }
    let area = patch_size * patch_size;
    let ghost ar = area as int;
    let mut bits = BitArray::new();
    let mut y: usize = 0;
    while y < side
        invariant
            img.grid_wf(),
            img.cells().len() == img.spec_side() * img.spec_side(),
            patch_size <= MAX_SIDE,
            img.cells().len() * (patch_size * patch_size) < u64::MAX,
            side as int == img.spec_side(),
            side <= MAX_SIDE,
            area == patch_size * patch_size,
            ar == area as int,
            0 <= y <= side,
            bits.wf(),
            bits@.len() == (y as int * side as int) * ar,
            forall|p: int, w: int|
                0 <= p < y as int * side as int && 0 <= w < ar ==> (#[trigger] bits@[p * ar + w])
                    == (img.cells()[p] > subgrid_window(
                    *img,
                    0u8,
                    p % side as int,
                    p / side as int,
                    patch_size as int,
                )[w]),
        decreases side - y,
    {
        let mut x: usize = 0;
        while x < side
            invariant
                img.grid_wf(),
                img.cells().len() == img.spec_side() * img.spec_side(),
                patch_size <= MAX_SIDE,
                img.cells().len() * (patch_size * patch_size) < u64::MAX,
                side as int == img.spec_side(),
                side <= MAX_SIDE,
                area == patch_size * patch_size,
                ar == area as int,
                0 <= y < side,
                0 <= x <= side,
                bits.wf(),
                bits@.len() == (y as int * side as int + x as int) * ar,
                forall|p: int, w: int|
                    0 <= p < y as int * side as int + x as int && 0 <= w < ar ==> (#[trigger] bits@[
                    p * ar + w]) == (img.cells()[p] > subgrid_window(
                        *img,
                        0u8,
                        p % side as int,
                        p / side as int,
                        patch_size as int,
                    )[w]),
            decreases side - x,
        {
            let ghost p0 = y as int * side as int + x as int;
            proof {
                vstd::arithmetic::div_mod::lemma_fundamental_div_mod_converse(
                    p0,
                    side as int,
                    y as int,
                    x as int,
                );
                assert(p0 < side as int * side as int) by (nonlinear_arith)
                    requires
                        0 <= x as int && (x as int) < side as int,
                        0 <= y as int && (y as int) < side as int,
                        p0 == y as int * side as int + x as int,
                ;
                assert((p0 + 1) * ar <= (side as int * side as int) * ar) by (nonlinear_arith)
                    requires
                        p0 + 1 <= side as int * side as int,
                        ar >= 0,
                ;
            }
            let center = img.get(x, y);
            let ghost win = subgrid_window(*img, 0u8, x as int, y as int, patch_size as int);
            let half = patch_size / 2;
            let mut dy: usize = 0;
            while dy < patch_size
                invariant
                    img.grid_wf(),
                    img.cells().len() == img.spec_side() * img.spec_side(),
                    side as int == img.spec_side(),
                    side <= MAX_SIDE,
                    patch_size <= MAX_SIDE,
                    img.cells().len() * (patch_size * patch_size) < u64::MAX,
                    area == patch_size * patch_size,
                    ar == area as int,
                    0 <= y < side,
                    0 <= x < side,
                    half == patch_size / 2,
                    p0 == y as int * side as int + x as int,
                    (p0 + 1) * ar <= (side as int * side as int) * ar,
                    center == img.cells()[p0],
                    win == subgrid_window(*img, 0u8, x as int, y as int, patch_size as int),
                    win.len() == ar,
                    0 <= dy <= patch_size,
                    bits.wf(),
                    bits@.len() == p0 * ar + dy as int * patch_size as int,
                    forall|p: int, w: int|
                        0 <= p < p0 && 0 <= w < ar ==> (#[trigger] bits@[p * ar + w]) == (
                        img.cells()[p] > subgrid_window(
                            *img,
                            0u8,
                            p % side as int,
                            p / side as int,
                            patch_size as int,
                        )[w]),
                    forall|w: int|
                        0 <= w < dy as int * patch_size as int ==> bits@[p0 * ar + w] == (
                        img.cells()[p0] > #[trigger] win[w]),
                decreases patch_size - dy,
            {
                let mut dx: usize = 0;
                while dx < patch_size
                    invariant
                        img.grid_wf(),
                        img.cells().len() == img.spec_side() * img.spec_side(),
                        side as int == img.spec_side(),
                        side <= MAX_SIDE,
                        patch_size <= MAX_SIDE,
                        img.cells().len() * (patch_size * patch_size) < u64::MAX,
                        area == patch_size * patch_size,
                        ar == area as int,
                        0 <= y < side,
                        0 <= x < side,
                        half == patch_size / 2,
                        p0 == y as int * side as int + x as int,
                        (p0 + 1) * ar <= (side as int * side as int) * ar,
                        center == img.cells()[p0],
                        win == subgrid_window(*img, 0u8, x as int, y as int, patch_size as int),
                        win.len() == ar,
                        0 <= dy < patch_size,
                        0 <= dx <= patch_size,
                        bits.wf(),
                        bits@.len() == p0 * ar + dy as int * patch_size as int + dx as int,
                        forall|p: int, w: int|
                            0 <= p < p0 && 0 <= w < ar ==> (#[trigger] bits@[p * ar + w]) == (
                            img.cells()[p] > subgrid_window(
                                *img,
                                0u8,
                                p % side as int,
                                p / side as int,
                                patch_size as int,
                            )[w]),
                        forall|w: int|
                            0 <= w < dy as int * patch_size as int + dx as int ==> bits@[p0 * ar
                                + w] == (img.cells()[p0] > #[trigger] win[w]),
                    decreases patch_size - dx,
                {
                    let gi = x as isize - half as isize + dx as isize;
                    let gj = y as isize - half as isize + dy as isize;
                    let v = match img.option_get(gi, gj) {
                        Some(q) => q,
                        None => 0,
                    };
                    proof {
                        let w0 = dy as int * patch_size as int + dx as int;
                        vstd::arithmetic::div_mod::lemma_fundamental_div_mod_converse(
                            w0,
                            patch_size as int,
                            dy as int,
                            dx as int,
                        );
                        assert(w0 < ar) by (nonlinear_arith)
                            requires
                                0 <= dx as int && (dx as int) < patch_size as int,
                                0 <= dy as int && (dy as int) < patch_size as int,
                                w0 == dy as int * patch_size as int + dx as int,
                                ar == patch_size as int * patch_size as int,
                        ;
                        assert(p0 * ar + w0 < (p0 + 1) * ar) by (nonlinear_arith)
                            requires
                                w0 < ar,
                                p0 >= 0,
                        ;
                        assert((side as int * side as int) * ar < u64::MAX as int);
                        assert(win[w0] == v);
                    }
                    let ghost prev_bits = bits@;
                    bits.add(center > v);
                    proof {
                        let w0 = dy as int * patch_size as int + dx as int;
                        assert(bits@[p0 * ar + w0] == (center > v));
                        assert forall|p: int, w: int|
                            0 <= p < p0 && 0 <= w < ar implies (#[trigger] bits@[p * ar + w]) == (
                        img.cells()[p] > subgrid_window(
                            *img,
                            0u8,
                            p % side as int,
                            p / side as int,
                            patch_size as int,
                        )[w]) by {
                            assert(p * ar + w < p0 * ar) by (nonlinear_arith)
                                requires
                                    0 <= p && p < p0,
                                    0 <= w && w < ar,
                            ;
                            assert(bits@[p * ar + w] == prev_bits[p * ar + w]);
                        }
                        assert forall|w: int|
                            0 <= w < w0 + 1 implies bits@[p0 * ar + w] == (img.cells()[p0]
                            > #[trigger] win[w]) by {
                            if w < w0 {
                                assert(bits@[p0 * ar + w] == prev_bits[p0 * ar + w]);
                            }
                        }
                    }
                    dx = dx + 1;
                }
                proof {
                    assert(dy as int * patch_size as int + patch_size as int == (dy as int + 1)
                        * patch_size as int) by (nonlinear_arith);
                }
                dy = dy + 1;
            }
            proof {
                assert(p0 * ar + patch_size as int * patch_size as int == (p0 + 1) * ar)
                    by (nonlinear_arith)
                    requires
                        ar == patch_size as int * patch_size as int,
                ;
                assert forall|p: int, w: int|
                    0 <= p < p0 + 1 && 0 <= w < ar implies (#[trigger] bits@[p * ar + w]) == (
                img.cells()[p] > subgrid_window(
                    *img,
                    0u8,
                    p % side as int,
                    p / side as int,
                    patch_size as int,
                )[w]) by {
                    if p == p0 {
                        assert(p0 % side as int == x as int && p0 / side as int == y as int);
                        assert(bits@[p0 * ar + w] == (img.cells()[p0] > win[w]));
                    }
                }
            }
            x = x + 1;
        }
        proof {
            assert((y as int * side as int + side as int) * ar == ((y as int + 1)
                * side as int) * ar && y as int * side as int + side as int == (y as int + 1)
                * side as int) by (nonlinear_arith);
        }
        y = y + 1;
    }
    proof {
        assert((side as int * side as int) * ar == img.cells().len() * (patch_size as int
            * patch_size as int));
    }
    bits
}

} // verus!
