//! Square grids of pixels: the grayscale `Image`, the `Grid` interface shared
//! with the binary image type, a row-major coordinate iterator, and the
//! pixel-wise mean of a set of images.  File parsing stays outside the
//! library; images reach it as plain byte values.

use vstd::prelude::*;

verus! {

/// Side length of the dataset's images.
pub const IMAGE_DIMENSION: usize = 28;

/// Pixel count of the dataset's images.
pub const IMAGE_BYTES: usize = IMAGE_DIMENSION * IMAGE_DIMENSION;

/// Largest side length a grid may reach; keeps every index computation and
/// distance sum comfortably within the machine types.
pub const MAX_SIDE: usize = 0xFFFF;

/// Bound on iterator coordinates, so stepping can never overflow.
pub const COORD_BOUND: isize = 0x1000_0000;

/// The side a grid with `n` cells reports: zero for an empty grid, else the
/// least `s` with `n <= s * s`.
pub open spec fn side_fits(n: int, s: int) -> bool {
    if n == 0 {
        s == 0
    } else {
        (s - 1) * (s - 1) < n && n <= s * s
    }
}

/// A cell count determines the side.
pub proof fn lemma_side_unique(n: int, s1: int, s2: int)
    requires
        side_fits(n, s1),
        side_fits(n, s2),
        s1 >= 0,
        s2 >= 0,
    ensures
        s1 == s2,
{
    if s1 < s2 {
        assert(s1 * s1 <= (s2 - 1) * (s2 - 1)) by (nonlinear_arith)
            requires
                0 <= s1 <= s2 - 1,
        ;
    }
    if s2 < s1 {
        assert(s2 * s2 <= (s1 - 1) * (s1 - 1)) by (nonlinear_arith)
            requires
                0 <= s2 <= s1 - 1,
        ;
    }
}

/// A square grid of copyable cells, growing cell by cell in row-major order;
/// the side grows as soon as the cells no longer fit the current square.
pub trait Grid<T: Copy>: Sized {
    /// The stored cells, in row-major order.
    spec fn cells(&self) -> Seq<T>;

    /// The current side length.
    spec fn spec_side(&self) -> int;

    /// The implementation's structural invariant.
    spec fn grid_wf(&self) -> bool;

    /// What every well-formed grid guarantees about its side.
    proof fn lemma_wf_side(&self)
        requires
            self.grid_wf(),
        ensures
            side_fits(self.cells().len() as int, self.spec_side()),
            0 <= self.spec_side() <= MAX_SIDE as int,
    ;

    /// Appends one cell; the side grows when the new count spills over the
    /// current square.
    fn add(&mut self, pixel: T)
        requires
            old(self).grid_wf(),
            old(self).cells().len() < MAX_SIDE * MAX_SIDE,
        ensures
            final(self).grid_wf(),
            final(self).cells() == old(self).cells().push(pixel),
    ;

    /// The cell at column `x` of row `y`; the position must exist.
    fn get(&self, x: usize, y: usize) -> (r: T)
        requires
            self.grid_wf(),
            (x as int) < self.spec_side(),
            (y as int) < self.spec_side(),
            (y as int * self.spec_side() + x as int) < self.cells().len(),
        ensures
            r == self.cells()[y as int * self.spec_side() + x as int],
    ;

    fn side(&self) -> (r: usize)
        requires
            self.grid_wf(),
        ensures
            r as int == self.spec_side(),
    ;

    fn len(&self) -> (r: usize)
        requires
            self.grid_wf(),
        ensures
            r as nat == self.cells().len(),
    ;

    /// Whether a signed coordinate pair lies on the grid.
    fn in_bounds(&self, x: isize, y: isize) -> (r: bool)
        requires
            self.grid_wf(),
        ensures
            r == (0 <= x && 0 <= y && (x as int) < self.spec_side() && (y as int)
                < self.spec_side()),
    {
        x >= 0 && y >= 0 && (x as usize) < self.side() && (y as usize) < self.side()
    }

    /// The cell at a signed coordinate pair, or nothing where the grid holds
    /// no cell: off the sides, or at a position the (possibly partly filled)
    /// last rows have not reached.
    fn option_get(&self, x: isize, y: isize) -> (r: Option<T>)
        requires
            self.grid_wf(),
        ensures
            r == (if 0 <= x && 0 <= y && (x as int) < self.spec_side() && (y as int)
                < self.spec_side() && (y as int) * self.spec_side() + (x as int)
                < self.cells().len() {
                Some(self.cells()[(y as int) * self.spec_side() + (x as int)])
            } else {
                None::<T>
            }),
    {
        if self.in_bounds(x, y) {
            proof {
                self.lemma_wf_side();
                let s = self.spec_side();
                assert((y as int) * s + (x as int) < s * s && (y as int) * s + (x as int)
                    <= MAX_SIDE as int * MAX_SIDE as int) by (nonlinear_arith)
                    requires
                        0 <= (x as int) < s,
                        0 <= (y as int) < s,
                        s <= MAX_SIDE as int,
                ;
            }
            let pos = (y as usize) * self.side() + (x as usize);
            if pos < self.len() {
                Some(self.get(x as usize, y as usize))
            } else {
                None
            }
        } else {
            None
        }
    }

    /// A row-major iterator over all coordinates of the grid.
    fn x_y_iter(&self) -> (r: ImageIterator)
        requires
            self.grid_wf(),
        ensures
            r.wf(),
            r.spec_x() == 0 && r.spec_y() == 0 && r.spec_x_start() == 0 && r.spec_y_start() == 0,
            r.spec_width() == self.spec_side() && r.spec_height() == self.spec_side(),
            r.spec_stride() == 1,
    {
        proof {
            self.lemma_wf_side();
        }
        let s = self.side();
        ImageIterator::new(0, 0, s as isize, s as isize, 1)
    }

    /// A row-major iterator over the grid's coordinates with the given step.
    fn x_y_step_iter(&self, step_size: usize) -> (r: ImageIterator)
        requires
            self.grid_wf(),
            1 <= step_size <= COORD_BOUND as usize,
        ensures
            r.wf(),
            r.spec_x() == 0 && r.spec_y() == 0 && r.spec_x_start() == 0 && r.spec_y_start() == 0,
            r.spec_width() == self.spec_side() && r.spec_height() == self.spec_side(),
            r.spec_stride() == step_size,
    {
        proof {
            self.lemma_wf_side();
        }
        let s = self.side();
        ImageIterator::new(0, 0, s as isize, s as isize, step_size as isize)
    }
}

/// The cells a centered window reads out of a grid, row-major, with `default`
/// where the window hangs over the edge or over a position the (possibly
/// partly filled) last rows have not reached.
pub open spec fn subgrid_window<T: Copy, G: Grid<T>>(
    src: G,
    default: T,
    x_center: int,
    y_center: int,
    side: int,
) -> Seq<T> {
    Seq::new(
        (side * side) as nat,
        |idx: int|
            {
                let gx = x_center - side / 2 + idx % side;
                let gy = y_center - side / 2 + idx / side;
                if 0 <= gx < src.spec_side() && 0 <= gy < src.spec_side() && gy * src.spec_side()
                    + gx < src.cells().len() {
                    src.cells()[gy * src.spec_side() + gx]
                } else {
                    default
                }
            },
    )
}

/// Appends to `dest` the cells of the `side`-by-`side` window of `src`
/// centered on the given coordinates, with `default` beyond the edges and at
/// positions `src` holds no cell for.
pub fn add_subgrid_of<T: Copy, G1: Grid<T>, G2: Grid<T>>(
    src: &G1,
    dest: &mut G2,
    default: T,
    x_center: usize,
    y_center: usize,
    side: usize,
)
    requires
        src.grid_wf(),
        old(dest).grid_wf(),
        x_center <= MAX_SIDE,
        y_center <= MAX_SIDE,
        side <= MAX_SIDE,
        old(dest).cells().len() + side * side <= MAX_SIDE * MAX_SIDE,
    ensures
        final(dest).grid_wf(),
        final(dest).cells() == old(dest).cells() + subgrid_window(
            *src,
            default,
            x_center as int,
            y_center as int,
            side as int,
        ),
{
    proof {
        src.lemma_wf_side();
    }
    let ghost win = subgrid_window(*src, default, x_center as int, y_center as int, side as int);
    let half = side / 2;
    let mut dy: usize = 0;
    while dy < side
        invariant
            src.grid_wf(),
            dest.grid_wf(),
            x_center <= MAX_SIDE,
            y_center <= MAX_SIDE,
            side <= MAX_SIDE,
            old(dest).cells().len() + side * side <= MAX_SIDE * MAX_SIDE,
            half == side / 2,
            win == subgrid_window(*src, default, x_center as int, y_center as int, side as int),
            win.len() == side * side,
            0 <= src.spec_side() <= MAX_SIDE as int,
            0 <= dy <= side,
            dest.cells() == old(dest).cells() + win.take(dy as int * side as int),
        decreases side - dy,
    {
        let mut dx: usize = 0;
        while dx < side
            invariant
                src.grid_wf(),
                dest.grid_wf(),
                x_center <= MAX_SIDE,
                y_center <= MAX_SIDE,
                side <= MAX_SIDE,
                old(dest).cells().len() + side * side <= MAX_SIDE * MAX_SIDE,
                half == side / 2,
                win == subgrid_window(
                    *src,
                    default,
                    x_center as int,
                    y_center as int,
                    side as int,
                ),
                win.len() == side * side,
                0 <= src.spec_side() <= MAX_SIDE as int,
                0 <= dy < side,
                0 <= dx <= side,
                dest.cells() == old(dest).cells() + win.take(dy as int * side as int + dx as int),
            decreases side - dx,
        {
            proof {
                let idx = dy as int * side as int + dx as int;
                vstd::arithmetic::div_mod::lemma_fundamental_div_mod_converse(
                    idx,
                    side as int,
                    dy as int,
                    dx as int,
                );
                assert(idx < side as int * side as int) by (nonlinear_arith)
                    requires
                        0 <= dx as int && (dx as int) < side as int,
                        0 <= dy as int && (dy as int) < side as int,
                        idx == dy as int * side as int + dx as int,
                ;
                assert(win.take(idx + 1).drop_last() =~= win.take(idx));
            }
            let gx = x_center as isize - half as isize + dx as isize;
            let gy = y_center as isize - half as isize + dy as isize;
            let v = match src.option_get(gx, gy) {
                Some(p) => p,
                None => default,
            };
            dest.add(v);
            dx = dx + 1;
        }
        proof {
            assert((dy as int + 1) * side as int == dy as int * side as int + side as int)
                by (nonlinear_arith);
        }
        dy = dy + 1;
    }
    proof {
        assert(win.take(side as int * side as int) =~= win);
    }
}

/// A grayscale image: one byte per pixel, row-major, growing square.
#[derive(Debug)]
pub struct Image {
    pixels: Vec<u8>,
    side_size: usize,
}

impl Grid<u8> for Image {
    closed spec fn cells(&self) -> Seq<u8> {
        self.pixels@
    }

    closed spec fn spec_side(&self) -> int {
        self.side_size as int
    }

    closed spec fn grid_wf(&self) -> bool {
        side_fits(self.pixels@.len() as int, self.side_size as int) && self.side_size <= MAX_SIDE
    }

    proof fn lemma_wf_side(&self) {
    }

    fn add(&mut self, pixel: u8) {
        let ghost n0 = self.pixels@.len() as int;
        let ghost s0 = self.side_size as int;
        self.pixels.push(pixel);
        proof {
            assert(s0 * s0 <= MAX_SIDE as int * MAX_SIDE as int) by (nonlinear_arith)
                requires
                    0 <= s0 <= MAX_SIDE as int,
            ;
        }
        if self.pixels.len() > self.side_size * self.side_size {
            proof {
                assert(n0 == s0 * s0);
                assert(s0 < MAX_SIDE as int) by (nonlinear_arith)
                    requires
                        0 <= s0 <= MAX_SIDE as int,
                        s0 * s0 < MAX_SIDE as int * MAX_SIDE as int,
                ;
            }
            self.side_size = self.side_size + 1;
            proof {
                let s = self.side_size as int;
                assert((s - 1) * (s - 1) < n0 + 1 && n0 + 1 <= s * s) by (nonlinear_arith)
                    requires
                        s == s0 + 1,
                        s0 >= 0,
                        n0 == s0 * s0,
                ;
            }
        }
    }

    fn get(&self, x: usize, y: usize) -> (r: u8) {
        proof {
            assert(y * self.side_size + x < MAX_SIDE * MAX_SIDE) by (nonlinear_arith)
                requires
                    (x as int) < self.side_size as int,
                    (y as int) < self.side_size as int,
                    self.side_size <= MAX_SIDE,
            ;
        }
        self.pixels[y * self.side_size + x]
    }

    fn side(&self) -> usize {
        self.side_size
    }

    fn len(&self) -> usize {
        self.pixels.len()
    }
}

impl Image {
    pub fn new() -> (r: Image)
        ensures
            r.grid_wf(),
            r.cells() =~= Seq::<u8>::empty(),
            r.spec_side() == 0,
    {
        Image { pixels: Vec::new(), side_size: 0 }
    }

    /// An image holding the given pixels, as if appended one by one.
    pub fn from_vec(v: &Vec<u8>) -> (r: Image)
        requires
            v@.len() < MAX_SIDE * MAX_SIDE,
        ensures
            r.grid_wf(),
            r.cells() == v@,
    {
        let mut result = Image::new();
        let n = v.len();
        let mut i: usize = 0;
        while i < n
            invariant
                n == v@.len(),
                n < MAX_SIDE * MAX_SIDE,
                0 <= i <= n,
                result.grid_wf(),
                result.cells() == v@.take(i as int),
            decreases n - i,
        {
            proof {
                assert(v@.take(i as int + 1).drop_last() =~= v@.take(i as int));
            }
            result.add(v[i]);
            i = i + 1;
        }
        proof {
            assert(v@.take(n as int) =~= v@);
        }
        result
    }

    /// A structurally equal copy.
    pub fn duplicate(&self) -> (r: Image)
        ensures
            r.cells() == self.cells(),
            r.spec_side() == self.spec_side(),
            r.grid_wf() == self.grid_wf(),
    {
        let mut px: Vec<u8> = Vec::new();
        let n = self.pixels.len();
        let mut i: usize = 0;
        while i < n
            invariant
                n == self.pixels@.len(),
                0 <= i <= n,
                px@.len() == i,
                forall|j: int| 0 <= j < i ==> px@[j] == self.pixels@[j],
            decreases n - i,
        {
            px.push(self.pixels[i]);
            i = i + 1;
        }
        proof {
            assert(px@ =~= self.pixels@);
        }
        Image { pixels: px, side_size: self.side_size }
    }

    /// The image re-ordered by the given pixel permutation: pixel `i` of the
    /// result is pixel `permutation[i]` of this image.
    pub fn permuted(&self, permutation: &Vec<usize>) -> (r: Image)
        requires
            self.grid_wf(),
            permutation@.len() == self.cells().len(),
            forall|i: int|
                0 <= i < permutation@.len() ==> (#[trigger] permutation@[i]) < self.cells().len(),
        ensures
            r.grid_wf(),
            r.cells().len() == self.cells().len(),
            forall|i: int|
                0 <= i < r.cells().len() ==> r.cells()[i] == self.cells()[permutation@[i] as int],
    {
        proof {
            self.lemma_wf_side();
            assert(self.cells().len() <= MAX_SIDE * MAX_SIDE) by (nonlinear_arith)
                requires
                    side_fits(self.cells().len() as int, self.spec_side()),
                    0 <= self.spec_side() <= MAX_SIDE as int,
            ;
        }
        let mut result = Image::new();
        let n = permutation.len();
        let mut i: usize = 0;
        while i < n
            invariant
                self.grid_wf(),
                n == permutation@.len(),
                n == self.cells().len(),
                n <= MAX_SIDE * MAX_SIDE,
                forall|j: int|
                    0 <= j < n ==> (#[trigger] permutation@[j]) < self.cells().len(),
                0 <= i <= n,
                result.grid_wf(),
                result.cells().len() == i,
                forall|j: int|
                    0 <= j < i ==> result.cells()[j] == self.cells()[permutation@[j] as int],
            decreases n - i,
        {
            result.add(self.pixels[permutation[i]]);
            i = i + 1;
        }
        result
    }

    /// The mean of the `side`-by-`side` block whose top-left corner is
    /// `(x, y)`.
    fn subimage_mean(&self, x: usize, y: usize, side: usize) -> (r: u8)
        requires
            self.grid_wf(),
            side >= 1,
            x + side <= self.spec_side(),
            y + side <= self.spec_side(),
            self.cells().len() == self.spec_side() * self.spec_side(),
        ensures
            r as int == block_sum(self.cells(), self.spec_side(), x as int, y as int, side as int, side as int)
                / (side as int * side as int),
    {
        proof {
            self.lemma_wf_side();
        }
        let mut sum: u64 = 0;
        let mut i: usize = 0;
        while i < side
            invariant
                self.grid_wf(),
                self.cells().len() == self.spec_side() * self.spec_side(),
                side >= 1,
                x + side <= self.spec_side(),
                y + side <= self.spec_side(),
                self.spec_side() <= MAX_SIDE as int,
                0 <= i <= side,
                sum as int == block_sum(
                    self.cells(),
                    self.spec_side(),
                    x as int,
                    y as int,
                    i as int,
                    side as int,
                ),
                sum <= i * side * 255,
            decreases side - i,
        {
            let mut j: usize = 0;
            let ghost row_base = sum as int;
            while j < side
                invariant
                    self.grid_wf(),
                    self.cells().len() == self.spec_side() * self.spec_side(),
                    side >= 1,
                    x + side <= self.spec_side(),
                    y + side <= self.spec_side(),
                    self.spec_side() <= MAX_SIDE as int,
                    0 <= i < side,
                    0 <= j <= side,
                    row_base == block_sum(
                        self.cells(),
                        self.spec_side(),
                        x as int,
                        y as int,
                        i as int,
                        side as int,
                    ),
                    sum as int == row_base + col_sum(
                        self.cells(),
                        self.spec_side(),
                        x as int + i as int,
                        y as int,
                        j as int,
                    ),
                    sum <= (i * side + j) * 255,
                decreases side - j,
            {
                proof {
                    let s = self.spec_side();
                    assert((y as int + j as int) * s + (x as int + i as int) < s * s)
                        by (nonlinear_arith)
                        requires
                            0 <= x as int + i as int && (x as int + i as int) < s,
                            0 <= y as int + j as int && (y as int + j as int) < s,
                    ;
                    assert((i as int * side as int + j as int + 1) * 255 <= (MAX_SIDE as int
                        * MAX_SIDE as int + MAX_SIDE as int) * 255) by (nonlinear_arith)
                        requires
                            0 <= i as int && (i as int) < side as int,
                            0 <= j as int && (j as int) < side as int,
                            side as int <= MAX_SIDE as int,
                    ;
                }
                let p = self.get(x + i, y + j);
                sum = sum + (p as u64);
                j = j + 1;
            }
            proof {
                assert((i as int + 1) * side as int * 255 == i as int * side as int * 255 + side
                    as int * 255) by (nonlinear_arith);
            }
            i = i + 1;
        }
        proof {
            let total = sum as int;
            let area = side as int * side as int;
            assert(total <= area * 255 && area >= 1) by (nonlinear_arith)
                requires
                    total <= (side as int * side as int) * 255,
                    side as int >= 1,
                    area == side as int * side as int,
            ;
            vstd::arithmetic::div_mod::lemma_div_is_ordered(total, area * 255, area);
            vstd::arithmetic::div_mod::lemma_div_multiples_vanish(255, area);
            vstd::arithmetic::div_mod::lemma_div_pos_is_pos(total, area);
            assert(side as int * side as int <= MAX_SIDE as int * MAX_SIDE as int)
                by (nonlinear_arith)
                requires
                    0 <= side as int <= MAX_SIDE as int,
            ;
        }
        let area = side * side;
        (sum / (area as u64)) as u8
    }

    /// The image shrunk by the given factor: pixel `(x, y)` of the result is
    /// the mean of the `shrink`-by-`shrink` block at `(x, y)` of this image.
    pub fn shrunken(&self, shrink: usize) -> (r: Image)
        requires
            self.grid_wf(),
            shrink >= 1,
            self.cells().len() == self.spec_side() * self.spec_side(),
        ensures
            r.grid_wf(),
            r.cells().len() == (self.spec_side() / shrink as int) * (self.spec_side()
                / shrink as int),
            forall|x: int, y: int|
                #![trigger r.cells()[y * (self.spec_side() / shrink as int) + x]]
                0 <= x < self.spec_side() / shrink as int && 0 <= y < self.spec_side()
                    / shrink as int ==> r.cells()[y * (self.spec_side() / shrink as int) + x]
                    as int == block_sum(self.cells(), self.spec_side(), x, y, shrink as int, shrink as int)
                    / (shrink as int * shrink as int),
    {
        proof {
            self.lemma_wf_side();
        }
        let target_side = self.side() / shrink;
        let ghost ts = target_side as int;
        proof {
            vstd::arithmetic::div_mod::lemma_fundamental_div_mod(
                self.spec_side(),
                shrink as int,
            );
            assert(ts * ts <= MAX_SIDE * MAX_SIDE) by (nonlinear_arith)
                requires
                    0 <= ts <= MAX_SIDE as int,
            ;
            if ts >= 1 {
                assert(ts - 1 + shrink as int <= self.spec_side()) by (nonlinear_arith)
                    requires
                        1 <= shrink as int,
                        1 <= ts,
                        ts == self.spec_side() / shrink as int,
                        shrink as int * ts <= self.spec_side(),
                ;
            }
        }
        let mut result = Image::new();
        let mut y: usize = 0;
        while y < target_side
            invariant
                self.grid_wf(),
                self.cells().len() == self.spec_side() * self.spec_side(),
                shrink >= 1,
                ts == target_side as int,
                ts == self.spec_side() / shrink as int,
                ts * ts <= MAX_SIDE * MAX_SIDE,
                ts >= 1 ==> ts - 1 + shrink as int <= self.spec_side(),
                0 <= y <= target_side,
                result.grid_wf(),
                result.cells().len() == y as int * ts,
                forall|px: int, py: int|
                    #![trigger result.cells()[py * ts + px]]
                    0 <= px < ts && 0 <= py < y as int ==> result.cells()[py * ts + px] as int
                        == block_sum(self.cells(), self.spec_side(), px, py, shrink as int, shrink as int)
                        / (shrink as int * shrink as int),
            decreases target_side - y,
        {
            let mut x: usize = 0;
            while x < target_side
                invariant
                    self.grid_wf(),
                    self.cells().len() == self.spec_side() * self.spec_side(),
                    shrink >= 1,
                    ts == target_side as int,
                    ts == self.spec_side() / shrink as int,
                    ts * ts <= MAX_SIDE * MAX_SIDE,
                    ts >= 1 ==> ts - 1 + shrink as int <= self.spec_side(),
                    0 <= y < target_side,
                    0 <= x <= target_side,
                    result.grid_wf(),
                    result.cells().len() == y as int * ts + x as int,
                    forall|px: int, py: int|
                        #![trigger result.cells()[py * ts + px]]
                        (0 <= px < ts && 0 <= py < y as int) || (0 <= px < x as int && py
                            == y as int) ==> result.cells()[py * ts + px] as int == block_sum(
                            self.cells(),
                            self.spec_side(),
                            px,
                            py,
                            shrink as int,
                            shrink as int,
                        ) / (shrink as int * shrink as int),
                decreases target_side - x,
            {
                proof {
                    assert((y as int * ts + x as int) < ts * ts) by (nonlinear_arith)
                        requires
                            0 <= x as int && (x as int) < ts,
                            0 <= y as int && (y as int) < ts,
                    ;
                }
                let m = self.subimage_mean(x, y, shrink);
                let ghost prev_cells = result.cells();
                result.add(m);
                proof {
                    assert forall|px: int, py: int|
                        #![trigger result.cells()[py * ts + px]]
                        (0 <= px < ts && 0 <= py < y as int) || (0 <= px <= x as int && py
                            == y as int) implies result.cells()[py * ts + px] as int == block_sum(
                        self.cells(),
                        self.spec_side(),
                        px,
                        py,
                        shrink as int,
                        shrink as int,
                    ) / (shrink as int * shrink as int) by {
                        assert(0 <= py * ts + px <= y as int * ts + x as int) by (nonlinear_arith)
                            requires
                                (0 <= px < ts && 0 <= py < y as int) || (0 <= px <= x as int && py
                                    == y as int),
                                0 <= x as int && (x as int) < ts,
                                0 <= y as int && (y as int) < ts,
                        ;
                        if py == y as int && px == x as int {
                            assert(result.cells()[py * ts + px] == m);
                        } else {
                            assert(py * ts + px < y as int * ts + x as int) by (nonlinear_arith)
                                requires
                                    (0 <= px < ts && 0 <= py < y as int) || (0 <= px <= x as int
                                        && py == y as int),
                                    0 <= x as int && (x as int) < ts,
                                    0 <= y as int && (y as int) < ts,
                                    !(py == y as int && px == x as int),
                            ;
                            assert(result.cells()[py * ts + px] == prev_cells[py * ts + px]);
                            assert(prev_cells[py * ts + px] as int == block_sum(
                                self.cells(),
                                self.spec_side(),
                                px,
                                py,
                                shrink as int,
                                shrink as int,
                            ) / (shrink as int * shrink as int));
                        }
                    }
                }
                x = x + 1;
            }
            proof {
                assert(y as int * ts + ts == (y as int + 1) * ts) by (nonlinear_arith);
            }
            y = y + 1;
        }
        result
    }

    /// The `side`-by-`side` window of this image centered on the given pixel,
    /// zero beyond the edges and at positions the image holds no pixel for.
    pub fn subimage(&self, x_center: usize, y_center: usize, side: usize) -> (r: Image)
        requires
            self.grid_wf(),
            x_center <= MAX_SIDE,
            y_center <= MAX_SIDE,
            side <= MAX_SIDE,
        ensures
            r.grid_wf(),
            r.cells() == subgrid_window(*self, 0u8, x_center as int, y_center as int, side as int),
            r.spec_side() == side,
    {
        let mut result = Image::new();
        proof {
            assert(side * side <= MAX_SIDE * MAX_SIDE) by (nonlinear_arith)
                requires
                    side <= MAX_SIDE,
            ;
        }
        add_subgrid_of(self, &mut result, 0u8, x_center, y_center, side);
        proof {
            result.lemma_wf_side();
            assert(result.cells().len() == side as int * side as int);
            if side > 0 {
                assert((side as int - 1) * (side as int - 1) < side as int * side as int)
                    by (nonlinear_arith)
                    requires
                        side as int >= 1,
                ;
            }
            lemma_side_unique(result.cells().len() as int, result.spec_side(), side as int);
        }
        result
    }

    /// The pixel at a flat row-major position.
    pub fn pixel_at(&self, p: usize) -> (r: u8)
        requires
            (p as int) < self.cells().len(),
        ensures
            r == self.cells()[p as int],
    {
        self.pixels[p]
    }

    /// The mean over all pixels of the image.
    pub fn pixel_mean(&self) -> (r: u8)
        requires
            self.grid_wf(),
            self.cells().len() > 0,
        ensures
            r as int == seq_sum_u8(self.cells()) / self.cells().len() as int,
    {
        let n = self.pixels.len();
        let mut sum: u128 = 0;
        let mut i: usize = 0;
        while i < n
            invariant
                n == self.cells().len(),
                0 <= i <= n,
                sum as int == seq_sum_u8(self.cells().take(i as int)),
                sum <= i * 255,
            decreases n - i,
        {
            proof {
                assert(self.cells().take(i as int + 1).drop_last() =~= self.cells().take(
                    i as int,
                ));
                assert((i as int + 1) * 255 == i as int * 255 + 255) by (nonlinear_arith);
                assert(i as int * 255 + 255 <= usize::MAX as int * 255 + 255)
                    by (nonlinear_arith)
                    requires
                        i as int <= usize::MAX as int,
                ;
            }
            sum = sum + (self.pixels[i] as u128);
            i = i + 1;
        }
        proof {
            assert(self.cells().take(n as int) =~= self.cells());
            let total = seq_sum_u8(self.cells());
            vstd::arithmetic::mul::lemma_mul_inequality(1, n as int, 255);
            vstd::arithmetic::div_mod::lemma_div_is_ordered(total, n as int * 255, n as int);
            vstd::arithmetic::div_mod::lemma_div_multiples_vanish(255, n as int);
            lemma_seq_sum_u8_nonneg(self.cells());
            vstd::arithmetic::div_mod::lemma_div_pos_is_pos(total, n as int);
        }
        (sum / (n as u128)) as u8
    }
}

/// Sum of a column segment: `count` pixels below `(x, y)` inclusive.
pub open spec fn col_sum(cells: Seq<u8>, side: int, x: int, y: int, count: int) -> int
    decreases count,
{
    if count <= 0 {
        0
    } else {
        col_sum(cells, side, x, y, count - 1) + cells[(y + count - 1) * side + x]
    }
}

/// Sum of the pixels of a `cols`-by-`rows` block with top-left `(x, y)`:
/// `cols` column segments of height `rows` each.
pub open spec fn block_sum(cells: Seq<u8>, side: int, x: int, y: int, cols: int, rows: int) -> int
    decreases cols,
{
    if cols <= 0 {
        0
    } else {
        block_sum(cells, side, x, y, cols - 1, rows) + col_sum(cells, side, x + cols - 1, y, rows)
    }
}

/// Sum of a byte sequence.
pub open spec fn seq_sum_u8(s: Seq<u8>) -> int
    decreases s.len(),
{
    if s.len() == 0 {
        0
    } else {
        seq_sum_u8(s.drop_last()) + s.last()
    }
}

pub proof fn lemma_seq_sum_u8_nonneg(s: Seq<u8>)
    ensures
        seq_sum_u8(s) >= 0,
    decreases s.len(),
{
    if s.len() > 0 {
        lemma_seq_sum_u8_nonneg(s.drop_last());
    }
}


/// A row-major iterator over a rectangle of coordinates: starting at
/// `(x_start, y_start)`, stepping `stride` columns at a time, wrapping to the
/// next `stride`-th row once a row is exhausted, until the rows run out.
pub struct ImageIterator {
    width: isize,
    height: isize,
    x: isize,
    y: isize,
    x_start: isize,
    y_start: isize,
    stride: isize,
}

impl ImageIterator {
    pub closed spec fn spec_x(&self) -> int {
        self.x as int
    }

    pub closed spec fn spec_y(&self) -> int {
        self.y as int
    }

    pub closed spec fn spec_width(&self) -> int {
        self.width as int
    }

    pub closed spec fn spec_height(&self) -> int {
        self.height as int
    }

    pub closed spec fn spec_x_start(&self) -> int {
        self.x_start as int
    }

    pub closed spec fn spec_y_start(&self) -> int {
        self.y_start as int
    }

    pub closed spec fn spec_stride(&self) -> int {
        self.stride as int
    }

    /// Bounds under which no step can overflow.
    pub open spec fn wf(&self) -> bool {
        &&& -(COORD_BOUND as int) <= self.spec_x_start() <= COORD_BOUND as int
        &&& -(COORD_BOUND as int) <= self.spec_y_start() <= COORD_BOUND as int
        &&& 0 <= self.spec_width() <= COORD_BOUND as int
        &&& 0 <= self.spec_height() <= COORD_BOUND as int
        &&& 1 <= self.spec_stride() <= COORD_BOUND as int
        &&& self.spec_x_start() <= self.spec_x() <= self.spec_x_start() + self.spec_width()
            + self.spec_stride()
        &&& self.spec_y_start() <= self.spec_y() <= self.spec_y_start() + self.spec_height()
            + self.spec_stride()
    }

    /// The coordinate the iterator will yield next, if any row is left.
    pub open spec fn current(&self) -> Option<(isize, isize)> {
        if self.spec_y() < self.spec_y_start() + self.spec_height() {
            Some((self.spec_x() as isize, self.spec_y() as isize))
        } else {
            None
        }
    }

    /// How one yield moves the cursor: on through the row, or to the start of
    /// the next `stride`-th row once the row is exhausted.
    pub open spec fn stepped(prev: ImageIterator, next: ImageIterator) -> bool {
        &&& next.spec_x_start() == prev.spec_x_start()
        &&& next.spec_y_start() == prev.spec_y_start()
        &&& next.spec_width() == prev.spec_width()
        &&& next.spec_height() == prev.spec_height()
        &&& next.spec_stride() == prev.spec_stride()
        &&& if prev.spec_x() + prev.spec_stride() >= prev.spec_x_start() + prev.spec_width() {
            next.spec_x() == prev.spec_x_start() && next.spec_y() == prev.spec_y()
                + prev.spec_stride()
        } else {
            next.spec_x() == prev.spec_x() + prev.spec_stride() && next.spec_y() == prev.spec_y()
        }
    }

    pub fn new(x: isize, y: isize, width: isize, height: isize, stride: isize) -> (r:
        ImageIterator)
        requires
            -COORD_BOUND <= x <= COORD_BOUND,
            -COORD_BOUND <= y <= COORD_BOUND,
            0 <= width <= COORD_BOUND,
            0 <= height <= COORD_BOUND,
            1 <= stride <= COORD_BOUND,
        ensures
            r.wf(),
            r.spec_x() == x && r.spec_y() == y,
            r.spec_x_start() == x && r.spec_y_start() == y,
            r.spec_width() == width && r.spec_height() == height,
            r.spec_stride() == stride,
    {
        ImageIterator { x, y, width, height, x_start: x, y_start: y, stride }
    }

    /// An iterator over the `width`-by-`height` window centered on `(x, y)`.
    pub fn centered(x: isize, y: isize, width: isize, height: isize, stride: isize) -> (r:
        ImageIterator)
        requires
            -COORD_BOUND / 2 <= x <= COORD_BOUND / 2,
            -COORD_BOUND / 2 <= y <= COORD_BOUND / 2,
            0 <= width <= COORD_BOUND / 2,
            0 <= height <= COORD_BOUND / 2,
            1 <= stride <= COORD_BOUND,
        ensures
            r.wf(),
            r.spec_x() == x - width / 2 && r.spec_y() == y - height / 2,
            r.spec_x_start() == x - width / 2 && r.spec_y_start() == y - height / 2,
            r.spec_width() == width && r.spec_height() == height,
            r.spec_stride() == stride,
    {
        let half_w = ((width as usize) / 2) as isize;
        let half_h = ((height as usize) / 2) as isize;
        ImageIterator::new(x - half_w, y - half_h, width, height, stride)
    }

    /// Yields the current coordinate and advances, or reports exhaustion.
    pub fn next(&mut self) -> (r: Option<(isize, isize)>)
        requires
            old(self).wf(),
        ensures
            final(self).wf(),
            r == old(self).current(),
            old(self).current() is Some ==> ImageIterator::stepped(*old(self), *final(self)),
            old(self).current() is None ==> *final(self) == *old(self),
    {
        if self.y >= self.y_start + self.height {
            None
        } else {
            let result = (self.x, self.y);
            self.x = self.x + self.stride;
            if self.x >= self.x_start + self.width {
                self.x = self.x_start;
                self.y = self.y + self.stride;
            }
            Some(result)
        }
    }
}

/// Sum, at one pixel position, over a sequence of images.
pub open spec fn sum_at(imgs: Seq<Image>, p: int) -> int
    decreases imgs.len(),
{
    if imgs.len() == 0 {
        0
    } else {
        sum_at(imgs.drop_last(), p) + imgs.last().cells()[p]
    }
}

/// The pixel-wise mean of a non-empty set of equally sized images: pixel `p`
/// of the result is the mean over the images of their pixel `p`.
pub fn image_mean(images: &Vec<Image>) -> (r: Image)
    requires
        images@.len() > 0,
        forall|i: int| 0 <= i < images@.len() ==> (#[trigger] images@[i]).grid_wf(),
        forall|i: int|
            0 <= i < images@.len() ==> (#[trigger] images@[i]).cells().len()
                == images@[0].cells().len(),
    ensures
        r.grid_wf(),
        r.cells().len() == images@[0].cells().len(),
        forall|p: int|
            0 <= p < r.cells().len() ==> (#[trigger] r.cells()[p]) as int == sum_at(images@, p)
                / images@.len() as int,
{
    let count = images.len();
    let len0 = images[0].len();
    proof {
        images@[0].lemma_wf_side();
        assert(len0 as int <= MAX_SIDE as int * MAX_SIDE as int) by (nonlinear_arith)
            requires
                side_fits(len0 as int, images@[0].spec_side()),
                0 <= images@[0].spec_side() <= MAX_SIDE as int,
                len0 == images@[0].cells().len(),
        ;
    }
    let mut sums: Vec<u128> = Vec::new();
    let mut p: usize = 0;
    while p < len0
        invariant
            0 <= p <= len0,
            sums@.len() == p,
            forall|q: int| 0 <= q < p ==> (#[trigger] sums@[q]) == 0,
        decreases len0 - p,
    {
        sums.push(0);
        p = p + 1;
    }
    let mut i: usize = 0;
    while i < count
        invariant
            count == images@.len(),
            count > 0,
            forall|j: int| 0 <= j < count ==> (#[trigger] images@[j]).grid_wf(),
            forall|j: int|
                0 <= j < count ==> (#[trigger] images@[j]).cells().len() == len0 as int,
            len0 == images@[0].cells().len(),
            sums@.len() == len0,
            0 <= i <= count,
            forall|q: int|
                0 <= q < len0 ==> (#[trigger] sums@[q]) as int == sum_at(
                    images@.take(i as int),
                    q,
                ),
        decreases count - i,
    {
        let img = &images[i];
        let mut q: usize = 0;
        while q < len0
            invariant
                count == images@.len(),
                forall|j: int| 0 <= j < count ==> (#[trigger] images@[j]).grid_wf(),
                forall|j: int|
                    0 <= j < count ==> (#[trigger] images@[j]).cells().len() == len0 as int,
                sums@.len() == len0,
                0 <= i < count,
                img == &images@[i as int],
                img.cells().len() == len0 as int,
                0 <= q <= len0,
                forall|w: int|
                    q <= w < len0 ==> (#[trigger] sums@[w]) as int == sum_at(
                        images@.take(i as int),
                        w,
                    ),
                forall|w: int|
                    0 <= w < q ==> (#[trigger] sums@[w]) as int == sum_at(
                        images@.take(i as int + 1),
                        w,
                    ),
            decreases len0 - q,
        {
            proof {
                assert(images@.take(i as int + 1).drop_last() =~= images@.take(i as int));
                assert(images@.take(i as int + 1).last() == images@[i as int]);
                lemma_sum_at_bound(images@.take(i as int), q as int);
            }
            let v = sums[q] + (img.pixel_at(q) as u128);
            sums.set(q, v);
            q = q + 1;
        }
        i = i + 1;
    }
    proof {
        assert(images@.take(count as int) =~= images@);
    }
    let mut result = Image::new();
    let mut p2: usize = 0;
    while p2 < len0
        invariant
            count == images@.len(),
            count > 0,
            sums@.len() == len0,
            len0 as int <= MAX_SIDE as int * MAX_SIDE as int,
            forall|q: int|
                0 <= q < len0 ==> (#[trigger] sums@[q]) as int == sum_at(images@, q),
            0 <= p2 <= len0,
            result.grid_wf(),
            result.cells().len() == p2,
            forall|q: int|
                0 <= q < p2 ==> (#[trigger] result.cells()[q]) as int == sum_at(images@, q)
                    / count as int,
        decreases len0 - p2,
    {
        proof {
            lemma_sum_at_bound(images@, p2 as int);
            vstd::arithmetic::div_mod::lemma_div_is_ordered(
                sums@[p2 as int] as int,
                count as int * 255,
                count as int,
            );
            vstd::arithmetic::div_mod::lemma_div_multiples_vanish(255, count as int);
            vstd::arithmetic::div_mod::lemma_div_pos_is_pos(sums@[p2 as int] as int, count as int);
        }
        let m = (sums[p2] / (count as u128)) as u8;
        result.add(m);
        p2 = p2 + 1;
    }
    result
}

/// Per-pixel sums depend only on the images' pixels.
pub proof fn lemma_sum_at_congruent(a: Seq<Image>, b: Seq<Image>, p: int)
    requires
        a.len() == b.len(),
        forall|i: int| 0 <= i < a.len() ==> (#[trigger] a[i]).cells() == b[i].cells(),
    ensures
        sum_at(a, p) == sum_at(b, p),
    decreases a.len(),
{
    if a.len() > 0 {
        assert forall|i: int| 0 <= i < a.drop_last().len() implies (#[trigger] a.drop_last()[
        i]).cells() == b.drop_last()[i].cells() by {
            assert(a.drop_last()[i] == a[i] && b.drop_last()[i] == b[i]);
        }
        lemma_sum_at_congruent(a.drop_last(), b.drop_last(), p);
    }
}

/// A per-pixel sum lies between zero and 255 per image.
pub proof fn lemma_sum_at_bound(imgs: Seq<Image>, p: int)
    ensures
        0 <= sum_at(imgs, p) <= imgs.len() * 255,
    decreases imgs.len(),
{
    if imgs.len() > 0 {
        lemma_sum_at_bound(imgs.drop_last(), p);
        assert((imgs.len() - 1) * 255 + 255 == imgs.len() * 255) by (nonlinear_arith);
    }
}

/// Two images with equal cells and side are equally well formed.
pub proof fn lemma_grid_wf_congruence(a: Image, b: Image)
    requires
        a.cells() == b.cells(),
        a.spec_side() == b.spec_side(),
    ensures
        a.grid_wf() == b.grid_wf(),
{
}

/// Keeps one labeled image out of every `shrink`, starting with the first.
pub fn discard(items: &Vec<(u8, Image)>, shrink: usize) -> (r: Vec<(u8, Image)>)
    requires
        shrink >= 1,
    ensures
        r@.len() == (items@.len() + shrink - 1) / shrink as int,
        forall|j: int|
            0 <= j < r@.len() ==> (#[trigger] r@[j]).0 == items@[j * shrink].0 && r@[j].1.cells()
                == items@[j * shrink].1.cells(),
{
    let n = items.len();
    let mut r: Vec<(u8, Image)> = Vec::new();
    let mut i: usize = 0;
    proof {
        vstd::arithmetic::div_mod::lemma_fundamental_div_mod_converse(
            shrink as int - 1,
            shrink as int,
            0,
            shrink as int - 1,
        );
    }
    while i < n
        invariant
            n == items@.len(),
            shrink >= 1,
            0 <= i <= n,
            r@.len() == (i + shrink - 1) / shrink as int,
            forall|j: int| 0 <= j < r@.len() ==> (#[trigger] r@[j]).0 == items@[j * shrink].0,
            forall|j: int|
                0 <= j < r@.len() ==> (#[trigger] r@[j]).1.cells() == items@[j
                    * shrink].1.cells(),
            forall|j: int| 0 <= j < r@.len() ==> #[trigger] (j * shrink) < i,
        decreases n - i,
    {
        let ghost q = i as int / shrink as int;
        let ghost r0 = i as int % shrink as int;
        proof {
            vstd::arithmetic::div_mod::lemma_fundamental_div_mod(i as int, shrink as int);
        }
        if i % shrink == 0 {
            proof {
                assert(i as int + shrink as int - 1 == q * shrink as int + (shrink as int - 1)
                    && i as int + shrink as int == (q + 1) * shrink as int) by (nonlinear_arith)
                    requires
                        i as int == shrink as int * q + r0,
                        r0 == 0,
                ;
                vstd::arithmetic::div_mod::lemma_fundamental_div_mod_converse(
                    i as int + shrink as int - 1,
                    shrink as int,
                    q,
                    shrink as int - 1,
                );
                assert(r@.len() == q);
            }
            let ghost before = r@;
            r.push((items[i].0, items[i].1.duplicate()));
            proof {
                vstd::arithmetic::div_mod::lemma_fundamental_div_mod_converse(
                    i as int + shrink as int,
                    shrink as int,
                    q + 1,
                    0,
                );
                assert forall|j: int| 0 <= j < r@.len() implies (j * shrink as int) < i as int
                    + 1 && (#[trigger] r@[j]).0 == items@[j * shrink].0 && r@[j].1.cells()
                    == items@[j * shrink].1.cells() by {
                    if j < before.len() {
                        assert(r@[j] == before[j]);
                        assert(before[j].0 == items@[j * shrink].0);
                        assert(before[j].1.cells() == items@[j * shrink].1.cells());
                        assert((j * shrink as int) < i as int);
                    } else {
                        assert(j == q);
                        assert(j * shrink as int == i as int) by (nonlinear_arith)
                            requires
                                j == q,
                                i as int == shrink as int * q + r0,
                                r0 == 0,
                        ;
                        assert(r@[j].0 == items@[i as int].0);
                        assert(r@[j].1.cells() == items@[i as int].1.cells());
                    }
                }
            }
        } else {
            proof {
                assert(i as int + shrink as int - 1 == (q + 1) * shrink as int + (r0 - 1) && i
                    as int + shrink as int == (q + 1) * shrink as int + r0) by (nonlinear_arith)
                    requires
                        i as int == shrink as int * q + r0,
                ;
                vstd::arithmetic::div_mod::lemma_fundamental_div_mod_converse(
                    i as int + shrink as int - 1,
                    shrink as int,
                    q + 1,
                    r0 - 1,
                );
                vstd::arithmetic::div_mod::lemma_fundamental_div_mod_converse(
                    i as int + shrink as int,
                    shrink as int,
                    q + 1,
                    r0,
                );
            }
        }
        i = i + 1;
    }
    r
}

} // verus!
