//! BRIEF-style binary descriptors: a list of pixel-position pairs; applying a
//! descriptor to an image emits one bit per pair, set when the first pixel is
//! darker than the second.  The uniform samplers draw their positions here,
//! through the trusted randomness wrappers; the clamping arithmetic of the
//! Gaussian samplers is verified here, taking the drawn samples as arguments.

use vstd::prelude::*;
use crate::mnist_data::{Image, Grid, MAX_SIDE};
use crate::bits::BitArray;
use crate::sampling::random_below;

verus! {

/// A descriptor: pixel-position pairs over a `width`-by-`height` grid.
pub struct Descriptor {
    pairs: Vec<((usize, usize), (usize, usize))>,
    width: usize,
    height: usize,
}

impl Descriptor {
    pub closed spec fn spec_pairs(&self) -> Seq<((usize, usize), (usize, usize))> {
        self.pairs@
    }

    pub closed spec fn spec_width(&self) -> int {
        self.width as int
    }

    pub closed spec fn spec_height(&self) -> int {
        self.height as int
    }

    /// Every stored position lies on the grid.
    pub open spec fn wf(&self) -> bool {
        &&& self.spec_width() <= MAX_SIDE as int
        &&& self.spec_height() <= MAX_SIDE as int
        &&& forall|i: int|
            0 <= i < self.spec_pairs().len() ==> ((#[trigger] self.spec_pairs()[i]).0.0 as int)
                < self.spec_width() && (self.spec_pairs()[i].0.1 as int) < self.spec_height() && (
            self.spec_pairs()[i].1.0 as int) < self.spec_width() && (self.spec_pairs()[i].1.1
                as int) < self.spec_height()
    }

    /// An empty descriptor over the given grid.
    pub fn new_empty(width: usize, height: usize) -> (r: Descriptor)
        requires
            width <= MAX_SIDE,
            height <= MAX_SIDE,
        ensures
            r.wf(),
            r.spec_width() == width,
            r.spec_height() == height,
            r.spec_pairs() =~= Seq::<((usize, usize), (usize, usize))>::empty(),
    {
        Descriptor { pairs: Vec::new(), width, height }
    }

    /// Appends one position pair; both positions must lie on the grid.
    pub fn add_pair(&mut self, x1: usize, y1: usize, x2: usize, y2: usize)
        requires
            old(self).wf(),
            x1 < old(self).spec_width(),
            y1 < old(self).spec_height(),
            x2 < old(self).spec_width(),
            y2 < old(self).spec_height(),
        ensures
            final(self).wf(),
            final(self).spec_width() == old(self).spec_width(),
            final(self).spec_height() == old(self).spec_height(),
            final(self).spec_pairs() == old(self).spec_pairs().push(((x1, y1), (x2, y2))),
    {
        self.pairs.push(((x1, y1), (x2, y2)));
        proof {
            assert forall|i: int|
                0 <= i < self.spec_pairs().len() implies ((#[trigger] self.spec_pairs()[
            i]).0.0 as int) < self.spec_width() && (self.spec_pairs()[i].0.1 as int)
                < self.spec_height() && (self.spec_pairs()[i].1.0 as int) < self.spec_width() && (
            self.spec_pairs()[i].1.1 as int) < self.spec_height() by {
                if i < old(self).spec_pairs().len() {
                    assert(self.spec_pairs()[i] == old(self).spec_pairs()[i]);
                } else {
                    assert(self.spec_pairs()[i] == ((x1, y1), (x2, y2)));
                }
            }
        }
    }

    /// `n` pairs of positions drawn uniformly from the grid.
    pub fn classic_uniform_brief(n: usize, width: usize, height: usize) -> (r: Descriptor)
        requires
            1 <= width <= MAX_SIDE,
            1 <= height <= MAX_SIDE,
        ensures
            r.wf(),
            r.spec_width() == width,
            r.spec_height() == height,
            r.spec_pairs().len() == n,
    {
        let mut result = Descriptor { pairs: Vec::new(), width, height };
        let mut i: usize = 0;
        while i < n
            invariant
                1 <= width <= MAX_SIDE,
                1 <= height <= MAX_SIDE,
                result.wf(),
                result.spec_width() == width,
                result.spec_height() == height,
                0 <= i <= n,
                result.spec_pairs().len() == i,
            decreases n - i,
        {
            let x1 = random_below(width);
            let y1 = random_below(height);
            let x2 = random_below(width);
            let y2 = random_below(height);
            result.add_pair(x1, y1, x2, y2);
            i = i + 1;
        }
        result
    }

    /// For every grid position, `neighbors` pairs whose first position is that
    /// grid position and whose second is drawn uniformly from the grid.
    pub fn uniform_neighbor(neighbors: usize, width: usize, height: usize) -> (r: Descriptor)
        requires
            1 <= width <= MAX_SIDE,
            1 <= height <= MAX_SIDE,
        ensures
            r.wf(),
            r.spec_width() == width,
            r.spec_height() == height,
            r.spec_pairs().len() == width * height * neighbors,
            forall|i: int|
                0 <= i < r.spec_pairs().len() ==> (#[trigger] r.spec_pairs()[i]).0.0 as int == (i
                    / neighbors as int) % width as int && r.spec_pairs()[i].0.1 as int == (i
                    / neighbors as int) / width as int,
    {
        let mut result = Descriptor { pairs: Vec::new(), width, height };
        proof {
            assert(0int * width as int * neighbors as int == 0) by (nonlinear_arith);
        }
        let mut y: usize = 0;
        while y < height
            invariant
                1 <= width <= MAX_SIDE,
                1 <= height <= MAX_SIDE,
                result.wf(),
                result.spec_width() == width,
                result.spec_height() == height,
                0 <= y <= height,
                result.spec_pairs().len() == y as int * width as int * neighbors as int,
                forall|i: int|
                    0 <= i < result.spec_pairs().len() ==> (#[trigger] result.spec_pairs()[
                    i]).0.0 as int == (i / neighbors as int) % width as int
                        && result.spec_pairs()[i].0.1 as int == (i / neighbors as int)
                        / width as int,
            decreases height - y,
        {
            let mut x: usize = 0;
            while x < width
                invariant
                    1 <= width <= MAX_SIDE,
                    1 <= height <= MAX_SIDE,
                    result.wf(),
                    result.spec_width() == width,
                    result.spec_height() == height,
                    0 <= y < height,
                    0 <= x <= width,
                    result.spec_pairs().len() == (y as int * width as int + x as int)
                        * neighbors as int,
                    forall|i: int|
                        0 <= i < result.spec_pairs().len() ==> (#[trigger] result.spec_pairs()[
                        i]).0.0 as int == (i / neighbors as int) % width as int
                            && result.spec_pairs()[i].0.1 as int == (i / neighbors as int)
                            / width as int,
                decreases width - x,
            {
                let mut k: usize = 0;
                while k < neighbors
                    invariant
                        1 <= width <= MAX_SIDE,
                        1 <= height <= MAX_SIDE,
                        result.wf(),
                        result.spec_width() == width,
                        result.spec_height() == height,
                        0 <= y < height,
                        0 <= x < width,
                        0 <= k <= neighbors,
                        result.spec_pairs().len() == (y as int * width as int + x as int)
                            * neighbors as int + k as int,
                        forall|i: int|
                            0 <= i < result.spec_pairs().len() ==> (
                            #[trigger] result.spec_pairs()[i]).0.0 as int == (i
                                / neighbors as int) % width as int && result.spec_pairs()[
                            i].0.1 as int == (i / neighbors as int) / width as int,
                    decreases neighbors - k,
                {
                    let x2 = random_below(width);
                    let y2 = random_below(height);
                    let ghost before = result.spec_pairs();
                    result.add_pair(x, y, x2, y2);
                    proof {
                        let cell = y as int * width as int + x as int;
                        let idx = before.len() as int;
                        vstd::arithmetic::div_mod::lemma_fundamental_div_mod_converse(
                            idx,
                            neighbors as int,
                            cell,
                            k as int,
                        );
                        vstd::arithmetic::div_mod::lemma_fundamental_div_mod_converse(
                            cell,
                            width as int,
                            y as int,
                            x as int,
                        );
                        assert(idx == cell * neighbors as int + k as int);
                    }
                    k = k + 1;
                }
                proof {
                    assert((y as int * width as int + x as int) * neighbors as int
                        + neighbors as int == (y as int * width as int + x as int + 1)
                        * neighbors as int) by (nonlinear_arith);
                }
                x = x + 1;
            }
            proof {
                assert((y as int * width as int + width as int) * neighbors as int == (y as int
                    + 1) * width as int * neighbors as int) by (nonlinear_arith);
            }
            y = y + 1;
        }
        proof {
            assert(height as int * width as int * neighbors as int == width as int
                * height as int * neighbors as int) by (nonlinear_arith);
        }
        result
    }

    /// The pair at a given index.
    pub fn pair_at(&self, i: usize) -> (r: ((usize, usize), (usize, usize)))
        requires
            (i as int) < self.spec_pairs().len(),
        ensures
            r == self.spec_pairs()[i as int],
    {
        self.pairs[i]
    }

    /// How many position pairs the descriptor holds.
    pub fn pair_count(&self) -> (r: usize)
        ensures
            r as nat == self.spec_pairs().len(),
    {
        self.pairs.len()
    }

    pub fn width(&self) -> (r: usize)
        ensures
            r as int == self.spec_width(),
    {
        self.width
    }

    pub fn height(&self) -> (r: usize)
        ensures
            r as int == self.spec_height(),
    {
        self.height
    }

    /// Whether the first pixel is darker than the second.  Both positions
    /// must hold a stored pixel; the image need not fill its square.
    pub fn evaluate(&self, img: &Image, x1: usize, y1: usize, x2: usize, y2: usize) -> (r: bool)
        requires
            img.grid_wf(),
            (x1 as int) < img.spec_side(),
            (y1 as int) < img.spec_side(),
            (x2 as int) < img.spec_side(),
            (y2 as int) < img.spec_side(),
            (y1 as int * img.spec_side() + x1 as int) < img.cells().len(),
            (y2 as int * img.spec_side() + x2 as int) < img.cells().len(),
        ensures
            r == (img.cells()[y1 as int * img.spec_side() + x1 as int] < img.cells()[y2 as int
                * img.spec_side() + x2 as int]),
    {
        img.get(x1, y1) < img.get(x2, y2)
    }

    /// One bit per stored pair: set when the pair's first pixel of `img` is
    /// darker than its second.
    pub fn apply_to(&self, img: &Image) -> (r: BitArray)
        requires
            self.wf(),
            img.grid_wf(),
            img.cells().len() == img.spec_side() * img.spec_side(),
            img.spec_side() == self.spec_width(),
            img.spec_side() == self.spec_height(),
            self.spec_pairs().len() < u64::MAX,
        ensures
            r.wf(),
            r@.len() == self.spec_pairs().len(),
            forall|i: int|
                0 <= i < r@.len() ==> r@[i] == (img.cells()[(#[trigger] self.spec_pairs()[
                i]).0.1 as int * img.spec_side() + self.spec_pairs()[i].0.0 as int] < img.cells()[
                self.spec_pairs()[i].1.1 as int * img.spec_side() + self.spec_pairs()[i].1.0
                    as int]),
    {
        let mut bits = BitArray::new();
        let n = self.pairs.len();
        let mut i: usize = 0;
        while i < n
            invariant
                self.wf(),
                img.grid_wf(),
                img.cells().len() == img.spec_side() * img.spec_side(),
                img.spec_side() == self.spec_width(),
                img.spec_side() == self.spec_height(),
                n == self.spec_pairs().len(),
                n < u64::MAX,
                0 <= i <= n,
                bits.wf(),
                bits@.len() == i,
                forall|j: int|
                    0 <= j < i ==> bits@[j] == (img.cells()[(#[trigger] self.spec_pairs()[
                    j]).0.1 as int * img.spec_side() + self.spec_pairs()[j].0.0 as int]
                        < img.cells()[self.spec_pairs()[j].1.1 as int * img.spec_side()
                        + self.spec_pairs()[j].1.0 as int]),
            decreases n - i,
        {
            let ((x1, y1), (x2, y2)) = self.pairs[i];
            proof {
                let sd = img.spec_side();
                assert((y1 as int * sd + x1 as int) < sd * sd && (y2 as int * sd + x2 as int)
                    < sd * sd) by (nonlinear_arith)
                    requires
                        0 <= x1 as int && (x1 as int) < sd,
                        0 <= y1 as int && (y1 as int) < sd,
                        0 <= x2 as int && (x2 as int) < sd,
                        0 <= y2 as int && (y2 as int) < sd,
                ;
            }
            let b = self.evaluate(img, x1, y1, x2, y2);
            bits.add(b);
            i = i + 1;
        }
        bits
    }
}

/// How many of the first `n` pairs anchor at cell `(x, y)` and read true on
/// the image (the anchor is the pair's first position).
pub open spec fn anchored_true(
    pairs: Seq<((usize, usize), (usize, usize))>,
    cells: Seq<u8>,
    side: int,
    x: int,
    y: int,
    n: int,
) -> int
    decreases n,
{
    if n <= 0 {
        0
    } else {
        anchored_true(pairs, cells, side, x, y, n - 1) + (if pairs[n - 1].0.0 == x && pairs[n
            - 1].0.1 == y && cells[pairs[n - 1].0.1 as int * side + pairs[n - 1].0.0 as int]
            < cells[pairs[n - 1].1.1 as int * side + pairs[n - 1].1.0 as int] {
            1int
        } else {
            0int
        })
    }
}

/// As `anchored_true`, but counting the pairs that read false.
pub open spec fn anchored_false(
    pairs: Seq<((usize, usize), (usize, usize))>,
    cells: Seq<u8>,
    side: int,
    x: int,
    y: int,
    n: int,
) -> int
    decreases n,
{
    if n <= 0 {
        0
    } else {
        anchored_false(pairs, cells, side, x, y, n - 1) + (if pairs[n - 1].0.0 == x && pairs[n
            - 1].0.1 == y && !(cells[pairs[n - 1].0.1 as int * side + pairs[n - 1].0.0 as int]
            < cells[pairs[n - 1].1.1 as int * side + pairs[n - 1].1.0 as int]) {
            1int
        } else {
            0int
        })
    }
}

pub proof fn lemma_anchored_bounds(
    pairs: Seq<((usize, usize), (usize, usize))>,
    cells: Seq<u8>,
    side: int,
    x: int,
    y: int,
    n: int,
)
    requires
        n >= 0,
    ensures
        0 <= anchored_true(pairs, cells, side, x, y, n) <= n,
        0 <= anchored_false(pairs, cells, side, x, y, n) <= n,
    decreases n,
{
    if n > 0 {
        lemma_anchored_bounds(pairs, cells, side, x, y, n - 1);
    }
}

impl Descriptor {
    /// One bit per grid cell: set where, among the pairs anchored at that
    /// cell, strictly more read true on the image than read false.
    pub fn majority_image(&self, img: &Image) -> (r: BitArray)
        requires
            self.wf(),
            img.grid_wf(),
            img.cells().len() == img.spec_side() * img.spec_side(),
            img.spec_side() == self.spec_width(),
            img.spec_side() == self.spec_height(),
        ensures
            r.wf(),
            r@.len() == self.spec_width() * self.spec_height(),
            forall|x: int, y: int|
                0 <= x < self.spec_width() && 0 <= y < self.spec_height() ==> (#[trigger] r@[y
                    * self.spec_width() + x]) == (anchored_true(
                    self.spec_pairs(),
                    img.cells(),
                    img.spec_side(),
                    x,
                    y,
                    self.spec_pairs().len() as int,
                ) > anchored_false(
                    self.spec_pairs(),
                    img.cells(),
                    img.spec_side(),
                    x,
                    y,
                    self.spec_pairs().len() as int,
                )),
    {
        let width = self.width;
        let height = self.height;
        let ghost pairs = self.spec_pairs();
        let ghost cells = img.cells();
        let ghost side = img.spec_side();
        proof {
            assert(width * height <= MAX_SIDE * MAX_SIDE) by (nonlinear_arith)
                requires
                    width <= MAX_SIDE,
                    height <= MAX_SIDE,
            ;
        }
        let cell_count = width * height;
        let mut true_counts: Vec<u64> = Vec::new();
        let mut false_counts: Vec<u64> = Vec::new();
        let mut p: usize = 0;
        while p < cell_count
            invariant
                0 <= p <= cell_count,
                true_counts@.len() == p,
                false_counts@.len() == p,
                forall|q: int| 0 <= q < p ==> (#[trigger] true_counts@[q]) == 0,
                forall|q: int| 0 <= q < p ==> (#[trigger] false_counts@[q]) == 0,
            decreases cell_count - p,
        {
            true_counts.push(0);
            false_counts.push(0);
            p = p + 1;
        }
        proof {
            assert forall|x: int, y: int|
                #![trigger true_counts@[y * width as int + x]]
                0 <= x < width as int && 0 <= y < height as int implies 0 <= y * width as int + x
                && (y * width as int + x) < cell_count as int by {
                assert(0 <= y * width as int + x && (y * width as int + x) < width as int
                    * height as int) by (nonlinear_arith)
                    requires
                        0 <= x && x < width as int,
                        0 <= y && y < height as int,
                ;
            }
        }
        proof {
            assert forall|x: int, y: int|
                #![trigger true_counts@[y * width as int + x]]
                0 <= x < width as int && 0 <= y < height as int implies 0 <= y * width as int + x
                && (y * width as int + x) < cell_count as int by {
                assert(0 <= y * width as int + x && (y * width as int + x) < width as int
                    * height as int) by (nonlinear_arith)
                    requires
                        0 <= x && x < width as int,
                        0 <= y && y < height as int,
                ;
            }
            assert forall|x: int, y: int|
                #![trigger false_counts@[y * width as int + x]]
                0 <= x < width as int && 0 <= y < height as int implies 0 <= y * width as int + x
                && (y * width as int + x) < cell_count as int by {
                assert(0 <= y * width as int + x && (y * width as int + x) < width as int
                    * height as int) by (nonlinear_arith)
                    requires
                        0 <= x && x < width as int,
                        0 <= y && y < height as int,
                ;
            }
        }
        let n = self.pairs.len();
        let mut i: usize = 0;
        while i < n
            invariant
                self.wf(),
                img.grid_wf(),
                img.cells().len() == img.spec_side() * img.spec_side(),
                img.spec_side() == self.spec_width(),
                img.spec_side() == self.spec_height(),
                pairs == self.spec_pairs(),
                cells == img.cells(),
                side == img.spec_side(),
                width as int == self.spec_width(),
                height as int == self.spec_height(),
                cell_count == width * height,
                n == pairs.len(),
                true_counts@.len() == cell_count,
                false_counts@.len() == cell_count,
                0 <= i <= n,
                forall|x: int, y: int|
                    #![trigger true_counts@[y * width as int + x]]
                    0 <= x < width as int && 0 <= y < height as int ==> true_counts@[y
                        * width as int + x] as int == anchored_true(
                        pairs,
                        cells,
                        side,
                        x,
                        y,
                        i as int,
                    ),
                forall|x: int, y: int|
                    #![trigger false_counts@[y * width as int + x]]
                    0 <= x < width as int && 0 <= y < height as int ==> false_counts@[y
                        * width as int + x] as int == anchored_false(
                        pairs,
                        cells,
                        side,
                        x,
                        y,
                        i as int,
                    ),
            decreases n - i,
        {
            let ((x1, y1), (x2, y2)) = self.pairs[i];
            proof {
                let sd = img.spec_side();
                assert((y1 as int * sd + x1 as int) < sd * sd && (y2 as int * sd + x2 as int)
                    < sd * sd) by (nonlinear_arith)
                    requires
                        0 <= x1 as int && (x1 as int) < sd,
                        0 <= y1 as int && (y1 as int) < sd,
                        0 <= x2 as int && (x2 as int) < sd,
                        0 <= y2 as int && (y2 as int) < sd,
                ;
            }
            let bit = self.evaluate(img, x1, y1, x2, y2);
            proof {
                assert((y1 as int * width as int + x1 as int) < width as int * height as int)
                    by (nonlinear_arith)
                    requires
                        0 <= x1 as int && (x1 as int) < width as int,
                        0 <= y1 as int && (y1 as int) < height as int,
                ;
                lemma_anchored_bounds(pairs, cells, side, x1 as int, y1 as int, i as int);
            }
            let cell = y1 * width + x1;
            let ghost old_true = true_counts@;
            let ghost old_false = false_counts@;
            if bit {
                let v = true_counts[cell] + 1;
                true_counts.set(cell, v);
            } else {
                let v = false_counts[cell] + 1;
                false_counts.set(cell, v);
            }
            proof {
                assert forall|x: int, y: int|
                    #![trigger true_counts@[y * width as int + x]]
                    0 <= x < width as int && 0 <= y < height as int implies true_counts@[y
                    * width as int + x] as int == anchored_true(
                    pairs,
                    cells,
                    side,
                    x,
                    y,
                    i as int + 1,
                ) by {
                    assert(0 <= y * width as int + x && (y * width as int + x) < cell_count as int)
                        by (nonlinear_arith)
                        requires
                            0 <= x && x < width as int,
                            0 <= y && y < height as int,
                            cell_count as int == width as int * height as int,
                    ;
                    let q = y * width as int + x;
                    if q != cell as int {
                        assert(true_counts@[q] == old_true[q]);
                        assert(!(pairs[i as int].0.0 == x && pairs[i as int].0.1 == y)) by {
                            if pairs[i as int].0.0 == x && pairs[i as int].0.1 == y {
                                vstd::arithmetic::div_mod::lemma_fundamental_div_mod_converse(
                                    q,
                                    width as int,
                                    y,
                                    x,
                                );
                                vstd::arithmetic::div_mod::lemma_fundamental_div_mod_converse(
                                    cell as int,
                                    width as int,
                                    y1 as int,
                                    x1 as int,
                                );
                            }
                        }
                    } else {
                        vstd::arithmetic::div_mod::lemma_fundamental_div_mod_converse(
                            q,
                            width as int,
                            y,
                            x,
                        );
                        vstd::arithmetic::div_mod::lemma_fundamental_div_mod_converse(
                            cell as int,
                            width as int,
                            y1 as int,
                            x1 as int,
                        );
                        assert(x == x1 as int && y == y1 as int);
                    }
                }
                assert forall|x: int, y: int|
                    #![trigger false_counts@[y * width as int + x]]
                    0 <= x < width as int && 0 <= y < height as int implies false_counts@[y
                    * width as int + x] as int == anchored_false(
                    pairs,
                    cells,
                    side,
                    x,
                    y,
                    i as int + 1,
                ) by {
                    assert(0 <= y * width as int + x && (y * width as int + x) < cell_count as int)
                        by (nonlinear_arith)
                        requires
                            0 <= x && x < width as int,
                            0 <= y && y < height as int,
                            cell_count as int == width as int * height as int,
                    ;
                    let q = y * width as int + x;
                    if q != cell as int {
                        assert(false_counts@[q] == old_false[q]);
                        assert(!(pairs[i as int].0.0 == x && pairs[i as int].0.1 == y)) by {
                            if pairs[i as int].0.0 == x && pairs[i as int].0.1 == y {
                                vstd::arithmetic::div_mod::lemma_fundamental_div_mod_converse(
                                    q,
                                    width as int,
                                    y,
                                    x,
                                );
                                vstd::arithmetic::div_mod::lemma_fundamental_div_mod_converse(
                                    cell as int,
                                    width as int,
                                    y1 as int,
                                    x1 as int,
                                );
                            }
                        }
                    } else {
                        vstd::arithmetic::div_mod::lemma_fundamental_div_mod_converse(
                            q,
                            width as int,
                            y,
                            x,
                        );
                        vstd::arithmetic::div_mod::lemma_fundamental_div_mod_converse(
                            cell as int,
                            width as int,
                            y1 as int,
                            x1 as int,
                        );
                        assert(x == x1 as int && y == y1 as int);
                    }
                }
            }
            i = i + 1;
        }
        let mut bits = BitArray::new();
        let mut c: usize = 0;
        while c < cell_count
            invariant
                pairs == self.spec_pairs(),
                cells == img.cells(),
                side == img.spec_side(),
                width as int == self.spec_width(),
                height as int == self.spec_height(),
                cell_count == width * height,
                cell_count <= MAX_SIDE * MAX_SIDE,
                n == pairs.len(),
                true_counts@.len() == cell_count,
                false_counts@.len() == cell_count,
                forall|x: int, y: int|
                    #![trigger true_counts@[y * width as int + x]]
                    0 <= x < width as int && 0 <= y < height as int ==> true_counts@[y
                        * width as int + x] as int == anchored_true(pairs, cells, side, x, y, n as int),
                forall|x: int, y: int|
                    #![trigger false_counts@[y * width as int + x]]
                    0 <= x < width as int && 0 <= y < height as int ==> false_counts@[y
                        * width as int + x] as int == anchored_false(pairs, cells, side, x, y, n as int),
                0 <= c <= cell_count,
                bits.wf(),
                bits@.len() == c,
                forall|x: int, y: int|
                    #![trigger bits@[y * width as int + x]]
                    0 <= x < width as int && 0 <= y < height as int && y * width as int + x
                        < c as int ==> bits@[y * width as int + x] == (anchored_true(
                        pairs,
                        cells,
                        side,
                        x,
                        y,
                        n as int,
                    ) > anchored_false(pairs, cells, side, x, y, n as int)),
            decreases cell_count - c,
        {
            let bit = true_counts[c] > false_counts[c];
            bits.add(bit);
            proof {
                let x0 = c as int % width as int;
                let y0 = c as int / width as int;
                assert(width as int >= 1) by (nonlinear_arith)
                    requires
                        0 <= c as int && (c as int) < width as int * height as int,
                        width as int >= 0,
                ;
                vstd::arithmetic::div_mod::lemma_fundamental_div_mod(c as int, width as int);
                assert(0 <= x0 && x0 < width as int && 0 <= y0 && y0 < height as int)
                    by (nonlinear_arith)
                    requires
                        width as int >= 1,
                        0 <= c as int && (c as int) < width as int * height as int,
                        c as int == width as int * y0 + x0,
                        0 <= x0 && x0 < width as int,
                ;
                assert(y0 * width as int + x0 == c as int);
            }
            c = c + 1;
        }
        proof {
            assert forall|x: int, y: int|
                0 <= x < self.spec_width() && 0 <= y < self.spec_height() implies (#[trigger] bits@[
            y * self.spec_width() + x]) == (anchored_true(
                self.spec_pairs(),
                img.cells(),
                img.spec_side(),
                x,
                y,
                self.spec_pairs().len() as int,
            ) > anchored_false(
                self.spec_pairs(),
                img.cells(),
                img.spec_side(),
                x,
                y,
                self.spec_pairs().len() as int,
            )) by {
                assert(0 <= y * width as int + x && (y * width as int + x) < cell_count as int)
                    by (nonlinear_arith)
                    requires
                        0 <= x && x < width as int,
                        0 <= y && y < height as int,
                        cell_count as int == width as int * height as int,
                ;
                assert(bits@[y * width as int + x] == (anchored_true(
                    pairs,
                    cells,
                    side,
                    x,
                    y,
                    n as int,
                ) > anchored_false(pairs, cells, side, x, y, n as int)));
            }
        }
        bits
    }
}

/// Clamps a sampled coordinate into `[0, max)`: the clamping the classic
/// Gaussian sampler applies to each normal draw it receives.
pub fn constrained_position(sample: i64, max: usize) -> (r: usize)
    requires
        max >= 1,
    ensures
        r < max,
        r as int == if sample < 0 {
            0int
        } else if sample as int >= max as int {
            max as int - 1
        } else {
            sample as int
        },
{
    if sample < 0 {
        0
    } else if sample as u64 >= max as u64 {
        max - 1
    } else {
        sample as usize
    }
}

/// Turns one magnitude drawn from a distribution, together with a coin flip,
/// into a position near `start_value` that stays within `[min, max)`: the
/// magnitude is added or subtracted where both fit, pushed the only fitting
/// way where one fits, and the coin picks an end of the range where neither
/// fits.
pub fn bounded_normal_offset(sample: u64, start_value: usize, min: usize, max: usize, coin: bool)
    -> (r: usize)
    requires
        min <= start_value < max,
    ensures
        min <= r < max,
{
    let min_diff = (start_value - min) as u64;
    let max_diff = (max - start_value) as u64;
    if sample < min_diff && sample < max_diff {
        if coin {
            start_value + (sample as usize)
        } else {
            start_value - (sample as usize)
        }
    } else if sample < min_diff {
        start_value - (sample as usize)
    } else if sample < max_diff {
        start_value + (sample as usize)
    } else if coin {
        min
    } else {
        max - 1
    }
}

} // verus!
