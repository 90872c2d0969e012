use vstd::prelude::*;

use crate::psa::{
    block_sum, is_rect_grid, lemma_block_sum_nonneg, rect_sum, row_sum, totals_fit, valid_rect,
    PrefixSum2D, QuadError,
};
use crate::rgb::{ch, RGB};
use vstd::arithmetic::div_mod::{lemma_fundamental_div_mod, lemma_mod_pos_bound};

verus! {

/// An image of `n` pixels is small enough that a four-byte-per-pixel raster of it has a
/// length that fits in a `usize`, and that its area-weighted metric (at most three channel
/// variances of `255 * 255` each, times `n`) fits in a `u64`.
pub open spec fn pixels_fit(n: int) -> bool {
    n * 4 <= usize::MAX && n * (3 * 65025) <= u64::MAX
}

/// Cell-wise squares of a colour.
pub open spec fn sq_cell(p: RGB) -> RGB {
    RGB { r: (p.r * p.r) as u64, g: (p.g * p.g) as u64, b: (p.b * p.b) as u64 }
}

/// The grid of cell-wise squares.
pub open spec fn squares(g: Seq<Seq<RGB>>) -> Seq<Seq<RGB>> {
    g.map_values(|row: Seq<RGB>| row.map_values(|p: RGB| sq_cell(p)))
}

/// Every channel of every cell is an 8-bit value.
pub open spec fn channels_8bit(g: Seq<Seq<RGB>>) -> bool {
    forall|i: int, j: int| 0 <= i < g.len() && 0 <= j < g[i].len() ==> {
        &&& (#[trigger] g[i][j]).r <= 255
        &&& g[i][j].g <= 255
        &&& g[i][j].b <= 255
    }
}

/// A grid that region statistics can be built from.
pub open spec fn valid_image(g: Seq<Seq<RGB>>) -> bool {
    &&& is_rect_grid(g)
    &&& channels_8bit(g)
    &&& pixels_fit(g.len() * g[0].len() as int)
}

/// Number of pixels in an inclusive rectangle.
pub open spec fn pixel_count(tl: (usize, usize), br: (usize, usize)) -> int {
    (br.0 - tl.0 + 1) * (br.1 - tl.1 + 1)
}

/// Mean of channel `k` over a rectangle, truncated.
pub open spec fn mean_of(g: Seq<Seq<RGB>>, k: int, tl: (usize, usize), br: (usize, usize)) -> int {
    rect_sum(g, k, tl, br) / pixel_count(tl, br)
}

/// Truncated mean of the squares minus the square of the truncated mean, for channel `k`.
pub open spec fn variance_of(g: Seq<Seq<RGB>>, k: int, tl: (usize, usize), br: (usize, usize)) -> int {
    mean_of(squares(g), k, tl, br) - mean_of(g, k, tl, br) * mean_of(g, k, tl, br)
}

/// The error of a region: total channel variance scaled by the pixel count.
pub open spec fn metric_of(g: Seq<Seq<RGB>>, tl: (usize, usize), br: (usize, usize)) -> int {
    (variance_of(g, 0, tl, br) + variance_of(g, 1, tl, br) + variance_of(g, 2, tl, br)) * pixel_count(
        tl,
        br,
    )
}

/// A row whose cells in `c0..c1` are at most `m` in channel `k` sums to at most `m * (c1 - c0)`.
proof fn lemma_row_sum_bound(row: Seq<RGB>, k: int, c0: int, c1: int, m: int)
    requires
        c0 <= c1,
        forall|c: int| c0 <= c < c1 ==> ch(#[trigger] row[c], k) <= m,
    ensures
        row_sum(row, k, c0, c1) <= m * (c1 - c0),
    decreases c1 - c0,
{
    if c1 > c0 {
        lemma_row_sum_bound(row, k, c0, c1 - 1, m);
        let a = row_sum(row, k, c0, c1 - 1);
        let x = ch(row[c1 - 1], k);
        assert(x <= m);
        assert(row_sum(row, k, c0, c1) == a + x);
        assert(a + x <= m * (c1 - c0)) by (nonlinear_arith) requires a <= m * (c1 - 1 - c0), x <= m;
    } else {
        assert(m * (c1 - c0) == 0) by (nonlinear_arith) requires c1 == c0;
    }
}

/// A block whose cells are at most `m` in channel `k` sums to at most `m` times its area.
proof fn lemma_block_sum_bound(g: Seq<Seq<RGB>>, k: int, r0: int, r1: int, c0: int, c1: int, m: int)
    requires
        r0 <= r1,
        c0 <= c1,
        forall|r: int, c: int| r0 <= r < r1 && c0 <= c < c1 ==> ch(#[trigger] g[r][c], k) <= m,
    ensures
        block_sum(g, k, r0, r1, c0, c1) <= m * ((r1 - r0) * (c1 - c0)),
    decreases r1 - r0,
{
    if r1 > r0 {
        lemma_block_sum_bound(g, k, r0, r1 - 1, c0, c1, m);
        assert forall|c: int| c0 <= c < c1 implies ch(#[trigger] g[r1 - 1][c], k) <= m by {}
        lemma_row_sum_bound(g[r1 - 1], k, c0, c1, m);
        let a = block_sum(g, k, r0, r1 - 1, c0, c1);
        let x = row_sum(g[r1 - 1], k, c0, c1);
        assert(block_sum(g, k, r0, r1, c0, c1) == a + x);
        assert(a + x <= m * ((r1 - r0) * (c1 - c0))) by (nonlinear_arith)
            requires a <= m * ((r1 - 1 - r0) * (c1 - c0)), x <= m * (c1 - c0);
    } else {
        assert(m * ((r1 - r0) * (c1 - c0)) == 0) by (nonlinear_arith) requires r1 == r0;
    }
}

/// A row whose cells in `c0..c1` all hold `v` in channel `k` sums to `v * (c1 - c0)`.
proof fn lemma_row_sum_uniform(row: Seq<RGB>, k: int, c0: int, c1: int, v: int)
    requires
        c0 <= c1,
        forall|c: int| c0 <= c < c1 ==> ch(#[trigger] row[c], k) == v,
    ensures
        row_sum(row, k, c0, c1) == v * (c1 - c0),
    decreases c1 - c0,
{
    if c1 > c0 {
        lemma_row_sum_uniform(row, k, c0, c1 - 1, v);
        let a = row_sum(row, k, c0, c1 - 1);
        let x = ch(row[c1 - 1], k);
        assert(x == v);
        assert(row_sum(row, k, c0, c1) == a + x);
        assert(a + x == v * (c1 - c0)) by (nonlinear_arith) requires a == v * (c1 - 1 - c0), x == v;
    } else {
        assert(v * (c1 - c0) == 0) by (nonlinear_arith) requires c1 == c0;
    }
}

/// A block whose cells all hold `v` in channel `k` sums to `v` times its area.
proof fn lemma_block_sum_uniform(g: Seq<Seq<RGB>>, k: int, r0: int, r1: int, c0: int, c1: int, v: int)
    requires
        r0 <= r1,
        c0 <= c1,
        forall|r: int, c: int| r0 <= r < r1 && c0 <= c < c1 ==> ch(#[trigger] g[r][c], k) == v,
    ensures
        block_sum(g, k, r0, r1, c0, c1) == v * ((r1 - r0) * (c1 - c0)),
    decreases r1 - r0,
{
    if r1 > r0 {
        lemma_block_sum_uniform(g, k, r0, r1 - 1, c0, c1, v);
        assert forall|c: int| c0 <= c < c1 implies ch(#[trigger] g[r1 - 1][c], k) == v by {}
        lemma_row_sum_uniform(g[r1 - 1], k, c0, c1, v);
        let a = block_sum(g, k, r0, r1 - 1, c0, c1);
        let x = row_sum(g[r1 - 1], k, c0, c1);
        assert(block_sum(g, k, r0, r1, c0, c1) == a + x);
        assert(a + x == v * ((r1 - r0) * (c1 - c0))) by (nonlinear_arith)
            requires a == v * ((r1 - 1 - r0) * (c1 - c0)), x == v * (c1 - c0);
    } else {
        assert(v * ((r1 - r0) * (c1 - c0)) == 0) by (nonlinear_arith) requires r1 == r0;
    }
}

/// Sum of `(x - m)^2` over a row is non-negative, written with the row of squares `sq`.
proof fn lemma_row_spread(row: Seq<RGB>, sq: Seq<RGB>, k: int, c0: int, c1: int, m: int)
    requires
        c0 <= c1,
        forall|c: int| c0 <= c < c1 ==> ch(#[trigger] sq[c], k) == ch(row[c], k) * ch(row[c], k),
    ensures
        row_sum(sq, k, c0, c1) - 2 * m * row_sum(row, k, c0, c1) + m * m * (c1 - c0) >= 0,
    decreases c1 - c0,
{
    if c1 > c0 {
        lemma_row_spread(row, sq, k, c0, c1 - 1, m);
        let x = ch(row[c1 - 1], k);
        assert(ch(sq[c1 - 1], k) == x * x);
        let qa = row_sum(sq, k, c0, c1 - 1);
        let sa = row_sum(row, k, c0, c1 - 1);
        assert(row_sum(sq, k, c0, c1) == qa + x * x);
        assert(row_sum(row, k, c0, c1) == sa + x);
        assert((qa + x * x) - 2 * m * (sa + x) + m * m * (c1 - c0) >= 0) by (nonlinear_arith)
            requires qa - 2 * m * sa + m * m * (c1 - 1 - c0) >= 0;
    } else {
        assert(m * m * (c1 - c0) == 0) by (nonlinear_arith) requires c1 == c0;
    }
}

/// Sum of `(x - m)^2` over a block is non-negative, written with the grid of squares.
proof fn lemma_block_spread(g: Seq<Seq<RGB>>, k: int, r0: int, r1: int, c0: int, c1: int, m: int)
    requires
        0 <= r0 <= r1 <= g.len(),
        0 <= c0 <= c1,
        forall|r: int| 0 <= r < g.len() ==> c1 <= (#[trigger] g[r]).len(),
        channels_8bit(g),
    ensures
        block_sum(squares(g), k, r0, r1, c0, c1) - 2 * m * block_sum(g, k, r0, r1, c0, c1) + m * m * ((r1
            - r0) * (c1 - c0)) >= 0,
    decreases r1 - r0,
{
    if r1 > r0 {
        lemma_block_spread(g, k, r0, r1 - 1, c0, c1, m);
        let row = g[r1 - 1];
        let sq = squares(g)[r1 - 1];
        assert forall|c: int| c0 <= c < c1 implies ch(#[trigger] sq[c], k) == ch(row[c], k) * ch(row[c], k) by {
            assert(sq[c] == sq_cell(row[c]));
            assert(row[c] == g[r1 - 1][c]);
            let p = row[c];
            assert(p.r * p.r <= 255 * 255) by (nonlinear_arith) requires p.r <= 255;
            assert(p.g * p.g <= 255 * 255) by (nonlinear_arith) requires p.g <= 255;
            assert(p.b * p.b <= 255 * 255) by (nonlinear_arith) requires p.b <= 255;
        }
        lemma_row_spread(row, sq, k, c0, c1, m);
        let qa = block_sum(squares(g), k, r0, r1 - 1, c0, c1);
        let sa = block_sum(g, k, r0, r1 - 1, c0, c1);
        let qr = row_sum(sq, k, c0, c1);
        let sr = row_sum(row, k, c0, c1);
        assert(block_sum(squares(g), k, r0, r1, c0, c1) == qa + qr);
        assert(block_sum(g, k, r0, r1, c0, c1) == sa + sr);
        assert((qa + qr) - 2 * m * (sa + sr) + m * m * ((r1 - r0) * (c1 - c0)) >= 0) by (nonlinear_arith)
            requires qa - 2 * m * sa + m * m * ((r1 - 1 - r0) * (c1 - c0)) >= 0,
                qr - 2 * m * sr + m * m * (c1 - c0) >= 0;
    } else {
        assert(m * m * ((r1 - r0) * (c1 - c0)) == 0) by (nonlinear_arith) requires r1 == r0;
    }
}

/// For a valid image and rectangle, each channel's truncated mean of the squares is at
/// least the square of its truncated mean, so the channel variance is non-negative; the
/// mean stays within 8 bits and the mean of squares within 16.
pub proof fn lemma_variance_bounds(g: Seq<Seq<RGB>>, k: int, tl: (usize, usize), br: (usize, usize))
    requires
        valid_image(g),
        valid_rect(g.len() as int, g[0].len() as int, tl, br),
    ensures
        0 <= mean_of(g, k, tl, br) <= 255,
        mean_of(g, k, tl, br) * mean_of(g, k, tl, br) <= mean_of(squares(g), k, tl, br) <= 255 * 255,
        0 <= variance_of(g, k, tl, br) <= 255 * 255,
        rect_sum(squares(g), k, tl, br) <= 255 * 255 * pixel_count(tl, br),
{
    let (r0, r1, c0, c1) = (tl.0 as int, br.0 + 1, tl.1 as int, br.1 + 1);
    let n = pixel_count(tl, br);
    assert(n == (r1 - r0) * (c1 - c0));
    assert(n >= 1) by (nonlinear_arith) requires n == (r1 - r0) * (c1 - c0), r1 - r0 >= 1, c1 - c0 >= 1;
    let s = rect_sum(g, k, tl, br);
    let q = rect_sum(squares(g), k, tl, br);
    lemma_block_sum_nonneg(g, k, r0, r1, c0, c1);
    lemma_block_sum_nonneg(squares(g), k, r0, r1, c0, c1);
    assert forall|r: int, c: int| r0 <= r < r1 && c0 <= c < c1 implies ch(#[trigger] g[r][c], k) <= 255 by {
        assert(g[r].len() == g[0].len());
    }
    lemma_block_sum_bound(g, k, r0, r1, c0, c1, 255);
    assert forall|r: int, c: int| r0 <= r < r1 && c0 <= c < c1 implies ch(#[trigger] squares(g)[r][c], k) <= 255 * 255 by {
        assert(g[r].len() == g[0].len());
        let p = g[r][c];
        assert(squares(g)[r][c] == sq_cell(p));
        assert(p.r * p.r <= 255 * 255) by (nonlinear_arith) requires p.r <= 255;
        assert(p.g * p.g <= 255 * 255) by (nonlinear_arith) requires p.g <= 255;
        assert(p.b * p.b <= 255 * 255) by (nonlinear_arith) requires p.b <= 255;
    }
    lemma_block_sum_bound(squares(g), k, r0, r1, c0, c1, 65025);
    let m = s / n;
    assert(forall|r: int| 0 <= r < g.len() ==> c1 <= (#[trigger] g[r]).len());
    lemma_block_spread(g, k, r0, r1, c0, c1, m);
    assert(0 <= m <= 255) by (nonlinear_arith) requires m == s / n, 0 <= s <= 255 * n, n >= 1;
    assert(n * m <= s) by (nonlinear_arith) requires m == s / n, n >= 1;
    assert(n * (m * m) <= q) by (nonlinear_arith)
        requires q - 2 * m * s + m * m * n >= 0, n * m <= s, m >= 0;
    assert(m * m <= q / n) by (nonlinear_arith) requires n * (m * m) <= q, n >= 1;
    assert(q / n <= 255 * 255) by (nonlinear_arith) requires q <= 255 * 255 * n, n >= 1;
}

/// A rectangular grid whose cells are at most `m` in every channel has totals that fit,
/// as long as `m` times its area does.
proof fn lemma_totals_fit(g: Seq<Seq<RGB>>, m: int)
    requires
        is_rect_grid(g),
        m >= 0,
        m * (g.len() * g[0].len()) <= u64::MAX,
        forall|i: int, j: int, k: int| 0 <= i < g.len() && 0 <= j < g[i].len() && 0 <= k < 3 ==> #[trigger] ch(g[i][j], k) <= m,
    ensures
        totals_fit(g),
{
    assert forall|k: int| 0 <= k < 3 implies #[trigger] block_sum(g, k, 0, g.len() as int, 0, g[0].len() as int) <= u64::MAX by {
        assert forall|r: int, c: int| 0 <= r < g.len() && 0 <= c < g[0].len() implies ch(#[trigger] g[r][c], k) <= m by {
            assert(g[r].len() == g[0].len());
        }
        lemma_block_sum_bound(g, k, 0, g.len() as int, 0, g[0].len() as int, m);
    }
}

/// The grid of squares of a valid image is rectangular, and its totals fit.
proof fn lemma_squares_fit(g: Seq<Seq<RGB>>)
    requires
        valid_image(g),
    ensures
        is_rect_grid(squares(g)),
        totals_fit(squares(g)),
        totals_fit(g),
{
    let h = g.len() as int;
    let w = g[0].len() as int;
    let sg = squares(g);
    assert forall|i: int| 0 <= i < sg.len() implies #[trigger] sg[i].len() == sg[0].len() by {
        assert(g[i].len() == g[0].len());
    }
    assert forall|i: int, j: int, k: int| 0 <= i < sg.len() && 0 <= j < sg[i].len() && 0 <= k < 3 implies #[trigger] ch(sg[i][j], k) <= 65025 by {
        let p = g[i][j];
        assert(sg[i][j] == sq_cell(p));
        assert(p.r * p.r <= 255 * 255) by (nonlinear_arith) requires p.r <= 255;
        assert(p.g * p.g <= 255 * 255) by (nonlinear_arith) requires p.g <= 255;
        assert(p.b * p.b <= 255 * 255) by (nonlinear_arith) requires p.b <= 255;
    }
    assert(65025 * (h * w) <= u64::MAX) by (nonlinear_arith) requires (h * w) * (3 * 65025) <= u64::MAX, h * w >= 0;
    assert(255 * (h * w) <= u64::MAX) by (nonlinear_arith) requires (h * w) * (3 * 65025) <= u64::MAX, h * w >= 0;
    lemma_totals_fit(sg, 65025);
    assert forall|i: int, j: int, k: int| 0 <= i < g.len() && 0 <= j < g[i].len() && 0 <= k < 3 implies #[trigger] ch(g[i][j], k) <= 255 by {}
    lemma_totals_fit(g, 255);
}

/// A rectangle inside the image has at most as many pixels as the image.
proof fn lemma_count_le_area(h: int, w: int, tl: (usize, usize), br: (usize, usize))
    requires
        valid_rect(h, w, tl, br),
    ensures
        1 <= pixel_count(tl, br) <= h * w,
{
    let a = br.0 - tl.0 + 1;
    let b = br.1 - tl.1 + 1;
    assert(1 <= a * b <= h * w) by (nonlinear_arith) requires 1 <= a <= h, 1 <= b <= w;
}

/// The error metric of any rectangle of a valid image is non-negative: each channel's
/// truncated mean of squares is at least its truncated mean squared.
pub proof fn lemma_metric_nonneg(g: Seq<Seq<RGB>>, tl: (usize, usize), br: (usize, usize))
    requires
        valid_image(g),
        valid_rect(g.len() as int, g[0].len() as int, tl, br),
    ensures
        metric_of(g, tl, br) >= 0,
{
    lemma_variance_bounds(g, 0, tl, br);
    lemma_variance_bounds(g, 1, tl, br);
    lemma_variance_bounds(g, 2, tl, br);
    lemma_count_le_area(g.len() as int, g[0].len() as int, tl, br);
    let v = variance_of(g, 0, tl, br) + variance_of(g, 1, tl, br) + variance_of(g, 2, tl, br);
    let n = pixel_count(tl, br);
    assert(v * n >= 0) by (nonlinear_arith) requires v >= 0, n >= 1;
}

/// A rectangle in which every pixel has the same colour has error metric zero.
pub proof fn lemma_uniform_metric_zero(g: Seq<Seq<RGB>>, tl: (usize, usize), br: (usize, usize), p: RGB)
    requires
        valid_image(g),
        valid_rect(g.len() as int, g[0].len() as int, tl, br),
        forall|r: int, c: int| tl.0 <= r <= br.0 && tl.1 <= c <= br.1 ==> #[trigger] g[r][c] == p,
    ensures
        metric_of(g, tl, br) == 0,
        forall|k: int| 0 <= k < 3 ==> #[trigger] mean_of(g, k, tl, br) == ch(p, k),
{
    let (r0, r1, c0, c1) = (tl.0 as int, br.0 + 1, tl.1 as int, br.1 + 1);
    let n = pixel_count(tl, br);
    lemma_count_le_area(g.len() as int, g[0].len() as int, tl, br);
    assert(n == (r1 - r0) * (c1 - c0));
    assert forall|k: int| 0 <= k < 3 implies #[trigger] variance_of(g, k, tl, br) == 0 && mean_of(g, k, tl, br) == ch(p, k) by {
        let v = ch(p, k);
        assert forall|r: int, c: int| r0 <= r < r1 && c0 <= c < c1 implies ch(#[trigger] g[r][c], k) == v by {}
        lemma_block_sum_uniform(g, k, r0, r1, c0, c1, v);
        assert forall|r: int, c: int| r0 <= r < r1 && c0 <= c < c1 implies ch(#[trigger] squares(g)[r][c], k) == v * v by {
            assert(g[r].len() == g[0].len());
            assert(g[r][c] == p);
            assert(squares(g)[r][c] == sq_cell(p));
            assert(p.r * p.r <= 255 * 255) by (nonlinear_arith) requires p.r <= 255;
            assert(p.g * p.g <= 255 * 255) by (nonlinear_arith) requires p.g <= 255;
            assert(p.b * p.b <= 255 * 255) by (nonlinear_arith) requires p.b <= 255;
        }
        lemma_block_sum_uniform(squares(g), k, r0, r1, c0, c1, v * v);
        assert((v * n) / n == v) by (nonlinear_arith) requires n >= 1;
        assert((v * v * n) / n == v * v) by (nonlinear_arith) requires n >= 1;
    }
    assert(metric_of(g, tl, br) == 0 * n);
}

/// Region statistics: summed-area tables of the values and of their squares.
pub struct ImageData {
    height: usize,
    width: usize,
    sums: PrefixSum2D,
    square_sums: PrefixSum2D,
}

impl ImageData {
    /// The source grid.
    pub closed spec fn grid(&self) -> Seq<Seq<RGB>> {
        self.sums.source()
    }

    pub closed spec fn wf(&self) -> bool {
        &&& self.sums.wf()
        &&& self.square_sums.wf()
        &&& valid_image(self.sums.source())
        &&& self.square_sums.source() == squares(self.sums.source())
        &&& self.height == self.sums.source().len()
        &&& self.width == self.sums.source()[0].len()
    }

    pub fn new(data: &Vec<Vec<RGB>>) -> (res: Result<Self, QuadError>)
        ensures
            match res {
                Ok(d) => d.wf() && d.grid() == data@.map_values(|row: Vec<RGB>| row@),
                Err(e) => e == QuadError::InvalidInput,
            },
            res.is_ok() <==> valid_image(data@.map_values(|row: Vec<RGB>| row@)),
    {
        let ghost g = data@.map_values(|row: Vec<RGB>| row@);
        let sums = match PrefixSum2D::new(data) {
            Ok(t) => t,
            Err(_) => {
                proof {
                    if valid_image(g) {
                        lemma_squares_fit(g);
                    }
                }
                return Err(QuadError::InvalidInput);
            },
        };
        let height = sums.height();
        let width = sums.width();
        let cap = usize::MAX / 4;
        let ghost q = (cap as int) / (height as int);
        let ghost r = (cap as int) % (height as int);
        proof {
            lemma_fundamental_div_mod(cap as int, height as int);
            lemma_mod_pos_bound(cap as int, height as int);
        }
        if width > cap / height {
            proof {
                let (hh, ww, c) = (height as int, width as int, cap as int);
                assert(hh * ww > c) by (nonlinear_arith)
                    requires ww >= q + 1, c == hh * q + r, r < hh, hh >= 1;
            }
            return Err(QuadError::InvalidInput);
        }
        proof {
            let (hh, ww, c) = (height as int, width as int, cap as int);
            assert(hh * ww <= c) by (nonlinear_arith)
                requires ww <= q, c == hh * q + r, r >= 0, hh >= 1;
        }
        let n = height * width;
        if n as u64 > u64::MAX / (3 * 65025) {
            proof {
                let m = n as int;
                assert(m == (n as u64) as int);
                assert(m * (3 * 65025) > u64::MAX) by (nonlinear_arith)
                    requires m > (u64::MAX as int) / 195075;
            }
            return Err(QuadError::InvalidInput);
        }
        proof {
            let m = n as int;
            assert(m == (n as u64) as int);
            assert(m * 4 <= usize::MAX);
            assert(m * (3 * 65025) <= u64::MAX) by (nonlinear_arith)
                requires m <= (u64::MAX as int) / 195075, m >= 0;
        }
        assert(pixels_fit(height * width));
        let mut squares_vec: Vec<Vec<RGB>> = Vec::new();
        let mut i: usize = 0;
        while i < height
            invariant
                0 <= i <= height,
                g == data@.map_values(|row: Vec<RGB>| row@),
                is_rect_grid(g),
                height == g.len(),
                width == g[0].len(),
                squares_vec@.len() == i,
                forall|a: int, b: int| 0 <= a < i && 0 <= b < width ==> {
                    &&& (#[trigger] g[a][b]).r <= 255
                    &&& g[a][b].g <= 255
                    &&& g[a][b].b <= 255
                },
                forall|a: int| 0 <= a < i ==> #[trigger] squares_vec@[a]@ == g[a].map_values(|p: RGB| sq_cell(p)),
            decreases height - i,
        {
            let mut row: Vec<RGB> = Vec::new();
            let mut j: usize = 0;
            assert(g[i as int] == data@[i as int]@);
            assert(g[i as int].len() == width);
            while j < width
                invariant
                    0 <= i < height,
                    0 <= j <= width,
                    g == data@.map_values(|row: Vec<RGB>| row@),
                    height == g.len(),
                    width == g[i as int].len(),
                    g[i as int] == data@[i as int]@,
                    row@.len() == j,
                    forall|b: int| 0 <= b < j ==> {
                        &&& (#[trigger] g[i as int][b]).r <= 255
                        &&& g[i as int][b].g <= 255
                        &&& g[i as int][b].b <= 255
                    },
                    forall|b: int| 0 <= b < j ==> #[trigger] row@[b] == sq_cell(g[i as int][b]),
                decreases width - j,
            {
                let p = data[i][j];
                if p.r > 255 || p.g > 255 || p.b > 255 {
                    assert(!channels_8bit(g)) by {
                        assert(g[i as int][j as int] == p);
                    }
                    return Err(QuadError::InvalidInput);
                }
                let sq = p.comp_prod(p);
                assert(sq == sq_cell(p)) by {
                    assert(ch(sq, 0) == ch(p, 0) * ch(p, 0));
                    assert(ch(sq, 1) == ch(p, 1) * ch(p, 1));
                    assert(ch(sq, 2) == ch(p, 2) * ch(p, 2));
                }
                row.push(sq);
                j += 1;
            }
            assert(row@ =~= g[i as int].map_values(|p: RGB| sq_cell(p)));
            squares_vec.push(row);
            i += 1;
        }
        proof {
            assert forall|a: int, b: int| 0 <= a < g.len() && 0 <= b < g[a].len() implies {
                &&& (#[trigger] g[a][b]).r <= 255
                &&& g[a][b].g <= 255
                &&& g[a][b].b <= 255
            } by {
                assert(g[a].len() == width);
            }
            assert(valid_image(g));
            lemma_squares_fit(g);
            assert(squares_vec@.map_values(|row: Vec<RGB>| row@) =~= squares(g));
        }
        let square_sums = match PrefixSum2D::new(&squares_vec) {
            Ok(t) => t,
            Err(_) => {
                return Err(QuadError::InvalidInput);
            },
        };
        Ok(ImageData { height, width, sums, square_sums })
    }

    pub fn height(&self) -> (res: usize)
        requires
            self.wf(),
        ensures
            res == self.height_spec(),
    {
        self.height
    }

    pub fn width(&self) -> (res: usize)
        requires
            self.wf(),
        ensures
            res == self.width_spec(),
    {
        self.width
    }

    /// Channel sums over the inclusive rectangle.
    pub fn sum(&self, top_left: (usize, usize), bottom_right: (usize, usize)) -> (res: RGB)
        requires
            self.wf(),
            valid_rect(self.height_spec(), self.width_spec(), top_left, bottom_right),
        ensures
            forall|k: int| 0 <= k < 3 ==> #[trigger] ch(res, k) == rect_sum(self.grid(), k, top_left, bottom_right),
    {
        self.sums.query_sum(top_left, bottom_right)
    }

    /// Truncated channel means over the inclusive rectangle.
    pub fn average(&self, top_left: (usize, usize), bottom_right: (usize, usize)) -> (res: RGB)
        requires
            self.wf(),
            valid_rect(self.height_spec(), self.width_spec(), top_left, bottom_right),
        ensures
            forall|k: int| 0 <= k < 3 ==> #[trigger] ch(res, k) == mean_of(self.grid(), k, top_left, bottom_right),
            res.r <= 255 && res.g <= 255 && res.b <= 255,
    {
        proof {
            lemma_count_le_area(self.height_spec(), self.width_spec(), top_left, bottom_right);
            lemma_variance_bounds(self.grid(), 0, top_left, bottom_right);
            lemma_variance_bounds(self.grid(), 1, top_left, bottom_right);
            lemma_variance_bounds(self.grid(), 2, top_left, bottom_right);
        }
        let n = self.pixels(top_left, bottom_right);
        let s = self.sum(top_left, bottom_right);
        assert(ch(s, 0) == rect_sum(self.grid(), 0, top_left, bottom_right));
        assert(ch(s, 1) == rect_sum(self.grid(), 1, top_left, bottom_right));
        assert(ch(s, 2) == rect_sum(self.grid(), 2, top_left, bottom_right));
        let res = s.div(n);
        assert(ch(res, 0) <= 255 && ch(res, 1) <= 255 && ch(res, 2) <= 255);
        res
    }

    /// Number of pixels in a rectangle of this image, as a `u64`.
    fn pixels(&self, top_left: (usize, usize), bottom_right: (usize, usize)) -> (res: u64)
        requires
            self.wf(),
            valid_rect(self.height_spec(), self.width_spec(), top_left, bottom_right),
        ensures
            res == pixel_count(top_left, bottom_right),
            1 <= res <= self.height_spec() * self.width_spec(),
    {
        proof {
            lemma_count_le_area(self.height_spec(), self.width_spec(), top_left, bottom_right);
        }
        let h = (bottom_right.0 - top_left.0 + 1) as u64;
        let w = (bottom_right.1 - top_left.1 + 1) as u64;
        h * w
    }

    /// Area-weighted total channel variance of the inclusive rectangle.
    pub fn metric(&self, top_left: (usize, usize), bottom_right: (usize, usize)) -> (res: u64)
        requires
            self.wf(),
            valid_rect(self.height_spec(), self.width_spec(), top_left, bottom_right),
        ensures
            res == metric_of(self.grid(), top_left, bottom_right),
    {
        let ghost g = self.grid();
        proof {
            lemma_variance_bounds(g, 0, top_left, bottom_right);
            lemma_variance_bounds(g, 1, top_left, bottom_right);
            lemma_variance_bounds(g, 2, top_left, bottom_right);
        }
        let n = self.pixels(top_left, bottom_right);
        let mean = self.average(top_left, bottom_right);
        let square_sum = self.square_sums.query_sum(top_left, bottom_right);
        let mean_sq = square_sum.div(n);
        let mean_prod = mean.comp_prod(mean);
        proof {
            assert forall|k: int| 0 <= k < 3 implies #[trigger] ch(mean_sq, k) >= ch(mean_prod, k) && ch(mean_sq, k) - ch(mean_prod, k) == variance_of(g, k, top_left, bottom_right) by {
                assert(ch(square_sum, k) == rect_sum(squares(g), k, top_left, bottom_right));
                assert(ch(mean, k) == mean_of(g, k, top_left, bottom_right));
                lemma_variance_bounds(g, k, top_left, bottom_right);
            }
        }
        let variance = mean_sq.sub(mean_prod);
        assert(ch(variance, 0) == variance_of(g, 0, top_left, bottom_right));
        assert(ch(variance, 1) == variance_of(g, 1, top_left, bottom_right));
        assert(ch(variance, 2) == variance_of(g, 2, top_left, bottom_right));
        let total = variance.r + variance.g + variance.b;
        proof {
            self.lemma_wf_dims();
            let a = self.height_spec() * self.width_spec();
            assert(total * n <= u64::MAX) by (nonlinear_arith)
                requires total <= 3 * 65025, n <= a, a * (3 * 65025) <= u64::MAX, total >= 0, n >= 0;
        }
        total * n
    }

    /// A well-formed image holds a valid grid of at least one pixel.
    pub proof fn lemma_wf_dims(&self)
        requires
            self.wf(),
        ensures
            valid_image(self.grid()),
            1 <= self.height_spec(),
            1 <= self.width_spec(),
            pixels_fit(self.height_spec() * self.width_spec()),
            self.height_spec() <= usize::MAX,
            self.width_spec() <= usize::MAX,
    {
    }

    pub open spec fn height_spec(&self) -> int {
        self.grid().len() as int
    }

    pub open spec fn width_spec(&self) -> int {
        self.grid()[0].len() as int
    }
}

} // verus!
