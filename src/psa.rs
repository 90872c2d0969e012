use vstd::prelude::*;

use crate::rgb::{ch, Zero, RGB};

verus! {

/// Errors reported by the library.
#[derive(Debug, Clone, Copy, PartialEq, Eq, Structural)]
pub enum QuadError {
    /// The source grid is empty, ragged, out of range or too large.
    InvalidInput,
    /// No leaf of the tree can be split any further.
    NoMoreRefinableNodes,
}

/// Sum of channel `k` over the cells `c0..c1` of a row.
pub open spec fn row_sum(row: Seq<RGB>, k: int, c0: int, c1: int) -> int
    decreases c1 - c0,
{
    if c1 <= c0 {
        0
    } else {
        row_sum(row, k, c0, c1 - 1) + ch(row[c1 - 1], k)
    }
}

/// Sum of channel `k` over rows `r0..r1` and columns `c0..c1` (both half-open).
pub open spec fn block_sum(g: Seq<Seq<RGB>>, k: int, r0: int, r1: int, c0: int, c1: int) -> int
    decreases r1 - r0,
{
    if r1 <= r0 {
        0
    } else {
        block_sum(g, k, r0, r1 - 1, c0, c1) + row_sum(g[r1 - 1], k, c0, c1)
    }
}

/// Sum of channel `k` over the inclusive rectangle from `tl` to `br`.
pub open spec fn rect_sum(g: Seq<Seq<RGB>>, k: int, tl: (usize, usize), br: (usize, usize)) -> int {
    block_sum(g, k, tl.0 as int, br.0 + 1, tl.1 as int, br.1 + 1)
}

/// The grid has at least one row, and every row has the same, non-zero width.
pub open spec fn is_rect_grid(g: Seq<Seq<RGB>>) -> bool {
    g.len() > 0 && g[0].len() > 0 && forall|i: int| 0 <= i < g.len() ==> #[trigger] g[i].len() == g[0].len()
}

/// Every channel total of the grid fits in a `u64`.
pub open spec fn totals_fit(g: Seq<Seq<RGB>>) -> bool {
    forall|k: int| 0 <= k < 3 ==> #[trigger] block_sum(g, k, 0, g.len() as int, 0, g[0].len() as int) <= u64::MAX
}

/// The inclusive rectangle lies inside an `h` by `w` grid.
pub open spec fn valid_rect(h: int, w: int, tl: (usize, usize), br: (usize, usize)) -> bool {
    tl.0 <= br.0 < h && tl.1 <= br.1 < w
}

pub proof fn lemma_row_sum_nonneg(row: Seq<RGB>, k: int, c0: int, c1: int)
    ensures
        row_sum(row, k, c0, c1) >= 0,
    decreases c1 - c0,
{
    if c1 > c0 {
        lemma_row_sum_nonneg(row, k, c0, c1 - 1);
    }
}

pub proof fn lemma_row_sum_split(row: Seq<RGB>, k: int, c0: int, cm: int, c1: int)
    requires
        c0 <= cm <= c1,
    ensures
        row_sum(row, k, c0, c1) == row_sum(row, k, c0, cm) + row_sum(row, k, cm, c1),
    decreases c1 - cm,
{
    if c1 > cm {
        lemma_row_sum_split(row, k, c0, cm, c1 - 1);
    }
}

pub proof fn lemma_block_sum_nonneg(g: Seq<Seq<RGB>>, k: int, r0: int, r1: int, c0: int, c1: int)
    ensures
        block_sum(g, k, r0, r1, c0, c1) >= 0,
    decreases r1 - r0,
{
    if r1 > r0 {
        lemma_block_sum_nonneg(g, k, r0, r1 - 1, c0, c1);
        lemma_row_sum_nonneg(g[r1 - 1], k, c0, c1);
    }
}

pub proof fn lemma_block_split_rows(g: Seq<Seq<RGB>>, k: int, r0: int, rm: int, r1: int, c0: int, c1: int)
    requires
        r0 <= rm <= r1,
    ensures
        block_sum(g, k, r0, r1, c0, c1) == block_sum(g, k, r0, rm, c0, c1) + block_sum(g, k, rm, r1, c0, c1),
    decreases r1 - rm,
{
    if r1 > rm {
        lemma_block_split_rows(g, k, r0, rm, r1 - 1, c0, c1);
    }
}

pub proof fn lemma_block_split_cols(g: Seq<Seq<RGB>>, k: int, r0: int, r1: int, c0: int, cm: int, c1: int)
    requires
        c0 <= cm <= c1,
    ensures
        block_sum(g, k, r0, r1, c0, c1) == block_sum(g, k, r0, r1, c0, cm) + block_sum(g, k, r0, r1, cm, c1),
    decreases r1 - r0,
{
    if r1 > r0 {
        lemma_block_split_cols(g, k, r0, r1 - 1, c0, cm, c1);
        lemma_row_sum_split(g[r1 - 1], k, c0, cm, c1);
    }
}

proof fn lemma_block_no_cols(g: Seq<Seq<RGB>>, k: int, r0: int, r1: int, c: int)
    ensures
        block_sum(g, k, r0, r1, c, c) == 0,
    decreases r1 - r0,
{
    if r1 > r0 {
        lemma_block_no_cols(g, k, r0, r1 - 1, c);
    }
}

/// A prefix sum over a sub-range of the grid is at most the grid's total.
pub proof fn lemma_prefix_le_total(g: Seq<Seq<RGB>>, k: int, i: int, j: int, h: int, w: int)
    requires
        0 <= i <= h,
        0 <= j <= w,
    ensures
        block_sum(g, k, 0, i, 0, j) <= block_sum(g, k, 0, h, 0, w),
{
    lemma_block_split_rows(g, k, 0, i, h, 0, w);
    lemma_block_sum_nonneg(g, k, i, h, 0, w);
    lemma_block_split_cols(g, k, 0, i, 0, j, w);
    lemma_block_sum_nonneg(g, k, 0, i, j, w);
}

/// Summed-area table over a grid of colours.
pub struct PrefixSum2D {
    height: usize,
    width: usize,
    data: Vec<Vec<RGB>>,
    grid: Ghost<Seq<Seq<RGB>>>,
}

impl PrefixSum2D {
    /// The grid the table was built from.
    pub closed spec fn source(&self) -> Seq<Seq<RGB>> {
        self.grid@
    }

    pub closed spec fn wf(&self) -> bool {
        &&& is_rect_grid(self.grid@)
        &&& totals_fit(self.grid@)
        &&& self.height == self.grid@.len()
        &&& self.width == self.grid@[0].len()
        &&& self.data@.len() == self.height + 1
        &&& forall|i: int| 0 <= i <= self.height ==> #[trigger] self.data@[i]@.len() == self.width + 1
        &&& forall|i: int, j: int, k: int|
            0 <= i <= self.height && 0 <= j <= self.width && 0 <= k < 3 ==> #[trigger] ch(
                self.data@[i]@[j],
                k,
            ) == block_sum(self.grid@, k, 0, i, 0, j)
    }

    pub fn new(arr: &Vec<Vec<RGB>>) -> (res: Result<Self, QuadError>)
        ensures
            match res {
                Ok(t) => t.wf() && t.source() == arr@.map_values(|row: Vec<RGB>| row@),
                Err(e) => e == QuadError::InvalidInput,
            },
            res.is_ok() <==> (is_rect_grid(arr@.map_values(|row: Vec<RGB>| row@)) && totals_fit(
                arr@.map_values(|row: Vec<RGB>| row@),
            )),
    {
        let ghost g = arr@.map_values(|row: Vec<RGB>| row@);
        let height = arr.len();
        if height == 0 {
            return Err(QuadError::InvalidInput);
        }
        let width = arr[0].len();
        if width == 0 {
            return Err(QuadError::InvalidInput);
        }
        let mut r: usize = 0;
        while r < height
            invariant
                0 <= r <= height,
                height == arr@.len(),
                height > 0,
                width == arr@[0]@.len(),
                g == arr@.map_values(|row: Vec<RGB>| row@),
                forall|i: int| 0 <= i < r ==> #[trigger] arr@[i]@.len() == width,
            decreases height - r,
        {
            if arr[r].len() != width {
                assert(g[r as int].len() != g[0].len());
                return Err(QuadError::InvalidInput);
            }
            r += 1;
        }
        assert(is_rect_grid(g));
        let mut data: Vec<Vec<RGB>> = Vec::new();
        let mut first: Vec<RGB> = Vec::new();
        first.push(RGB::zero());
        let mut j: usize = 0;
        while j < width
            invariant
                0 <= j <= width,
                first@.len() == j + 1,
                forall|c: int| 0 <= c <= j ==> #[trigger] first@[c] == (RGB { r: 0, g: 0, b: 0 }),
            decreases width - j,
        {
            first.push(RGB::zero());
            j += 1;
        }
        data.push(first);
        assert forall|jj: int, k: int| 0 <= jj <= width && 0 <= k < 3 implies #[trigger] ch(
            data@[0]@[jj],
            k,
        ) == block_sum(g, k, 0, 0, 0, jj) by {
            assert(data@[0]@[jj] == (RGB { r: 0, g: 0, b: 0 }));
        }
        let mut i: usize = 0;
        while i < height
            invariant
                0 <= i <= height,
                height == g.len(),
                width == g[0].len(),
                g == arr@.map_values(|row: Vec<RGB>| row@),
                is_rect_grid(g),
                data@.len() == i + 1,
                forall|a: int| 0 <= a <= i ==> #[trigger] data@[a]@.len() == width + 1,
                forall|a: int, b: int, k: int|
                    0 <= a <= i && 0 <= b <= width && 0 <= k < 3 ==> #[trigger] ch(data@[a]@[b], k)
                        == block_sum(g, k, 0, a, 0, b),
            decreases height - i,
        {
            let mut row: Vec<RGB> = Vec::new();
            row.push(RGB::zero());
            let mut acc = RGB::zero();
            proof {
                assert forall|k: int| 0 <= k < 3 implies #[trigger] block_sum(g, k, 0, i + 1, 0, 0) == 0 by {
                    lemma_block_no_cols(g, k, 0, i + 1, 0);
                }
            }
            let mut j: usize = 0;
            while j < width
                invariant
                    0 <= i < height,
                    0 <= j <= width,
                    height == g.len(),
                    width == g[0].len(),
                    g == arr@.map_values(|row: Vec<RGB>| row@),
                    is_rect_grid(g),
                    data@.len() == i + 1,
                    forall|a: int| 0 <= a <= i ==> #[trigger] data@[a]@.len() == width + 1,
                    forall|a: int, b: int, k: int|
                        0 <= a <= i && 0 <= b <= width && 0 <= k < 3 ==> #[trigger] ch(
                            data@[a]@[b],
                            k,
                        ) == block_sum(g, k, 0, a, 0, b),
                    row@.len() == j + 1,
                    forall|k: int| 0 <= k < 3 ==> #[trigger] ch(acc, k) == row_sum(g[i as int], k, 0, j as int),
                    forall|b: int, k: int|
                        0 <= b <= j && 0 <= k < 3 ==> #[trigger] ch(row@[b], k) == block_sum(
                            g,
                            k,
                            0,
                            i + 1,
                            0,
                            b,
                        ),
                decreases width - j,
            {
                assert(g[i as int] == arr@[i as int]@);
                let cell = arr[i][j];
                let next = match acc.checked_add(cell) {
                    Some(n) => n,
                    None => {
                        proof {
                            let k = choose|k: int| 0 <= k < 3 && ch(acc, k) + ch(cell, k) > u64::MAX;
                            lemma_overflow_exceeds_total(g, k, i as int, j as int + 1);
                        }
                        return Err(QuadError::InvalidInput);
                    },
                };
                let above = data[i][j + 1];
                let val = match above.checked_add(next) {
                    Some(v) => v,
                    None => {
                        proof {
                            let k = choose|k: int| 0 <= k < 3 && ch(above, k) + ch(next, k) > u64::MAX;
                            lemma_overflow_exceeds_total(g, k, i as int, j as int + 1);
                        }
                        return Err(QuadError::InvalidInput);
                    },
                };
                proof {
                    assert forall|k: int| 0 <= k < 3 implies #[trigger] ch(val, k) == block_sum(g, k, 0, i + 1, 0, j + 1) by {
                        assert(ch(above, k) == block_sum(g, k, 0, i as int, 0, j + 1));
                    }
                }
                row.push(val);
                acc = next;
                j += 1;
            }
            data.push(row);
            i += 1;
        }
        proof {
            assert forall|k: int| 0 <= k < 3 implies #[trigger] block_sum(g, k, 0, g.len() as int, 0, g[0].len() as int) <= u64::MAX by {
                assert(ch(data@[height as int]@[width as int], k) == block_sum(g, k, 0, height as int, 0, width as int));
            }
        }
        Ok(PrefixSum2D { height, width, data, grid: Ghost(g) })
    }

    pub fn height(&self) -> (res: usize)
        requires
            self.wf(),
        ensures
            res == self.source().len(),
    {
        self.height
    }

    pub fn width(&self) -> (res: usize)
        requires
            self.wf(),
        ensures
            res == self.source()[0].len(),
    {
        self.width
    }

    /// Sum of the values from `top_left` to `bottom_right`, both inclusive.
    pub fn query_sum(&self, top_left: (usize, usize), bottom_right: (usize, usize)) -> (res: RGB)
        requires
            self.wf(),
            valid_rect(self.source().len() as int, self.source()[0].len() as int, top_left, bottom_right),
        ensures
            forall|k: int| 0 <= k < 3 ==> #[trigger] ch(res, k) == rect_sum(self.source(), k, top_left, bottom_right),
    {
        let ghost g = self.grid@;
        let a = self.data[bottom_right.0 + 1][bottom_right.1 + 1];
        let b = self.data[top_left.0][top_left.1];
        let c = self.data[bottom_right.0 + 1][top_left.1];
        let d = self.data[top_left.0][bottom_right.1 + 1];
        let ghost (r0, r1, c0, c1) = (top_left.0 as int, bottom_right.0 + 1, top_left.1 as int, bottom_right.1 + 1);
        proof {
            assert forall|k: int| 0 <= k < 3 implies #[trigger] ch(a, k) >= ch(c, k) && ch(d, k) >= ch(b, k)
                && ch(a, k) - ch(c, k) >= ch(d, k) - ch(b, k)
                && (ch(a, k) - ch(c, k)) - (ch(d, k) - ch(b, k)) == block_sum(g, k, r0, r1, c0, c1) by {
                assert(ch(self.data@[r1]@[c1], k) == block_sum(g, k, 0, r1, 0, c1));
                assert(ch(self.data@[r0]@[c0], k) == block_sum(g, k, 0, r0, 0, c0));
                assert(ch(self.data@[r1]@[c0], k) == block_sum(g, k, 0, r1, 0, c0));
                assert(ch(self.data@[r0]@[c1], k) == block_sum(g, k, 0, r0, 0, c1));
                lemma_block_split_cols(g, k, 0, r1, 0, c0, c1);
                lemma_block_split_cols(g, k, 0, r0, 0, c0, c1);
                lemma_block_split_rows(g, k, 0, r0, r1, c0, c1);
                lemma_block_sum_nonneg(g, k, 0, r1, c0, c1);
                lemma_block_sum_nonneg(g, k, 0, r0, c0, c1);
                lemma_block_sum_nonneg(g, k, r0, r1, c0, c1);
            }
        }
        let upper = a.sub(c);
        assert forall|k: int| 0 <= k < 3 implies #[trigger] ch(d, k) >= ch(b, k) && ch(upper, k) >= ch(d, k) - ch(b, k) by {
            assert(ch(a, k) >= ch(c, k));
        }
        let lower = d.sub(b);
        upper.sub(lower)
    }
}

/// A value above `u64::MAX` that is at most a prefix sum of rows `0..=i` means that
/// the grid's total for that channel does not fit.
proof fn lemma_overflow_exceeds_total(g: Seq<Seq<RGB>>, k: int, i: int, j: int)
    requires
        is_rect_grid(g),
        0 <= i < g.len(),
        0 <= j <= g[0].len(),
    ensures
        block_sum(g, k, 0, i + 1, 0, j) <= block_sum(g, k, 0, g.len() as int, 0, g[0].len() as int),
        row_sum(g[i], k, 0, j) <= block_sum(g, k, 0, g.len() as int, 0, g[0].len() as int),
        block_sum(g, k, 0, i, 0, j) <= block_sum(g, k, 0, g.len() as int, 0, g[0].len() as int),
{
    lemma_prefix_le_total(g, k, i + 1, j, g.len() as int, g[0].len() as int);
    lemma_prefix_le_total(g, k, i, j, g.len() as int, g[0].len() as int);
    lemma_block_sum_nonneg(g, k, 0, i, 0, j);
}

} // verus!
