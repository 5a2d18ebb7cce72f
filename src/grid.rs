//! A binary matrix of at most eight rows and eight columns, packed into a
//! single 64-bit occupancy mask in row-major order.
use vstd::prelude::*;

verus! {

/// The largest number of rows, and of columns, that a grid can have.
pub const MAX_SIDE: usize = 8;

/// Why a list of rows does not describe a grid.
#[derive(Debug, Clone, Copy, PartialEq, Eq)]
pub enum GridError {
    /// There are no rows, or the rows have no cells.
    Empty,
    /// The rows do not all have the same width.
    NotSquare,
    /// There are more than eight rows.
    RowsCountGreaterThan8,
    /// There are more than eight columns.
    ColsCountGreaterThan8,
}

/// A rectangular binary matrix: bit `r * cols + c` of `bits` is set exactly
/// when cell `(r, c)` is occupied.
#[derive(Debug, Clone, Copy)]
pub struct Grid {
    pub rows: usize,
    pub cols: usize,
    /// The lowest `cols` bits set: one row's worth of cells.
    pub row_mask: u64,
    pub bits: u64,
}

/// Whether bit `i` of `bits` is set.
pub open spec fn bit_at(bits: u64, i: int) -> bool {
    0 <= i < 64 && (bits >> (i as u64)) & 1 == 1
}

/// The mask with the lowest `n` bits set.
pub open spec fn low_bits(n: usize) -> u64 {
    ((1u64 << (n as u64)) - 1) as u64
}

/// Rows of equal, non-zero width, each at most eight, and at most eight rows.
pub open spec fn is_layout(area: Seq<Seq<char>>) -> bool {
    &&& 1 <= area.len() <= MAX_SIDE
    &&& 1 <= area[0].len() <= MAX_SIDE
    &&& forall|i: int| 0 <= i < area.len() ==> #[trigger] area[i].len() == area[0].len()
}

/// Every character of every row is `'0'` or `'1'`.
pub open spec fn is_binary(area: Seq<Seq<char>>) -> bool {
    forall|i: int, c: int|
        0 <= i < area.len() && 0 <= c < area[i].len() ==> #[trigger] area[i][c] == '0'
            || area[i][c] == '1'
}

/// Whether all rows have the width of the first one.
pub open spec fn same_width(area: Seq<Seq<char>>) -> bool {
    forall|i: int| 0 <= i < area.len() ==> #[trigger] area[i].len() == area[0].len()
}

/// The error that a list of rows gives, checked in this order; `None` for a
/// layout.
pub open spec fn grid_check(area: Seq<Seq<char>>) -> Option<GridError> {
    if area.len() == 0 {
        Some(GridError::Empty)
    } else if !same_width(area) {
        Some(GridError::NotSquare)
    } else if area.len() > MAX_SIDE {
        Some(GridError::RowsCountGreaterThan8)
    } else if area[0].len() > MAX_SIDE {
        Some(GridError::ColsCountGreaterThan8)
    } else if area[0].len() == 0 {
        Some(GridError::Empty)
    } else {
        None
    }
}

/// `g` is the grid that `area` describes, `'1'` marking occupied cells.
pub open spec fn represents(g: Grid, area: Seq<Seq<char>>) -> bool {
    &&& is_layout(area)
    &&& g.wf()
    &&& g.rows == area.len()
    &&& g.cols == area[0].len()
    &&& forall|i: int, c: int|
        0 <= i < g.rows && 0 <= c < g.cols ==> (g.cell(i, c) <==> area[i][c] == '1')
}

/// The character views of a list of strings.
pub open spec fn views(area: Seq<String>) -> Seq<Seq<char>> {
    area.map_values(|s: String| s@)
}

impl Grid {
    /// The grid's internal invariant: dimensions within the cap, the row mask
    /// holding one row, and no bit set beyond the last cell.
    pub open spec fn wf(&self) -> bool {
        &&& 1 <= self.rows <= MAX_SIDE
        &&& 1 <= self.cols <= MAX_SIDE
        &&& self.row_mask == low_bits(self.cols)
        &&& forall|i: int| self.rows * self.cols <= i < 64 ==> !#[trigger] bit_at(self.bits, i)
    }

    /// Whether cell `(r, c)` is occupied.
    pub open spec fn cell(&self, r: int, c: int) -> bool {
        bit_at(self.bits, r * self.cols + c)
    }

    /// The grid read back from its mask, one `'0'`/`'1'` row at a time.
    pub open spec fn decode(&self) -> Seq<Seq<char>> {
        Seq::new(
            self.rows as nat,
            |r: int| Seq::new(self.cols as nat, |c: int| if self.cell(r, c) { '1' } else { '0' }),
        )
    }

    /// Builds a grid from its rows; `'1'` marks an occupied cell and any other
    /// character an empty one.
    pub fn from_rows(area: &Vec<String>) -> (r: Result<Grid, GridError>)
        ensures
            area@.len() == 0 ==> r == Err::<Grid, GridError>(GridError::Empty),
            area@.len() > 0 && !same_width(views(area@)) ==> r == Err::<Grid, GridError>(
                GridError::NotSquare,
            ),
            area@.len() > 0 && same_width(views(area@)) && area@.len() > MAX_SIDE ==> r == Err::<
                Grid,
                GridError,
            >(GridError::RowsCountGreaterThan8),
            area@.len() > 0 && same_width(views(area@)) && area@.len() <= MAX_SIDE
                && area@[0]@.len() > MAX_SIDE ==> r == Err::<Grid, GridError>(
                GridError::ColsCountGreaterThan8,
            ),
            area@.len() > 0 && same_width(views(area@)) && area@.len() <= MAX_SIDE
                && area@[0]@.len() == 0 ==> r == Err::<Grid, GridError>(GridError::Empty),
            is_layout(views(area@)) ==> r is Ok,
            r is Err <==> grid_check(views(area@)) is Some,
            r is Err ==> r->Err_0 == grid_check(views(area@))->Some_0,
            r is Ok ==> represents(r->Ok_0, views(area@)),
            r is Ok ==> {
                let g = r->Ok_0;
                &&& is_layout(views(area@))
                &&& g.wf()
                &&& g.rows == area@.len()
                &&& g.cols == area@[0]@.len()
                &&& forall|i: int, c: int|
                    0 <= i < g.rows && 0 <= c < g.cols ==> (g.cell(i, c) <==> area@[i]@[c] == '1')
                &&& is_binary(views(area@)) ==> g.decode() =~= views(area@)
            },
    {
        let nrows = area.len();
        if nrows == 0 {
            return Err(GridError::Empty);
        }
        let ncols = area[0].as_str().unicode_len();
        let mut i: usize = 1;
        while i < nrows
            invariant
                1 <= i <= nrows,
                nrows == area@.len(),
                ncols == area@[0]@.len(),
                forall|k: int| 0 <= k < i ==> #[trigger] area@[k]@.len() == ncols,
            decreases nrows - i,
        {
            if area[i].as_str().unicode_len() != ncols {
                assert(views(area@)[i as int] == area@[i as int]@);
                return Err(GridError::NotSquare);
            }
            i += 1;
        }
        assert(same_width(views(area@)));
        if nrows > MAX_SIDE {
            return Err(GridError::RowsCountGreaterThan8);
        }
        if ncols > MAX_SIDE {
            return Err(GridError::ColsCountGreaterThan8);
        }
        if ncols == 0 {
            return Err(GridError::Empty);
        }
        let row_mask: u64 = low_mask(ncols);
        let mut bits: u64 = 0;
        assert forall|k: int| 0 <= k < 64 implies !#[trigger] bit_at(bits, k) by {
            lemma_no_bits(k as u64);
        }
        let mut r: usize = 0;
        while r < nrows
            invariant
                1 <= nrows <= MAX_SIDE,
                1 <= ncols <= MAX_SIDE,
                r <= nrows,
                nrows == area@.len(),
                forall|k: int| 0 <= k < nrows ==> #[trigger] area@[k]@.len() == ncols,
                forall|k: int, c: int|
                    0 <= k < r && 0 <= c < ncols ==> (bit_at(bits, k * ncols + c)
                        <==> #[trigger] area@[k]@[c] == '1'),
                forall|k: int| r * ncols <= k < 64 ==> !#[trigger] bit_at(bits, k),
            decreases nrows - r,
        {
            let row = area[r].as_str();
            proof {
                lemma_row_fits(r as int, nrows as int, ncols as int);
            }
            let mut c: usize = 0;
            while c < ncols
                invariant
                    1 <= nrows <= MAX_SIDE,
                    1 <= ncols <= MAX_SIDE,
                    r < nrows,
                    c <= ncols,
                    (r + 1) * ncols <= 64,
                    0 <= r * ncols,
                    r * ncols + ncols <= 64,
                    nrows == area@.len(),
                    row@ == area@[r as int]@,
                    forall|k: int| 0 <= k < nrows ==> #[trigger] area@[k]@.len() == ncols,
                    forall|k: int, c2: int|
                        0 <= k < r && 0 <= c2 < ncols ==> (bit_at(bits, k * ncols + c2)
                            <==> #[trigger] area@[k]@[c2] == '1'),
                    forall|c2: int|
                        0 <= c2 < c ==> (bit_at(bits, r * ncols + c2) <==> #[trigger] row@[c2]
                            == '1'),
                    forall|k: int| r * ncols + c <= k < 64 ==> !#[trigger] bit_at(bits, k),
                decreases ncols - c,
            {
                let idx: usize = r * ncols + c;
                if row.get_char(c) == '1' {
                    let ghost before = bits;
                    bits = bits | (1u64 << idx as u64);
                    assert forall|k: int| 0 <= k < 64 implies bit_at(bits, k) == (k == idx
                        || bit_at(before, k)) by {
                        lemma_set_bit(before, idx as u64, k as u64);
                    }
                    assert forall|k: int, c2: int|
                        0 <= k < r && 0 <= c2 < ncols implies #[trigger] bit_at(bits, k * ncols + c2)
                        == bit_at(before, k * ncols + c2) by {
                        lemma_row_major_before(k, c2, r as int, ncols as int);
                    }
                }
                c += 1;
            }
            assert((r + 1) * ncols == r * ncols + ncols) by (nonlinear_arith);
            r += 1;
        }
        let g = Grid { rows: nrows, cols: ncols, row_mask, bits };
        proof {
            assert(forall|k: int| 0 <= k < nrows ==> #[trigger] views(area@)[k] == area@[k]@);
            if is_binary(views(area@)) {
                assert forall|k: int| 0 <= k < nrows implies #[trigger] g.decode()[k] =~= views(
                    area@,
                )[k] by {
                    assert forall|c: int| 0 <= c < ncols implies #[trigger] g.decode()[k][c]
                        == area@[k]@[c] by {
                        assert(views(area@)[k][c] == area@[k]@[c]);
                    }
                }
            }
        }
        Ok(g)
    }

    /// Whether cell `(r, c)` is occupied.
    pub fn is_set(&self, r: usize, c: usize) -> (b: bool)
        requires
            self.wf(),
            r < self.rows,
            c < self.cols,
        ensures
            b == self.cell(r as int, c as int),
    {
        proof {
            lemma_row_fits(r as int, self.rows as int, self.cols as int);
        }
        let idx: usize = r * self.cols + c;
        (self.bits >> idx as u64) & 1 == 1
    }
}

/// The mask with the lowest `n` bits set.
fn low_mask(n: usize) -> (m: u64)
    requires
        n <= MAX_SIDE,
    ensures
        m == low_bits(n),
{
    let k = n as u64;
    assert(1u64 << k >= 1) by (bit_vector)
        requires
            k <= 8,
    ;
    (1u64 << k) - 1
}

proof fn lemma_set_bit(b: u64, i: u64, k: u64)
    requires
        i < 64,
        k < 64,
    ensures
        ((b | (1u64 << i)) >> k) & 1 == 1 <==> (k == i || (b >> k) & 1 == 1),
{
    assert(((b | (1u64 << i)) >> k) & 1 == 1 <==> (k == i || (b >> k) & 1 == 1)) by (bit_vector)
        requires
            i < 64,
            k < 64,
    ;
}

proof fn lemma_no_bits(k: u64)
    ensures
        (0u64 >> k) & 1 != 1,
{
    assert((0u64 >> k) & 1 != 1) by (bit_vector);
}

proof fn lemma_row_major_before(k: int, c: int, r: int, w: int)
    requires
        0 <= k < r,
        0 <= c < w,
    ensures
        k * w + c < r * w,
{
    assert(k * w + c < r * w) by (nonlinear_arith)
        requires
            0 <= k < r,
            0 <= c < w,
    ;
}

proof fn lemma_row_fits(r: int, h: int, w: int)
    requires
        0 <= r < h <= 8,
        0 <= w <= 8,
    ensures
        (r + 1) * w <= 64,
        r * w + w == (r + 1) * w,
        0 <= r * w,
{
    assert((r + 1) * w <= 64 && 0 <= r * w) by (nonlinear_arith)
        requires
            0 <= r < h <= 8,
            0 <= w <= 8,
    ;
    assert(r * w + w == (r + 1) * w) by (nonlinear_arith);
}

} // verus!
