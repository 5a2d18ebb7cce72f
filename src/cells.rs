//! Occupied cells: which field cells placing a tile clears, and counting
//! them, so that tiles with fewer cells than the field never cover it.
use vstd::prelude::*;
use crate::grid::{bit_at, low_bits, Grid, MAX_SIDE};
use crate::solver::{
    clear_rows, fits, installed, is_solution, lands_free, lemma_key_order, remaining, row_cover,
    tile_row, Tile,
};

verus! {

/// Tile `t` with its top-left corner at `(row, col)` of a field `cols` wide
/// covers the field cell whose bit index is `b`.
pub open spec fn covers(t: Grid, row: int, col: int, cols: int, b: int) -> bool {
    exists|i: int, c: int|
        0 <= i < t.rows && 0 <= c < t.cols && #[trigger] t.cell(i, c) && b == (row + i) * cols
            + col + c
}

/// Installing a tile that lies within the field's width clears exactly the
/// cells that the tile covers, and keeps every other bit.
pub proof fn lemma_install_cells(t: Grid, row: int, col: int, x: u64, cols: int)
    requires
        t.wf(),
        0 <= row,
        0 <= col,
        row + t.rows <= MAX_SIDE,
        col + t.cols <= cols <= MAX_SIDE,
    ensures
        forall|b: int|
            0 <= b < 64 ==> (#[trigger] bit_at(installed(t, row, col, x, cols), b) <==> bit_at(x, b)
                && !covers(t, row, col, cols, b)),
{
    lemma_clear_rows_cells(t, row, col, x, cols, t.rows as int);
    assert forall|b: int| 0 <= b < 64 implies (#[trigger] bit_at(
        installed(t, row, col, x, cols),
        b,
    ) <==> bit_at(x, b) && !covers(t, row, col, cols, b)) by {
        if covers(t, row, col, cols, b) {
            let (i, c) = choose|i: int, c: int|
                0 <= i < t.rows && 0 <= c < t.cols && #[trigger] t.cell(i, c) && b == (row + i)
                    * cols + col + c;
            assert(row_covers(t, row, col, cols, i, b));
        }
    }
}

/// Row `i` of the tile covers bit `b`.
pub open spec fn row_covers(t: Grid, row: int, col: int, cols: int, i: int, b: int) -> bool {
    exists|c: int| 0 <= c < t.cols && #[trigger] t.cell(i, c) && b == (row + i) * cols + col + c
}

proof fn lemma_clear_rows_cells(t: Grid, row: int, col: int, x: u64, cols: int, n: int)
    requires
        t.wf(),
        0 <= row,
        0 <= col,
        row + t.rows <= MAX_SIDE,
        col + t.cols <= cols <= MAX_SIDE,
        0 <= n <= t.rows,
    ensures
        forall|b: int|
            0 <= b < 64 ==> (#[trigger] bit_at(clear_rows(t, row, col, x, cols, n), b) <==> bit_at(
                x,
                b,
            ) && !exists|i: int| 0 <= i < n && #[trigger] row_covers(t, row, col, cols, i, b)),
    decreases n,
{
    if n > 0 {
        let j = n - 1;
        lemma_clear_rows_cells(t, row, col, x, cols, j);
        let prev = clear_rows(t, row, col, x, cols, j);
        let cover = row_cover(t, j, row, col, cols);
        assert(clear_rows(t, row, col, x, cols, n) == prev & !cover);
        assert forall|b: int| 0 <= b < 64 implies (#[trigger] bit_at(prev & !cover, b) <==> bit_at(
            prev,
            b,
        ) && !row_covers(t, row, col, cols, j, b)) by {
            let k = b as u64;
            assert(((prev & !cover) >> k) & 1 == 1 <==> ((prev >> k) & 1 == 1 && (cover >> k) & 1
                != 1)) by (bit_vector);
            lemma_row_cover_bit(t, j, row, col, cols, b);
            let s = (row + j) * cols + col;
            if bit_at(cover, b) {
                assert(t.cell(j, b - s));
            }
        }
    }
}

/// Bit `b` of row `j` of the tile, placed at `(row, col)`, is set exactly
/// when some cell of that row lands on `b`.
pub proof fn lemma_row_cover_bit(t: Grid, j: int, row: int, col: int, cols: int, b: int)
    requires
        t.wf(),
        0 <= j < t.rows,
        0 <= row,
        0 <= col,
        row + t.rows <= MAX_SIDE,
        col + t.cols <= cols <= MAX_SIDE,
        0 <= b < 64,
    ensures
        bit_at(row_cover(t, j, row, col, cols), b) <==> row_covers(t, row, col, cols, j, b),
{
    assert(0 <= (row + j) * cols <= 56 && t.cols * j == j * t.cols) by (nonlinear_arith)
        requires
            0 <= row,
            0 <= j,
            row + j < 8,
            0 <= cols <= 8,
    ;
    let y = tile_row(t, j);
    let s = ((row + j) * cols) as u64;
    let c0 = col as u64;
    let k = b as u64;
    assert((((y << c0) << s) >> k) & 1 == 1 <==> (k >= c0 + s && (y >> ((k - c0 - s) as u64)) & 1
        == 1)) by (bit_vector)
        requires
            c0 < 64,
            s < 64,
            k < 64,
    ;
    let base = (row + j) * cols + col;
    if b >= base {
        lemma_tile_row_bit(t, j, b - base);
        if b - base < t.cols {
            assert(t.cell(j, b - base) == bit_at(t.bits, j * t.cols + (b - base)));
        }
    }
    if row_covers(t, row, col, cols, j, b) {
        let c = choose|c: int| 0 <= c < t.cols && #[trigger] t.cell(j, c) && b == (row + j) * cols
            + col + c;
        assert(c == b - base);
    }
}

/// Bit `k` of row `j` of a grid, moved down, is cell `(j, k)`.
proof fn lemma_tile_row_bit(t: Grid, j: int, k: int)
    requires
        t.wf(),
        0 <= j < t.rows,
        0 <= k < 64,
    ensures
        bit_at(tile_row(t, j), k) <==> (k < t.cols && bit_at(t.bits, j * t.cols + k)),
{
    lemma_tile_row_high(t, j);
    if k < t.cols {
        assert(0 <= t.cols * j && t.cols * j + t.cols <= 64 && t.cols * j == j * t.cols)
            by (nonlinear_arith)
            requires
                0 <= j < t.rows <= 8,
                1 <= t.cols <= 8,
        ;
        let b = t.bits;
        let off = (t.cols * j) as u64;
        let tc = t.cols as u64;
        let i = k as u64;
        let mask = t.row_mask;
        assert(mask == ((1u64 << tc) - 1) as u64);
        assert((((b & (mask << off)) >> off) >> i) & 1 == 1 <==> (b >> ((off + i) as u64)) & 1 == 1)
            by (bit_vector)
            requires
                mask == ((1u64 << tc) - 1) as u64,
                1 <= tc <= 8,
                off + tc <= 64,
                i < tc,
        ;
    }
}

/// Every cell that tile `t` covers at `(row, col)` is set in `x`: the tile
/// lands on occupied, still uncovered field cells only.
pub open spec fn placeable(t: Grid, row: int, col: int, x: u64, cols: int) -> bool {
    forall|b: int| 0 <= b < 64 && #[trigger] covers(t, row, col, cols, b) ==> bit_at(x, b)
}

/// A mask with no bit set is zero.
pub proof fn lemma_no_bit_zero(x: u64)
    requires
        forall|b: int| 0 <= b < 64 ==> !#[trigger] bit_at(x, b),
    ensures
        x == 0,
{
    lemma_low_zero(x, 63);
    assert(!bit_at(x, 63));
    assert(x == (x >> 63u64) << 63u64 && (x >> 63u64) & 1 != 1 ==> x == 0) by (bit_vector);
}

proof fn lemma_low_zero(x: u64, n: u64)
    requires
        n <= 63,
        forall|b: int| 0 <= b < 64 ==> !#[trigger] bit_at(x, b),
    ensures
        x == (x >> n) << n,
    decreases n,
{
    if n == 0 {
        assert(x == (x >> 0u64) << 0u64) by (bit_vector);
    } else {
        let m = (n - 1) as u64;
        lemma_low_zero(x, m);
        assert(!bit_at(x, m as int));
        assert(x == (x >> m) << m && (x >> m) & 1 != 1 && m < 63 ==> x == (x >> ((m + 1) as u64))
            << ((m + 1) as u64)) by (bit_vector);
    }
}

/// The number of set bits of `b` below position `n`.
pub open spec fn ones(b: u64, n: int) -> int
    decreases n,
{
    if n <= 0 {
        0
    } else {
        ones(b, n - 1) + if bit_at(b, n - 1) {
            1int
        } else {
            0int
        }
    }
}

/// The number of occupied cells of a mask.
pub open spec fn cell_count(b: u64) -> int {
    ones(b, 64)
}

/// The number of occupied cells of the first `k` tiles together.
pub open spec fn tile_cells(tiles: Seq<Tile>, k: int) -> int
    decreases k,
{
    if k <= 0 {
        0
    } else {
        tile_cells(tiles, k - 1) + cell_count(tiles[k - 1].area.bits)
    }
}

/// In an exact cover the tiles have, all together, exactly as many occupied
/// cells as the field; so tiles with any other total never cover it.
pub proof fn lemma_cell_counts_match(field: Grid, tiles: Seq<Tile>, c: Seq<(usize, usize)>)
    requires
        field.wf(),
        forall|k: int| 0 <= k < tiles.len() ==> #[trigger] tiles[k].wf(),
        is_solution(field, tiles, c),
    ensures
        tile_cells(tiles, tiles.len() as int) == cell_count(field.bits),
{
    lemma_remaining_count(field, tiles, c, tiles.len() as int);
    lemma_ones_zero(64);
}

/// Tiles whose occupied cells, all together, number other than the field's
/// are no solution, wherever they stand.
pub proof fn lemma_cell_count_mismatch(field: Grid, tiles: Seq<Tile>, c: Seq<(usize, usize)>)
    requires
        field.wf(),
        forall|k: int| 0 <= k < tiles.len() ==> #[trigger] tiles[k].wf(),
        tile_cells(tiles, tiles.len() as int) != cell_count(field.bits),
    ensures
        !is_solution(field, tiles, c),
{
    if is_solution(field, tiles, c) {
        lemma_cell_counts_match(field, tiles, c);
    }
}

/// After `k` tiles of an exact cover stand, exactly their cells have gone.
proof fn lemma_remaining_count(field: Grid, tiles: Seq<Tile>, c: Seq<(usize, usize)>, k: int)
    requires
        field.wf(),
        forall|j: int| 0 <= j < tiles.len() ==> #[trigger] tiles[j].wf(),
        is_solution(field, tiles, c),
        0 <= k <= tiles.len(),
    ensures
        cell_count(remaining(field, tiles, c, k)) == cell_count(field.bits) - tile_cells(tiles, k),
    decreases k,
{
    if k > 0 {
        lemma_remaining_count(field, tiles, c, k - 1);
        assert(fits(field, tiles[k - 1].area, c[k - 1]));
        assert(lands_free(field, tiles, c, k - 1));
        assert(tiles[k - 1].wf());
        lemma_install_count(
            tiles[k - 1].area,
            c[k - 1].1 as int,
            c[k - 1].0 as int,
            remaining(field, tiles, c, k - 1),
            field.cols as int,
        );
    }
}

/// Installing a tile on free cells clears exactly as many cells as the tile
/// has.
proof fn lemma_install_count(t: Grid, row: int, col: int, x: u64, cols: int)
    requires
        t.wf(),
        0 <= row,
        0 <= col,
        row + t.rows <= MAX_SIDE,
        col + t.cols <= cols <= MAX_SIDE,
        placeable(t, row, col, x, cols),
    ensures
        cell_count(installed(t, row, col, x, cols)) == cell_count(x) - cell_count(t.bits),
{
    lemma_clear_rows_count(t, row, col, x, cols, t.rows as int);
    assert(0 <= t.rows * t.cols <= 64) by (nonlinear_arith)
        requires
            1 <= t.rows <= 8,
            1 <= t.cols <= 8,
    ;
    lemma_ones_past_end(t.bits, t.rows * t.cols);
}

proof fn lemma_clear_rows_count(t: Grid, row: int, col: int, x: u64, cols: int, n: int)
    requires
        t.wf(),
        0 <= row,
        0 <= col,
        row + t.rows <= MAX_SIDE,
        col + t.cols <= cols <= MAX_SIDE,
        placeable(t, row, col, x, cols),
        0 <= n <= t.rows,
    ensures
        cell_count(clear_rows(t, row, col, x, cols, n)) == cell_count(x) - ones(t.bits, n * t.cols),
    decreases n,
{
    if n > 0 {
        let j = n - 1;
        lemma_clear_rows_count(t, row, col, x, cols, j);
        lemma_clear_rows_cells(t, row, col, x, cols, j);
        let prev = clear_rows(t, row, col, x, cols, j);
        let cover = row_cover(t, j, row, col, cols);
        assert(0 <= (row + j) * cols && (row + j) * cols + cols <= 64 && 0 <= t.cols * j <= 56
            && t.cols * j == j * t.cols && j * t.cols + t.cols == n * t.cols && n * t.cols <= 64)
            by (nonlinear_arith)
            requires
                0 <= row,
                1 <= n,
                j == n - 1,
                row + n <= 8,
                n <= t.rows <= 8,
                1 <= t.cols <= 8,
                0 <= cols <= 8,
        ;
        assert forall|b: int| 0 <= b < 64 && #[trigger] bit_at(cover, b) implies bit_at(prev, b) by {
            lemma_row_cover_bit(t, j, row, col, cols, b);
            let c = choose|c: int|
                0 <= c < t.cols && #[trigger] t.cell(j, c) && b == (row + j) * cols + col + c;
            assert(covers(t, row, col, cols, b));
            if exists|i: int| 0 <= i < j && #[trigger] row_covers(t, row, col, cols, i, b) {
                let i = choose|i: int| 0 <= i < j && #[trigger] row_covers(t, row, col, cols, i, b);
                let c2 = choose|c2: int|
                    0 <= c2 < t.cols && #[trigger] t.cell(i, c2) && b == (row + i) * cols + col + c2;
                lemma_key_order(row + i, col + c2, row + j, col + c, cols);
            }
        }
        lemma_clear_count(prev, cover, 64);
        let y = tile_row(t, j);
        let c0 = col as u64;
        let s = ((row + j) * cols) as u64;
        lemma_tile_row_count(t, j, t.cols as int);
        lemma_tile_row_high(t, j);
        lemma_ones_past_end(y, t.cols as int);
        lemma_shift_count(y, c0, 64);
        lemma_ones_flat(y, t.cols as int, 64 - col);
        assert forall|i: int| col + t.cols <= i < 64 implies !#[trigger] bit_at(y << c0, i) by {
            lemma_shift_bit(y, c0, i as u64);
            assert(!bit_at(y, i - col));
        }
        lemma_shift_count(y << c0, s, 64);
        lemma_ones_flat(y << c0, col + t.cols, 64 - (row + j) * cols);
        lemma_ones_flat(y << c0, col + t.cols, 64);
        assert(cell_count(cover) == cell_count(y));
        assert(clear_rows(t, row, col, x, cols, n) == prev & !cover);
        assert(cell_count(y) == ones(t.bits, n * t.cols) - ones(t.bits, j * t.cols));
    } else {
        assert(n * t.cols == 0) by (nonlinear_arith)
            requires
                n == 0,
        ;
    }
}

/// Clearing from `x` the bits of `m`, all of them set in `x`, removes exactly
/// the bits of `m`.
proof fn lemma_clear_count(x: u64, m: u64, n: int)
    requires
        0 <= n <= 64,
        forall|b: int| 0 <= b < 64 && #[trigger] bit_at(m, b) ==> bit_at(x, b),
    ensures
        ones(x & !m, n) + ones(m, n) == ones(x, n),
    decreases n,
{
    if n > 0 {
        lemma_clear_count(x, m, n - 1);
        let i = (n - 1) as u64;
        assert(bit_at(m, n - 1) ==> bit_at(x, n - 1));
        assert(((m >> i) & 1 == 1 ==> (x >> i) & 1 == 1) ==> ((((x & !m) >> i) & 1 == 1) as int
            + ((m >> i) & 1 == 1) as int == ((x >> i) & 1 == 1) as int)) by (bit_vector);
    }
}

/// Bit `i` of `x << s` is bit `i - s` of `x`.
proof fn lemma_shift_bit(x: u64, s: u64, i: u64)
    requires
        s < 64,
        i < 64,
    ensures
        ((x << s) >> i) & 1 == 1 <==> (i >= s && (x >> ((i - s) as u64)) & 1 == 1),
{
    assert(((x << s) >> i) & 1 == 1 <==> (i >= s && (x >> ((i - s) as u64)) & 1 == 1))
        by (bit_vector)
        requires
            s < 64,
            i < 64,
    ;
}

/// Shifting left moves the low bits up and drops the high ones.
proof fn lemma_shift_count(x: u64, s: u64, n: int)
    requires
        s < 64,
        0 <= n <= 64,
    ensures
        ones(x << s, n) == if n <= s {
            0
        } else {
            ones(x, n - s)
        },
    decreases n,
{
    if n > 0 {
        lemma_shift_count(x, s, n - 1);
        let i = (n - 1) as u64;
        assert(((x << s) >> i) & 1 == 1 <==> (i >= s && (x >> ((i - s) as u64)) & 1 == 1))
            by (bit_vector)
            requires
                s < 64,
                i < 64,
        ;
        assert(ones(x << s, n) == ones(x << s, n - 1) + if bit_at(x << s, n - 1) {
            1int
        } else {
            0int
        });
        if n - 1 >= s {
            assert(((n - 1 - s) as u64) == ((i - s) as u64));
            assert(bit_at(x << s, n - 1) == bit_at(x, n - 1 - s));
            assert(ones(x, n - s) == ones(x, n - s - 1) + if bit_at(x, n - s - 1) {
                1int
            } else {
                0int
            });
        } else {
            assert(!bit_at(x << s, n - 1));
        }
    }
}

/// The bits of row `j` of a grid, up to column `m`, are those of the mask
/// from the row's first cell on.
proof fn lemma_tile_row_count(t: Grid, j: int, m: int)
    requires
        t.wf(),
        0 <= j < t.rows,
        0 <= m <= t.cols,
    ensures
        ones(tile_row(t, j), m) == ones(t.bits, j * t.cols + m) - ones(t.bits, j * t.cols),
    decreases m,
{
    assert(0 <= t.cols * j && t.cols * j + t.cols <= 64 && t.cols * j == j * t.cols)
        by (nonlinear_arith)
        requires
            0 <= j < t.rows <= 8,
            1 <= t.cols <= 8,
    ;
    if m > 0 {
        lemma_tile_row_count(t, j, m - 1);
        let b = t.bits;
        let off = (t.cols * j) as u64;
        let tc = t.cols as u64;
        let i = (m - 1) as u64;
        let mask = t.row_mask;
        assert(mask == ((1u64 << tc) - 1) as u64);
        assert((((b & (mask << off)) >> off) >> i) & 1 == 1 <==> (b >> ((off + i) as u64)) & 1 == 1)
            by (bit_vector)
            requires
                mask == ((1u64 << tc) - 1) as u64,
                1 <= tc <= 8,
                off + tc <= 64,
                i < tc,
        ;
    }
}

/// Row `j` of a grid, moved down, has no bit past the grid's width.
proof fn lemma_tile_row_high(t: Grid, j: int)
    requires
        t.wf(),
        0 <= j < t.rows,
    ensures
        forall|i: int| t.cols <= i < 64 ==> !#[trigger] bit_at(tile_row(t, j), i),
{
    assert(0 <= t.cols * j && t.cols * j + t.cols <= 64) by (nonlinear_arith)
        requires
            0 <= j < t.rows <= 8,
            1 <= t.cols <= 8,
    ;
    let b = t.bits;
    let off = (t.cols * j) as u64;
    let tc = t.cols as u64;
    let mask = t.row_mask;
    assert(mask == ((1u64 << tc) - 1) as u64);
    assert forall|i: int| t.cols <= i < 64 implies !#[trigger] bit_at(tile_row(t, j), i) by {
        let k = i as u64;
        assert((((b & (mask << off)) >> off) >> k) & 1 != 1) by (bit_vector)
            requires
                mask == ((1u64 << tc) - 1) as u64,
                1 <= tc <= 8,
                off + tc <= 64,
                tc <= k < 64,
        ;
    }
}

/// Bits of `y` at or above `m`, when there are none, add nothing.
proof fn lemma_ones_past_end(y: u64, m: int)
    requires
        0 <= m <= 64,
        forall|i: int| m <= i < 64 ==> !#[trigger] bit_at(y, i),
    ensures
        ones(y, 64) == ones(y, m),
{
    lemma_ones_flat(y, m, 64);
}

proof fn lemma_ones_flat(y: u64, m: int, n: int)
    requires
        0 <= m <= n <= 64,
        forall|i: int| m <= i < 64 ==> !#[trigger] bit_at(y, i),
    ensures
        ones(y, n) == ones(y, m),
    decreases n,
{
    if n > m {
        lemma_ones_flat(y, m, n - 1);
    }
}

proof fn lemma_ones_zero(n: int)
    requires
        0 <= n <= 64,
    ensures
        ones(0u64, n) == 0,
    decreases n,
{
    if n > 0 {
        lemma_ones_zero(n - 1);
        let i = (n - 1) as u64;
        assert((0u64 >> i) & 1 != 1) by (bit_vector);
    }
}

} // verus!
