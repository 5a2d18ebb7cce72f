//! Exact-cover search: the tiles of a task are placed in order, each scanned
//! over the field top-left to bottom-right, with an explicit stack of frames.
use vstd::prelude::*;
use crate::cells::{
    covers, lemma_install_cells, lemma_no_bit_zero, lemma_row_cover_bit, placeable, row_covers,
};
use crate::grid::{bit_at, Grid, MAX_SIDE};

verus! {

/// One polyomino, addressed with its own top-left cell at the origin.
#[derive(Debug, Clone, Copy)]
pub struct Tile {
    pub area: Grid,
}

/// One puzzle: a field to cover and the tiles to cover it with, in order.
#[derive(Debug)]
pub struct Task {
    pub id: String,
    pub field: Grid,
    pub tiles: Vec<Tile>,
}

/// Why a task has no answer.
#[derive(Debug, PartialEq, Eq)]
pub enum SolveError {
    /// No placement of the tiles covers the field; carries the task's id.
    NoSolution(String),
}

/// Row `j` of grid `t`, moved down to the lowest bits.
pub open spec fn tile_row(t: Grid, j: int) -> u64 {
    let off = (t.cols * j) as u64;
    (t.bits & (t.row_mask << off)) >> off
}

/// Row `j` of tile `t` moved to column `col`, row `row + j` of a field
/// `cols` wide.
pub open spec fn row_cover(t: Grid, j: int, row: int, col: int, cols: int) -> u64 {
    (tile_row(t, j) << (col as u64)) << (((row + j) * cols) as u64)
}

/// `bits` with the first `n` rows of tile `t` at `(row, col)` cleared.
pub open spec fn clear_rows(t: Grid, row: int, col: int, bits: u64, cols: int, n: int) -> u64
    decreases n,
{
    if n <= 0 {
        bits
    } else {
        clear_rows(t, row, col, bits, cols, n - 1) & !row_cover(t, n - 1, row, col, cols)
    }
}

/// `bits` with every cell of tile `t`, placed at `(row, col)`, cleared.
pub open spec fn installed(t: Grid, row: int, col: int, bits: u64, cols: int) -> u64 {
    clear_rows(t, row, col, bits, cols, t.rows as int)
}

impl Tile {
    /// The tile's grid is well formed.
    pub open spec fn wf(&self) -> bool {
        self.area.wf()
    }

    /// Whether every cell that this tile covers, with its top-left corner at
    /// `(row, col)` of a field `cols` wide, is set in `bits`.
    pub fn can_place(&self, row: usize, col: usize, bits: u64, cols: usize) -> (b: bool)
        requires
            self.wf(),
            row + self.area.rows <= MAX_SIDE,
            col + self.area.cols <= cols <= MAX_SIDE,
        ensures
            b == placeable(self.area, row as int, col as int, bits, cols as int),
    {
        let mut j: usize = 0;
        while j < self.area.rows
            invariant
                self.wf(),
                row + self.area.rows <= MAX_SIDE,
                col + self.area.cols <= cols <= MAX_SIDE,
                j <= self.area.rows,
                forall|b: int, i: int|
                    0 <= b < 64 && 0 <= i < j && #[trigger] row_covers(
                        self.area,
                        row as int,
                        col as int,
                        cols as int,
                        i,
                        b,
                    ) ==> bit_at(bits, b),
            decreases self.area.rows - j,
        {
            proof {
                lemma_small_product(self.area.cols as int, j as int);
                lemma_small_product(cols as int, (row + j) as int);
            }
            let row_offset = (self.area.cols * j) as u64;
            let mask = self.area.row_mask << row_offset;
            let row_bits = (self.area.bits & mask) >> row_offset;
            let field_offset = ((row + j) * cols) as u64;
            let cover = (row_bits << col as u64) << field_offset;
            let stray = cover & !bits;
            let ghost t = self.area;
            let ghost (r, c, w) = (row as int, col as int, cols as int);
            assert(cover == row_cover(t, j as int, r, c, w));
            if stray != 0 {
                proof {
                    if forall|b: int| 0 <= b < 64 ==> !#[trigger] bit_at(stray, b) {
                        lemma_no_bit_zero(stray);
                    }
                    let b = choose|b: int| 0 <= b < 64 && #[trigger] bit_at(stray, b);
                    let k = b as u64;
                    assert((((cover & !bits) >> k) & 1 == 1) ==> ((cover >> k) & 1 == 1 && (bits
                        >> k) & 1 != 1)) by (bit_vector);
                    lemma_row_cover_bit(t, j as int, r, c, w, b);
                    let cc = choose|cc: int|
                        0 <= cc < t.cols && #[trigger] t.cell(j as int, cc) && b == (r + j) * w + c
                            + cc;
                    assert(covers(t, r, c, w, b));
                }
                return false;
            }
            proof {
                assert forall|b: int|
                    0 <= b < 64 && #[trigger] row_covers(t, r, c, w, j as int, b) implies bit_at(
                    bits,
                    b,
                ) by {
                    lemma_row_cover_bit(t, j as int, r, c, w, b);
                    let k = b as u64;
                    assert(cover & !bits == 0 && (cover >> k) & 1 == 1 ==> (bits >> k) & 1 == 1)
                        by (bit_vector);
                }
            }
            j += 1;
        }
        proof {
            let t = self.area;
            assert forall|b: int|
                0 <= b < 64 && #[trigger] covers(t, row as int, col as int, cols as int, b) implies bit_at(
                bits,
                b,
            ) by {
                let (i, cc) = choose|i: int, cc: int|
                    0 <= i < t.rows && 0 <= cc < t.cols && #[trigger] t.cell(i, cc) && b == (row
                        + i) * cols + col + cc;
                assert(row_covers(t, row as int, col as int, cols as int, i, b));
            }
        }
        true
    }

    /// Clears from `bits` the cells that this tile covers when its top-left
    /// corner stands at `(row, col)` of a field `cols` wide.
    pub fn install(&self, row: usize, col: usize, bits: u64, cols: usize) -> (r: u64)
        requires
            self.wf(),
            row + self.area.rows <= MAX_SIDE,
            col < 64,
            cols <= MAX_SIDE,
        ensures
            r == installed(self.area, row as int, col as int, bits, cols as int),
            col + self.area.cols <= cols ==> forall|b: int|
                0 <= b < 64 ==> (bit_at(r, b) <==> bit_at(bits, b) && !covers(
                    self.area,
                    row as int,
                    col as int,
                    cols as int,
                    b,
                )),
    {
        let mut out: u64 = bits;
        let mut j: usize = 0;
        while j < self.area.rows
            invariant
                self.wf(),
                row + self.area.rows <= MAX_SIDE,
                col < 64,
                cols <= MAX_SIDE,
                j <= self.area.rows,
                out == clear_rows(self.area, row as int, col as int, bits, cols as int, j as int),
            decreases self.area.rows - j,
        {
            proof {
                lemma_small_product(self.area.cols as int, j as int);
                lemma_small_product(cols as int, (row + j) as int);
            }
            let row_offset = (self.area.cols * j) as u64;
            let mask = self.area.row_mask << row_offset;
            let row_bits = (self.area.bits & mask) >> row_offset;
            let field_offset = ((row + j) * cols) as u64;
            let clear_mask = !((row_bits << col as u64) << field_offset);
            out = out & clear_mask;
            j += 1;
        }
        proof {
            if col + self.area.cols <= cols {
                lemma_install_cells(self.area, row as int, col as int, bits, cols as int);
            }
        }
        out
    }
}

/// A coordinate `(col, row)` in the order of the field's scan: row-major.
pub open spec fn key(p: (usize, usize), cols: int) -> int {
    p.1 * cols + p.0
}

/// Tile `t` with its top-left corner at `p = (col, row)` lies inside `field`.
pub open spec fn fits(field: Grid, t: Grid, p: (usize, usize)) -> bool {
    p.1 + t.rows <= field.rows && p.0 + t.cols <= field.cols
}

/// The field cells left uncovered once the first `k` tiles stand at the
/// coordinates `c`.
pub open spec fn remaining(field: Grid, tiles: Seq<Tile>, c: Seq<(usize, usize)>, k: int) -> u64
    decreases k,
{
    if k <= 0 {
        field.bits
    } else {
        installed(
            tiles[k - 1].area,
            c[k - 1].1 as int,
            c[k - 1].0 as int,
            remaining(field, tiles, c, k - 1),
            field.cols as int,
        )
    }
}

/// Tile `k`, at its coordinate in `c`, lands only on field cells that are
/// occupied and that the tiles before it left uncovered.
pub open spec fn lands_free(field: Grid, tiles: Seq<Tile>, c: Seq<(usize, usize)>, k: int) -> bool {
    placeable(
        tiles[k].area,
        c[k].1 as int,
        c[k].0 as int,
        remaining(field, tiles, c, k),
        field.cols as int,
    )
}

/// `c` is an exact cover: every tile lies inside the field, on occupied cells
/// that no earlier tile took, and no field cell is left uncovered.
pub open spec fn is_solution(field: Grid, tiles: Seq<Tile>, c: Seq<(usize, usize)>) -> bool {
    &&& c.len() == tiles.len()
    &&& forall|k: int| 0 <= k < c.len() ==> #[trigger] fits(field, tiles[k].area, c[k])
    &&& forall|k: int| 0 <= k < c.len() ==> #[trigger] lands_free(field, tiles, c, k)
    &&& remaining(field, tiles, c, c.len() as int) == 0
}

/// `a` and `b` agree on their first `i` entries.
pub open spec fn agree(a: Seq<(usize, usize)>, b: Seq<(usize, usize)>, i: int) -> bool {
    forall|k: int| 0 <= k < i ==> #[trigger] a[k] == b[k]
}

/// The search meets `a` before `b`: they agree up to tile `i`, which `a`
/// puts earlier in the scan.
pub open spec fn precedes_at(a: Seq<(usize, usize)>, b: Seq<(usize, usize)>, i: int, cols: int) -> bool {
    &&& 0 <= i < a.len()
    &&& i < b.len()
    &&& agree(a, b, i)
    &&& key(a[i], cols) < key(b[i], cols)
}

/// `c` is a solution, and the search meets no other solution before it.
pub open spec fn first_solution(field: Grid, tiles: Seq<Tile>, c: Seq<(usize, usize)>) -> bool {
    &&& is_solution(field, tiles, c)
    &&& forall|d: Seq<(usize, usize)>, i: int|
        #[trigger] precedes_at(d, c, i, field.cols as int) ==> !is_solution(field, tiles, d)
}

impl Task {
    /// A well-formed field and at least one tile, each well formed.
    pub open spec fn wf(&self) -> bool {
        &&& self.field.wf()
        &&& self.tiles@.len() >= 1
        &&& forall|k: int| 0 <= k < self.tiles@.len() ==> #[trigger] self.tiles@[k].wf()
    }
}

/// Two first solutions of one task are the same: the search order is total.
pub proof fn lemma_first_solution_unique(
    field: Grid,
    tiles: Seq<Tile>,
    c: Seq<(usize, usize)>,
    d: Seq<(usize, usize)>,
)
    requires
        field.wf(),
        forall|k: int| 0 <= k < tiles.len() ==> #[trigger] tiles[k].wf(),
        first_solution(field, tiles, c),
        first_solution(field, tiles, d),
    ensures
        c == d,
{
    lemma_unique_from(field, tiles, c, d, 0);
}

proof fn lemma_unique_from(
    field: Grid,
    tiles: Seq<Tile>,
    c: Seq<(usize, usize)>,
    d: Seq<(usize, usize)>,
    i: int,
)
    requires
        field.wf(),
        forall|k: int| 0 <= k < tiles.len() ==> #[trigger] tiles[k].wf(),
        first_solution(field, tiles, c),
        first_solution(field, tiles, d),
        0 <= i <= c.len(),
        agree(c, d, i),
    ensures
        c == d,
    decreases c.len() - i,
{
    let w = field.cols as int;
    if i < c.len() {
        if c[i] != d[i] {
            assert(fits(field, tiles[i].area, c[i]));
            assert(fits(field, tiles[i].area, d[i]));
            assert(tiles[i].wf());
            lemma_key_injective(c[i], d[i], w);
            if key(c[i], w) < key(d[i], w) {
                assert(precedes_at(c, d, i, w));
            } else {
                assert(precedes_at(d, c, i, w));
            }
        }
        lemma_unique_from(field, tiles, c, d, i + 1);
    } else {
        assert(c =~= d);
    }
}

/// Positions inside one row are told apart by their keys.
proof fn lemma_key_injective(a: (usize, usize), b: (usize, usize), w: int)
    requires
        a.0 < w,
        b.0 < w,
        a != b,
    ensures
        key(a, w) != key(b, w),
{
    if a.1 < b.1 {
        lemma_key_order(a.1 as int, a.0 as int, b.1 as int, b.0 as int, w);
    } else if b.1 < a.1 {
        lemma_key_order(b.1 as int, b.0 as int, a.1 as int, a.0 as int, w);
    }
}

/// A cell of an earlier row comes earlier in the scan.
pub(crate) proof fn lemma_key_order(r1: int, c1: int, r2: int, c2: int, w: int)
    requires
        0 <= r1 < r2,
        0 <= c1 < w,
        0 <= c2,
    ensures
        r1 * w + c1 < r2 * w + c2,
{
    assert(r2 * w >= (r1 + 1) * w) by (nonlinear_arith)
        requires
            r2 >= r1 + 1,
            w >= 0,
    ;
    assert((r1 + 1) * w == r1 * w + w) by (nonlinear_arith);
}

/// Searches for the first placement of the task's tiles, in order, that
/// covers the field exactly; fails with the task's id when there is none.
#[verifier::rlimit(50)]
pub fn solve(task: &Task) -> (r: Result<Vec<(usize, usize)>, SolveError>)
    requires
        task.wf(),
    ensures
        match r {
            Ok(c) => first_solution(task.field, task.tiles@, c@),
            Err(SolveError::NoSolution(id)) => id@ == task.id@ && forall|d: Seq<(usize, usize)>|
                !#[trigger] is_solution(task.field, task.tiles@, d),
        },
{
    let n = task.tiles.len();
    let fr = task.field.rows;
    let fc = task.field.cols;
    let ghost top: int = fr * fc;
    let mut stack: Vec<Frame> = Vec::new();
    let mut k: usize = 0;
    while k < n
        invariant
            k <= n,
            stack@.len() == k,
            forall|i: int|
                0 <= i < k ==> #[trigger] stack@[i] == (Frame {
                    row: 0,
                    col: 0,
                    field_bits: task.field.bits,
                }),
        decreases n - k,
    {
        stack.push(Frame { row: 0, col: 0, field_bits: task.field.bits });
        k += 1;
    }
    let mut sp: usize = 0;
    proof {
        let c = coords(stack@);
        assert(c[0] == (0usize, 0usize));
        assert forall|d: Seq<(usize, usize)>, i: int|
            0 <= i <= 0 && precedes_at(d, c, i, fc as int) implies !is_solution(
            task.field,
            task.tiles@,
            d,
        ) by {
            lemma_row_start_order(0, d[0].1 as int, d[0].0 as int, fc as int);
        }
    }
    loop
        invariant
            task.wf(),
            n == task.tiles@.len(),
            fr == task.field.rows,
            fc == task.field.cols,
            top == fr * fc,
            stack@.len() == n,
            sp < n,
            forall|k: int|
                0 <= k < sp ==> #[trigger] fits(task.field, task.tiles@[k].area, coords(stack@)[k]),
            forall|k: int|
                0 <= k < sp ==> #[trigger] lands_free(task.field, task.tiles@, coords(stack@), k),
            stack@[sp as int].row < fr,
            stack@[sp as int].col <= fc,
            forall|k: int|
                0 <= k <= sp ==> #[trigger] stack@[k].field_bits == remaining(
                    task.field,
                    task.tiles@,
                    coords(stack@),
                    k,
                ),
            explored(task.field, task.tiles@, coords(stack@), sp as int),
        ensures
            sp == n - 1,
            stack@.len() == n,
            first_solution(task.field, task.tiles@, coords(stack@)),
        decreases weigh(digits(stack@, sp as int, fc as int, top), top + 2),
    {
        let ghost c0 = coords(stack@);
        let ghost d0 = digits(stack@, sp as int, fc as int, top);
        let ghost w = fc as int;
        let ghost field = task.field;
        let ghost tiles = task.tiles@;
        proof {
            assert forall|k: int| 0 <= k <= sp implies #[trigger] stack@[k].row < fr
                && stack@[k].col <= fc by {
                if k < sp {
                    assert(fits(field, tiles[k].area, c0[k]));
                    assert(tiles[k].wf());
                }
            }
            lemma_digits_range(stack@, sp as int, fr as int, fc as int);
        }
        let tile = task.tiles[sp];
        assert(tile.wf());
        let mut f = stack[sp];
        if f.col + tile.area.cols > fc {
            f.col = 0;
            f.row = f.row + 1;
            stack.set(sp, f);
        }
        let ghost c1 = coords(stack@);
        proof {
            assert(c1[sp as int] == (f.col, f.row));
            assert forall|k: int| 0 <= k < n && k != sp implies #[trigger] c1[k] == c0[k] by {}
            lemma_row_start_order(c0[sp as int].1 as int, f.row as int, 0, w);
            assert(key(c0[sp as int], w) <= key(c1[sp as int], w)) by {
                if f.row != c0[sp as int].1 {
                    assert((c0[sp as int].1 + 1) * w == c0[sp as int].1 * w + w) by (nonlinear_arith);
                }
            }
            assert forall|k: int| 0 <= k <= sp implies #[trigger] stack@[k].field_bits == remaining(
                field,
                tiles,
                c1,
                k,
            ) by {
                lemma_remaining_agree(field, tiles, c0, c1, k);
            }
            assert forall|d: Seq<(usize, usize)>, i: int|
                0 <= i <= sp && precedes_at(d, c1, i, w) implies !is_solution(field, tiles, d) by {
                if i < sp {
                    assert(precedes_at(d, c0, i, w));
                } else if key(d[i], w) < key(c0[i], w) {
                    assert(precedes_at(d, c0, i, w));
                } else if is_solution(field, tiles, d) {
                    assert(fits(field, tiles[i].area, d[i]));
                    let old_row = c0[i].1 as int;
                    if (d[i].1 as int) < old_row {
                        lemma_key_order(d[i].1 as int, d[i].0 as int, old_row, c0[i].0 as int, w);
                    } else if (d[i].1 as int) > old_row {
                        lemma_row_start_order(old_row + 1, d[i].1 as int, d[i].0 as int, w);
                        assert((old_row + 1) * w == old_row * w + w) by (nonlinear_arith);
                    }
                }
            }
            assert(explored(field, tiles, c1, sp as int));
        }
        if f.row + tile.area.rows > fr || tile.area.cols > fc {
            proof {
                assert forall|d: Seq<(usize, usize)>|
                    d.len() == n && agree(d, c1, sp as int) implies !#[trigger] is_solution(
                    field,
                    tiles,
                    d,
                ) by {
                    if is_solution(field, tiles, d) {
                        assert(fits(field, tiles[sp as int].area, d[sp as int]));
                        if key(d[sp as int], w) < key(c1[sp as int], w) {
                            assert(precedes_at(d, c1, sp as int, w));
                        } else if (d[sp as int].1 as int) < f.row {
                            lemma_key_order(
                                d[sp as int].1 as int,
                                d[sp as int].0 as int,
                                f.row as int,
                                f.col as int,
                                w,
                            );
                        }
                    }
                }
            }
            if sp == 0 {
                proof {
                    assert forall|d: Seq<(usize, usize)>| !#[trigger] is_solution(
                        field,
                        tiles,
                        d,
                    ) by {
                        if is_solution(field, tiles, d) {
                            assert(agree(d, c1, 0));
                        }
                    }
                }
                return Err(SolveError::NoSolution(task.id.clone()));
            }
            let mut p = stack[sp - 1];
            proof {
                assert(fits(field, tiles[sp - 1].area, c1[sp - 1]));
                assert(tiles[sp - 1].wf());
            }
            p.col = p.col + 1;
            stack.set(sp - 1, p);
            sp = sp - 1;
            proof {
                let c2 = coords(stack@);
                assert(c2[sp as int] == (p.col, p.row));
                assert forall|k: int| 0 <= k < n && k != sp implies #[trigger] c2[k] == c1[k] by {}
                assert forall|k: int| 0 <= k < sp implies #[trigger] lands_free(
                    field,
                    tiles,
                    c2,
                    k,
                ) by {
                    assert forall|j: int| 0 <= j < k + 1 implies #[trigger] c0[j] == c2[j] by {
                        assert(c2[j] == c1[j]);
                    }
                    lemma_lands_free_agree(field, tiles, c0, c2, k);
                }
                assert forall|k: int| 0 <= k < sp implies #[trigger] fits(
                    field,
                    tiles[k].area,
                    c2[k],
                ) by {
                    assert(c2[k] == c1[k]);
                }
                assert forall|k: int| 0 <= k <= sp implies #[trigger] stack@[k].field_bits
                    == remaining(field, tiles, c2, k) by {
                    lemma_remaining_agree(field, tiles, c1, c2, k);
                }
                assert forall|d: Seq<(usize, usize)>, i: int|
                    0 <= i <= sp && precedes_at(d, c2, i, w) implies !is_solution(
                    field,
                    tiles,
                    d,
                ) by {
                    if i < sp {
                        assert(precedes_at(d, c1, i, w));
                    } else if key(d[i], w) < key(c1[i], w) {
                        assert(precedes_at(d, c1, i, w));
                    } else if is_solution(field, tiles, d) {
                        assert(fits(field, tiles[i].area, d[i]));
                        assert(tiles[i].wf());
                        if d[i] != c1[i] {
                            lemma_key_injective(d[i], c1[i], w);
                        }
                        assert(agree(d, c1, sp + 1));
                    }
                }
                assert(explored(field, tiles, c2, sp as int));
                let d2 = digits(stack@, sp as int, fc as int, top);
                assert forall|k: int| 0 <= k <= sp implies #[trigger] stack@[k].row < fr
                    && stack@[k].col <= fc by {
                    if k < sp {
                        assert(fits(field, tiles[k].area, c2[k]));
                        assert(tiles[k].wf());
                    }
                }
                lemma_digits_range(stack@, sp as int, fr as int, fc as int);
                assert forall|k: int| 0 <= k < sp implies #[trigger] d2[k] == d0[k] by {}
                lemma_weigh_lex(d2, d0, sp as int, top + 2);
                lemma_weigh_nonneg(d2, top + 2);
            }
            continue;
        }
        let ok = tile.can_place(f.row, f.col, f.field_bits, fc);
        let installed = tile.install(f.row, f.col, f.field_bits, fc);
        if ok && sp + 1 < n {
            stack.set(sp + 1, Frame { row: 0, col: 0, field_bits: installed });
            sp = sp + 1;
            proof {
                let c3 = coords(stack@);
                assert(c3[sp as int] == (0usize, 0usize));
                assert forall|k: int| 0 <= k < n && k != sp implies #[trigger] c3[k] == c1[k] by {}
                assert forall|k: int| 0 <= k < sp implies #[trigger] lands_free(
                    field,
                    tiles,
                    c3,
                    k,
                ) by {
                    if k < sp - 1 {
                        assert forall|j: int| 0 <= j < k + 1 implies #[trigger] c0[j] == c3[j] by {
                            assert(c3[j] == c1[j]);
                        }
                        lemma_lands_free_agree(field, tiles, c0, c3, k);
                    } else {
                        assert(c3[k] == c1[k]);
                        lemma_remaining_agree(field, tiles, c1, c3, k);
                    }
                }
                assert forall|k: int| 0 <= k < sp implies #[trigger] fits(
                    field,
                    tiles[k].area,
                    c3[k],
                ) by {
                    assert(c3[k] == c1[k]);
                }
                assert forall|k: int| 0 <= k <= sp implies #[trigger] stack@[k].field_bits
                    == remaining(field, tiles, c3, k) by {
                    if k < sp {
                        lemma_remaining_agree(field, tiles, c1, c3, k);
                    } else {
                        lemma_remaining_agree(field, tiles, c1, c3, k - 1);
                    }
                }
                assert forall|d: Seq<(usize, usize)>, i: int|
                    0 <= i <= sp && precedes_at(d, c3, i, w) implies !is_solution(
                    field,
                    tiles,
                    d,
                ) by {
                    if i < sp {
                        assert(precedes_at(d, c1, i, w));
                    } else {
                        lemma_row_start_order(0, d[i].1 as int, d[i].0 as int, w);
                    }
                }
                assert(explored(field, tiles, c3, sp as int));
                let d3 = digits(stack@, sp as int, fc as int, top);
                assert forall|k: int| 0 <= k <= sp implies #[trigger] stack@[k].row < fr
                    && stack@[k].col <= fc by {
                    if k < sp {
                        assert(fits(field, tiles[k].area, c3[k]));
                        assert(tiles[k].wf());
                    }
                }
                lemma_digits_range(stack@, sp as int, fr as int, fc as int);
                assert forall|k: int| 0 <= k < sp - 1 implies #[trigger] d3[k] == d0[k] by {}
                if d3[sp - 1] < d0[sp - 1] {
                    lemma_weigh_lex(d3, d0, sp - 1, top + 2);
                    lemma_weigh_nonneg(d3, top + 2);
                } else {
                    lemma_weigh_lex(d3, d0, sp as int, top + 2);
                lemma_weigh_nonneg(d3, top + 2);
                }
            }
        } else if ok && installed == 0 {
            proof {
                assert forall|k: int| 0 <= k < n implies #[trigger] lands_free(
                    field,
                    tiles,
                    c1,
                    k,
                ) by {
                    if k < sp {
                        assert forall|j: int| 0 <= j < k + 1 implies #[trigger] c0[j] == c1[j] by {}
                        lemma_lands_free_agree(field, tiles, c0, c1, k);
                    }
                }
                assert forall|k: int| 0 <= k < n implies #[trigger] fits(
                    field,
                    tiles[k].area,
                    c1[k],
                ) by {}
                assert(is_solution(field, tiles, c1));
                assert forall|d: Seq<(usize, usize)>, i: int|
                    #[trigger] precedes_at(d, c1, i, w) implies !is_solution(field, tiles, d) by {
                    assert(i <= sp);
                }
            }
            break;
        } else {
            f.col = f.col + 1;
            stack.set(sp, f);
            proof {
                let c4 = coords(stack@);
                assert(c4[sp as int] == (f.col, f.row));
                assert forall|k: int| 0 <= k < n && k != sp implies #[trigger] c4[k] == c1[k] by {}
                assert forall|k: int| 0 <= k < sp implies #[trigger] lands_free(
                    field,
                    tiles,
                    c4,
                    k,
                ) by {
                    assert forall|j: int| 0 <= j < k + 1 implies #[trigger] c0[j] == c4[j] by {
                        assert(c4[j] == c1[j]);
                    }
                    lemma_lands_free_agree(field, tiles, c0, c4, k);
                }
                assert forall|k: int| 0 <= k < sp implies #[trigger] fits(
                    field,
                    tiles[k].area,
                    c4[k],
                ) by {
                    assert(c4[k] == c1[k]);
                }
                assert forall|k: int| 0 <= k <= sp implies #[trigger] stack@[k].field_bits
                    == remaining(field, tiles, c4, k) by {
                    lemma_remaining_agree(field, tiles, c1, c4, k);
                }
                assert forall|d: Seq<(usize, usize)>, i: int|
                    0 <= i <= sp && precedes_at(d, c4, i, w) implies !is_solution(
                    field,
                    tiles,
                    d,
                ) by {
                    if i < sp {
                        assert(precedes_at(d, c1, i, w));
                    } else if key(d[i], w) < key(c1[i], w) {
                        assert(precedes_at(d, c1, i, w));
                    } else if is_solution(field, tiles, d) {
                        assert(fits(field, tiles[i].area, d[i]));
                        if d[i] != c1[i] {
                            lemma_key_injective(d[i], c1[i], w);
                        }
                        assert(agree(d, c1, sp + 1));
                        lemma_remaining_agree(field, tiles, c1, d, i);
                        assert(lands_free(field, tiles, d, i));
                    }
                }
                assert(explored(field, tiles, c4, sp as int));
                let d4 = digits(stack@, sp as int, fc as int, top);
                assert forall|k: int| 0 <= k <= sp implies #[trigger] stack@[k].row < fr
                    && stack@[k].col <= fc by {
                    if k < sp {
                        assert(fits(field, tiles[k].area, c4[k]));
                        assert(tiles[k].wf());
                    }
                }
                lemma_digits_range(stack@, sp as int, fr as int, fc as int);
                assert forall|k: int| 0 <= k < sp implies #[trigger] d4[k] == d0[k] by {}
                lemma_weigh_lex(d4, d0, sp as int, top + 2);
                lemma_weigh_nonneg(d4, top + 2);
            }
        }
    }
    let mut out: Vec<(usize, usize)> = Vec::new();
    let mut i: usize = 0;
    while i < n
        invariant
            i <= n,
            stack@.len() == n,
            out@ =~= coords(stack@).take(i as int),
        decreases n - i,
    {
        out.push((stack[i].col, stack[i].row));
        i += 1;
    }
    assert(out@ =~= coords(stack@));
    Ok(out)
}

/// One level of the search stack: where its tile stands now, and the field
/// cells that the tiles below it left uncovered.
#[derive(Clone, Copy)]
struct Frame {
    row: usize,
    col: usize,
    field_bits: u64,
}

/// The `(col, row)` coordinates held by a stack.
spec fn coords(stack: Seq<Frame>) -> Seq<(usize, usize)> {
    stack.map_values(|f: Frame| (f.col, f.row))
}

/// Every solution that the search meets before the stack's first `sp + 1`
/// levels has been ruled out.
spec fn explored(field: Grid, tiles: Seq<Tile>, c: Seq<(usize, usize)>, sp: int) -> bool {
    forall|d: Seq<(usize, usize)>, i: int|
        #![trigger precedes_at(d, c, i, field.cols as int)]
        0 <= i <= sp && precedes_at(d, c, i, field.cols as int) ==> !is_solution(field, tiles, d)
}

/// The digit of stack level `k` in the search's progress measure: levels
/// further along the scan, and levels not yet entered, weigh less.
spec fn digit(stack: Seq<Frame>, sp: int, k: int, cols: int, top: int) -> int {
    if k <= sp {
        top - (stack[k].row * cols + stack[k].col)
    } else {
        top + 1
    }
}

spec fn digits(stack: Seq<Frame>, sp: int, cols: int, top: int) -> Seq<int> {
    Seq::new(stack.len(), |k: int| digit(stack, sp, k, cols, top))
}

/// A sequence of digits read as a number in base `w`.
spec fn weigh(s: Seq<int>, w: int) -> int
    decreases s.len(),
{
    if s.len() == 0 {
        0
    } else {
        weigh(s.drop_last(), w) * w + s.last()
    }
}

proof fn lemma_weigh_nonneg(s: Seq<int>, w: int)
    requires
        w >= 1,
        forall|k: int| 0 <= k < s.len() ==> 0 <= #[trigger] s[k],
    ensures
        weigh(s, w) >= 0,
    decreases s.len(),
{
    if s.len() > 0 {
        let p = s.drop_last();
        assert(forall|k: int| 0 <= k < p.len() ==> p[k] == s[k]);
        lemma_weigh_nonneg(p, w);
        let q = weigh(p, w);
        assert(q * w >= 0) by (nonlinear_arith)
            requires
                q >= 0,
                w >= 1,
        ;
    }
}

/// Digit sequences of one length compare as their first difference does.
proof fn lemma_weigh_lex(a: Seq<int>, b: Seq<int>, i: int, w: int)
    requires
        a.len() == b.len(),
        0 <= i < a.len(),
        w >= 1,
        forall|k: int| 0 <= k < a.len() ==> 0 <= #[trigger] a[k] < w,
        forall|k: int| 0 <= k < b.len() ==> 0 <= #[trigger] b[k] < w,
        forall|k: int| 0 <= k < i ==> #[trigger] a[k] == b[k],
        a[i] < b[i],
    ensures
        weigh(a, w) < weigh(b, w),
    decreases a.len(),
{
    let pa = a.drop_last();
    let pb = b.drop_last();
    if i == a.len() - 1 {
        assert(pa =~= pb);
    } else {
        assert(forall|k: int| 0 <= k < pa.len() ==> pa[k] == a[k] && pb[k] == b[k]);
        lemma_weigh_lex(pa, pb, i, w);
        lemma_weigh_nonneg(pa, w);
        let x = weigh(pa, w);
        let y = weigh(pb, w);
        let u = a.last();
        let v = b.last();
        assert(x * w + u < y * w + v) by (nonlinear_arith)
            requires
                0 <= x < y,
                0 <= u < w,
                0 <= v,
        ;
    }
}

/// Whether tile `k` lands free reads only the first `k + 1` coordinates.
proof fn lemma_lands_free_agree(
    field: Grid,
    tiles: Seq<Tile>,
    a: Seq<(usize, usize)>,
    b: Seq<(usize, usize)>,
    k: int,
)
    requires
        0 <= k,
        agree(a, b, k + 1),
    ensures
        lands_free(field, tiles, a, k) == lands_free(field, tiles, b, k),
{
    assert(a[k] == b[k]);
    lemma_remaining_agree(field, tiles, a, b, k);
}

/// `remaining` after `k` tiles reads only the first `k` coordinates.
proof fn lemma_remaining_agree(
    field: Grid,
    tiles: Seq<Tile>,
    a: Seq<(usize, usize)>,
    b: Seq<(usize, usize)>,
    k: int,
)
    requires
        agree(a, b, k),
    ensures
        remaining(field, tiles, a, k) == remaining(field, tiles, b, k),
    decreases k,
{
    if k > 0 {
        assert(a[k - 1] == b[k - 1]);
        lemma_remaining_agree(field, tiles, a, b, k - 1);
    }
}

/// Keys of positions inside the field lie in `0 ..= rows * cols`.
proof fn lemma_key_bound(row: int, col: int, rows: int, cols: int)
    requires
        0 <= row < rows,
        0 <= col <= cols,
    ensures
        0 <= row * cols + col <= rows * cols,
{
    assert(0 <= row * cols + col <= rows * cols) by (nonlinear_arith)
        requires
            0 <= row < rows,
            0 <= col <= cols,
    ;
}

/// A later row starts no earlier in the scan.
proof fn lemma_row_start_order(r1: int, r2: int, c2: int, w: int)
    requires
        0 <= r1 <= r2,
        0 <= c2,
        0 <= w,
    ensures
        r1 * w <= r2 * w + c2,
{
    assert(r1 * w <= r2 * w) by (nonlinear_arith)
        requires
            0 <= r1 <= r2,
            0 <= w,
    ;
}

/// The digits of a stack whose levels all stand inside the field lie below
/// the base `rows * cols + 2`.
proof fn lemma_digits_range(stack: Seq<Frame>, sp: int, rows: int, cols: int)
    requires
        0 <= sp < stack.len(),
        0 <= rows,
        0 <= cols,
        forall|k: int| 0 <= k <= sp ==> #[trigger] stack[k].row < rows && stack[k].col <= cols,
    ensures
        forall|k: int|
            0 <= k < stack.len() ==> 0 <= #[trigger] digits(stack, sp, cols, rows * cols)[k] < rows
                * cols + 2,
{
    assert forall|k: int| 0 <= k < stack.len() implies 0 <= #[trigger] digits(
        stack,
        sp,
        cols,
        rows * cols,
    )[k] < rows * cols + 2 by {
        assert(digits(stack, sp, cols, rows * cols)[k] == digit(stack, sp, k, cols, rows * cols));
        if k <= sp {
            lemma_key_bound(stack[k].row as int, stack[k].col as int, rows, cols);
        } else {
            assert(0 <= rows * cols) by (nonlinear_arith)
                requires
                    0 <= rows,
                    0 <= cols,
            ;
        }
    }
}

proof fn lemma_small_product(a: int, b: int)
    requires
        0 <= a <= 8,
        0 <= b < 8,
    ensures
        0 <= a * b < 64,
        a * b == b * a,
{
    assert(0 <= a * b < 64 && a * b == b * a) by (nonlinear_arith)
        requires
            0 <= a <= 8,
            0 <= b < 8,
    ;
}

} // verus!
