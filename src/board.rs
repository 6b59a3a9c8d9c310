use vstd::prelude::*;
use crate::block::{
    Block, BlockShape, Cell, board_view, cell_valid, in_bounds, occupied, on_grid,
    BOARD_CELL_HEIGHT, BOARD_CELL_WIDTH, CELL_BORDER, CELL_SIZE, COORD_LIMIT, cells,
};

verus! {

/// Vertical position of the (unreachable) row just below the board.
pub open spec fn floor_y() -> int {
    BOARD_CELL_HEIGHT * CELL_SIZE + CELL_BORDER
}

/// Vertical position of a row: that of its first cell.
pub open spec fn row_y(r: Seq<Cell>) -> int {
    r[0].y as int
}

/// Well-formed board: rows are non-empty and share one `y` each, no two rows
/// share a `y`, no two cells of a row share an `x`, and every cell lies on the
/// grid, inside the board, and not absurdly far above it.
pub open spec fn board_wf(b: Seq<Seq<Cell>>) -> bool {
    &&& forall|i: int| 0 <= i < b.len() ==> #[trigger] b[i].len() > 0
    &&& forall|i: int, j: int|
        0 <= i < b.len() && 0 <= j < b[i].len() ==> #[trigger] b[i][j].y == b[i][0].y
    &&& forall|i: int, k: int| 0 <= i < k < b.len() ==> row_y(#[trigger] b[i]) != row_y(#[trigger] b[k])
    &&& forall|i: int, j: int, k: int|
        0 <= i < b.len() && 0 <= j < k < b[i].len() ==> #[trigger] b[i][j].x != #[trigger] b[i][k].x
    &&& forall|i: int, j: int|
        0 <= i < b.len() && 0 <= j < b[i].len() ==> {
            &&& in_bounds(#[trigger] b[i][j])
            &&& on_grid(b[i][j].y as int)
            &&& -2 * COORD_LIMIT <= b[i][j].y
        }
}

/// Number of placed cells.
pub open spec fn total_cells(b: Seq<Seq<Cell>>) -> nat
    decreases b.len(),
{
    if b.len() == 0 {
        0
    } else {
        total_cells(b.drop_last()) + b.last().len()
    }
}

/// Every placed cell, row by row.
pub open spec fn all_cells(b: Seq<Seq<Cell>>) -> Seq<Cell>
    decreases b.len(),
{
    if b.len() == 0 {
        seq![]
    } else {
        all_cells(b.drop_last()) + b.last()
    }
}

/// The board with `c` added: to the row at its height, or as a new row.
pub open spec fn insert_cell(b: Seq<Seq<Cell>>, c: Cell) -> Seq<Seq<Cell>> {
    if exists|i: int| 0 <= i < b.len() && row_y(b[i]) == c.y {
        let i = choose|i: int| 0 <= i < b.len() && row_y(b[i]) == c.y;
        b.update(i, b[i].push(c))
    } else {
        b.push(seq![c])
    }
}

/// The board with the cells of `cs` added in order.
pub open spec fn insert_cells(b: Seq<Seq<Cell>>, cs: Seq<Cell>) -> Seq<Seq<Cell>>
    decreases cs.len(),
{
    if cs.len() == 0 {
        b
    } else {
        insert_cell(insert_cells(b, cs.drop_last()), cs.last())
    }
}

proof fn lemma_total_update(b: Seq<Seq<Cell>>, i: int, r: Seq<Cell>)
    requires
        0 <= i < b.len(),
    ensures
        total_cells(b.update(i, r)) == total_cells(b) - b[i].len() + r.len(),
    decreases b.len(),
{
    if i < b.len() - 1 {
        lemma_total_update(b.drop_last(), i, r);
        assert(b.update(i, r).drop_last() =~= b.drop_last().update(i, r));
    } else {
        assert(b.update(i, r).drop_last() =~= b.drop_last());
    }
}

/// Adding a cell that lies inside the board on no placed cell keeps the
/// board well formed and adds one to its count.
proof fn lemma_insert_cell(b: Seq<Seq<Cell>>, c: Cell)
    requires
        board_wf(b),
        cell_valid(c, b),
        on_grid(c.y as int),
        -2 * COORD_LIMIT <= c.y,
    ensures
        board_wf(insert_cell(b, c)),
        total_cells(insert_cell(b, c)) == total_cells(b) + 1,
        forall|x: int, y: int|
            occupied(insert_cell(b, c), x, y) <==> (occupied(b, x, y) || (x == c.x && y == c.y)),
{
    let nb = insert_cell(b, c);
    if exists|i: int| 0 <= i < b.len() && row_y(b[i]) == c.y {
        let i = choose|i: int| 0 <= i < b.len() && row_y(b[i]) == c.y;
        lemma_total_update(b, i, b[i].push(c));
        assert forall|i2: int, j: int, k: int|
            0 <= i2 < nb.len() && 0 <= j < k < nb[i2].len() implies #[trigger] nb[i2][j].x
            != #[trigger] nb[i2][k].x by {
            if i2 == i && k == b[i].len() {
                assert(b[i][j].y == c.y);
                assert(!(b[i][j].x == c.x && b[i][j].y == c.y));
            }
        }
        assert forall|x: int, y: int|
            occupied(nb, x, y) <==> (occupied(b, x, y) || (x == c.x && y == c.y)) by {
            if occupied(nb, x, y) {
                let (i2, j) = choose|i2: int, j: int|
                    0 <= i2 < nb.len() && 0 <= j < nb[i2].len() && #[trigger] nb[i2][j].x == x
                        && nb[i2][j].y == y;
                if !(i2 == i && j == b[i].len()) {
                    assert(b[i2][j] == nb[i2][j]);
                }
            }
            if occupied(b, x, y) {
                let (i2, j) = choose|i2: int, j: int|
                    0 <= i2 < b.len() && 0 <= j < b[i2].len() && #[trigger] b[i2][j].x == x
                        && b[i2][j].y == y;
                assert(nb[i2][j] == b[i2][j]);
            }
            if x == c.x && y == c.y {
                assert(nb[i][b[i].len() as int] == c);
            }
        }
    } else {
        assert(nb.drop_last() =~= b);
        assert forall|x: int, y: int|
            occupied(nb, x, y) <==> (occupied(b, x, y) || (x == c.x && y == c.y)) by {
            if occupied(nb, x, y) {
                let (i2, j) = choose|i2: int, j: int|
                    0 <= i2 < nb.len() && 0 <= j < nb[i2].len() && #[trigger] nb[i2][j].x == x
                        && nb[i2][j].y == y;
                if i2 < b.len() {
                    assert(b[i2][j] == nb[i2][j]);
                }
            }
            if occupied(b, x, y) {
                let (i2, j) = choose|i2: int, j: int|
                    0 <= i2 < b.len() && 0 <= j < b[i2].len() && #[trigger] b[i2][j].x == x
                        && b[i2][j].y == y;
                assert(nb[i2][j] == b[i2][j]);
            }
            if x == c.x && y == c.y {
                assert(nb[b.len() as int][0] == c);
            }
        }
    }
}

/// Adds `cell` to the row at its height, or starts a new row.
fn place_cell(placed_cells: &mut Vec<Vec<Cell>>, cell: Cell)
    requires
        board_wf(board_view(old(placed_cells))),
    ensures
        board_view(final(placed_cells)) == insert_cell(board_view(old(placed_cells)), cell),
{
    let ghost b = board_view(placed_cells);
    let mut i: usize = 0;
    while i < placed_cells.len() && placed_cells[i][0].y != cell.y
        invariant
            0 <= i <= placed_cells.len(),
            b == board_view(placed_cells),
            board_wf(b),
            forall|i2: int| 0 <= i2 < i ==> row_y(#[trigger] b[i2]) != cell.y,
            forall|i2: int| 0 <= i2 < placed_cells.len() ==> #[trigger] placed_cells@[i2]@ == b[i2],
        decreases placed_cells.len() - i,
    {
        i += 1;
    }
    if i < placed_cells.len() {
        proof {
            assert(placed_cells[i as int]@ == b[i as int]);
            assert(forall|i2: int| 0 <= i2 < b.len() && row_y(b[i2]) == cell.y ==> i2 == i);
            assert(row_y(b[i as int]) == cell.y);
            let j = choose|j: int| 0 <= j < b.len() && row_y(b[j]) == cell.y;
            assert(j == i);
        }
        placed_cells[i].push(cell);
        assert(board_view(placed_cells) =~= b.update(i as int, b[i as int].push(cell)));
    } else {
        let row = vec![cell];
        assert(row@ =~= seq![cell]);
        placed_cells.push(row);
        assert(board_view(placed_cells) =~= b.push(seq![cell]));
    }
}

/// Adding the first `k` cells of a piece that may stand on a well-formed
/// board keeps it well formed, adds `k` to its count, and leaves the other
/// cells free to stand on it.
proof fn lemma_place_prefix(b: Seq<Seq<Cell>>, p: Block, k: int)
    requires
        board_wf(b),
        p.wf(),
        p.valid_on(b),
        0 <= k <= 4,
    ensures
        board_wf(insert_cells(b, p.cells@.take(k))),
        total_cells(insert_cells(b, p.cells@.take(k))) == total_cells(b) + k,
        insert_cells(b, p.cells@.take(k)).len() <= b.len() + k,
        forall|m: int| k <= m < 4 ==> #[trigger] cell_valid(p.cells[m], insert_cells(b, p.cells@.take(k))),
    decreases k,
{
    if k == 0 {
        assert(p.cells@.take(0) =~= Seq::<Cell>::empty());
        assert forall|m: int| k <= m < 4 implies #[trigger] cell_valid(
            p.cells[m],
            insert_cells(b, p.cells@.take(k)),
        ) by {
            assert(cell_valid(p.cells@[m], b));
        }
    } else {
        lemma_place_prefix(b, p, k - 1);
        let before = insert_cells(b, p.cells@.take(k - 1));
        let c = p.cells[k - 1];
        crate::block::lemma_cells_on_grid_above(p);
        assert(p.cells@.take(k).drop_last() =~= p.cells@.take(k - 1));
        assert(p.cells@.take(k).last() == c);
        lemma_insert_cell(before, c);
        assert forall|m: int| k <= m < 4 implies #[trigger] cell_valid(
            p.cells[m],
            insert_cell(before, c),
        ) by {
            assert(cell_valid(p.cells[m], before));
            assert(p.cells[m].x != c.x || p.cells[m].y != c.y);
        }
    }
}

/// Adds the four cells of a piece to the board, each to the row at its height.
pub fn place_block(block: &Block, placed_cells: &mut Vec<Vec<Cell>>)
    requires
        block.wf(),
        board_wf(board_view(old(placed_cells))),
        block.valid_on(board_view(old(placed_cells))),
    ensures
        board_view(final(placed_cells)) == insert_cells(board_view(old(placed_cells)), block.cells@),
        board_wf(board_view(final(placed_cells))),
        total_cells(board_view(final(placed_cells))) == total_cells(board_view(old(placed_cells))) + 4,
        final(placed_cells).len() <= old(placed_cells).len() + 4,
{
    let ghost b0 = board_view(placed_cells);
    let mut k: usize = 0;
    while k < 4
        invariant
            0 <= k <= 4,
            block.wf(),
            board_wf(b0),
            block.valid_on(b0),
            board_view(placed_cells) == insert_cells(b0, block.cells@.take(k as int)),
        decreases 4 - k,
    {
        proof {
            lemma_place_prefix(b0, *block, k as int);
            assert(block.cells@.take(k + 1).drop_last() =~= block.cells@.take(k as int));
        }
        place_cell(placed_cells, block.cells[k]);
        k += 1;
    }
    proof {
        lemma_place_prefix(b0, *block, 4);
    }
    assert(block.cells@.take(4) =~= block.cells@);
}

/// A row holds as many cells as the board is wide.
pub open spec fn row_full(r: Seq<Cell>) -> bool {
    r.len() == BOARD_CELL_WIDTH
}

/// Number of full rows of `b`.
pub open spec fn full_count(b: Seq<Seq<Cell>>) -> nat
    decreases b.len(),
{
    if b.len() == 0 {
        0
    } else {
        full_count(b.drop_last()) + if row_full(b.last()) {
            1nat
        } else {
            0nat
        }
    }
}

/// Number of full rows of `b` strictly between heights `lo` and `hi`.
pub open spec fn full_between(b: Seq<Seq<Cell>>, lo: int, hi: int) -> nat
    decreases b.len(),
{
    if b.len() == 0 {
        0
    } else {
        full_between(b.drop_last(), lo, hi) + if row_full(b.last()) && lo < row_y(b.last()) < hi {
            1nat
        } else {
            0nat
        }
    }
}

/// Number of full rows of `b` at height `v`.
pub open spec fn full_at(b: Seq<Seq<Cell>>, v: int) -> nat
    decreases b.len(),
{
    if b.len() == 0 {
        0
    } else {
        full_at(b.drop_last(), v) + if row_full(b.last()) && row_y(b.last()) == v {
            1nat
        } else {
            0nat
        }
    }
}

/// Number of full rows of `b` below height `y` (y grows downwards).
pub open spec fn full_rows_below(b: Seq<Seq<Cell>>, y: int) -> nat {
    full_between(b, y, floor_y())
}

/// The row `r` moved down by `n` spans.
pub open spec fn lowered(r: Seq<Cell>, n: int) -> Seq<Cell> {
    r.map_values(|c: Cell| Cell { y: (c.y + n * CELL_SIZE) as i64, ..c })
}

/// The rows of `b` that are not full, in order, each moved down by the
/// number of full rows of `all` below it.
pub open spec fn clear_rows(b: Seq<Seq<Cell>>, all: Seq<Seq<Cell>>) -> Seq<Seq<Cell>>
    decreases b.len(),
{
    if b.len() == 0 {
        seq![]
    } else if row_full(b.last()) {
        clear_rows(b.drop_last(), all)
    } else {
        clear_rows(b.drop_last(), all).push(lowered(b.last(), full_rows_below(all, row_y(b.last())) as int))
    }
}

/// The board after its full rows are removed and the rows above them settle.
pub open spec fn cleared(b: Seq<Seq<Cell>>) -> Seq<Seq<Cell>> {
    clear_rows(b, b)
}

/// The rows of `b` lie on the grid at pairwise different heights.
pub open spec fn rows_apart(b: Seq<Seq<Cell>>) -> bool {
    &&& forall|i: int| 0 <= i < b.len() ==> on_grid(row_y(#[trigger] b[i]))
    &&& forall|i: int, k: int| 0 <= i < k < b.len() ==> row_y(#[trigger] b[i]) != row_y(#[trigger] b[k])
}

/// Two heights on the grid are a whole span apart at least.
proof fn lemma_grid_gap(a: int, b: int)
    requires
        on_grid(a),
        on_grid(b),
        a < b,
    ensures
        a + CELL_SIZE <= b,
{
    let qa = (a - CELL_BORDER) / (CELL_SIZE as int);
    let qb = (b - CELL_BORDER) / (CELL_SIZE as int);
    assert(a - CELL_BORDER == 30 * qa);
    assert(b - CELL_BORDER == 30 * qb);
    assert(qa < qb) by (nonlinear_arith)
        requires
            30 * qa < 30 * qb,
    ;
}

/// The full rows between `lo` and `hi` are those between `lo` and `mid`, at
/// `mid`, and between `mid` and `hi`.
proof fn lemma_full_between_split(b: Seq<Seq<Cell>>, lo: int, mid: int, hi: int)
    requires
        lo < mid < hi,
    ensures
        full_between(b, lo, hi) == full_between(b, lo, mid) + full_at(b, mid) + full_between(
            b,
            mid,
            hi,
        ),
    decreases b.len(),
{
    if b.len() > 0 {
        lemma_full_between_split(b.drop_last(), lo, mid, hi);
    }
}

/// No row strictly between `lo` and `hi`: no full row there either.
proof fn lemma_full_between_none(b: Seq<Seq<Cell>>, lo: int, hi: int)
    requires
        forall|i: int| 0 <= i < b.len() ==> !(lo < row_y(#[trigger] b[i]) < hi),
    ensures
        full_between(b, lo, hi) == 0,
    decreases b.len(),
{
    if b.len() > 0 {
        assert(!(lo < row_y(b[b.len() - 1]) < hi));
        lemma_full_between_none(b.drop_last(), lo, hi);
    }
}

/// No full row at height `v`.
proof fn lemma_full_at_none(b: Seq<Seq<Cell>>, v: int)
    requires
        forall|i: int| 0 <= i < b.len() ==> !(row_full(#[trigger] b[i]) && row_y(b[i]) == v),
    ensures
        full_at(b, v) == 0,
    decreases b.len(),
{
    if b.len() > 0 {
        assert(!(row_full(b[b.len() - 1]) && row_y(b[b.len() - 1]) == v));
        lemma_full_at_none(b.drop_last(), v);
    }
}

/// With rows at different heights, at most one full row stands at `v`.
proof fn lemma_full_at_le_one(b: Seq<Seq<Cell>>, v: int)
    requires
        rows_apart(b),
    ensures
        full_at(b, v) <= 1,
    decreases b.len(),
{
    if b.len() > 0 {
        let d = b.drop_last();
        if row_full(b.last()) && row_y(b.last()) == v {
            assert forall|i: int| 0 <= i < d.len() implies !(row_full(#[trigger] d[i]) && row_y(d[i])
                == v) by {
                assert(row_y(b[i]) != row_y(b[b.len() - 1]));
            }
            lemma_full_at_none(d, v);
        } else {
            lemma_full_at_le_one(d, v);
        }
    }
}

/// Between two heights on the grid there is room for one full row per span,
/// the ends excluded.
proof fn lemma_full_between_bound(b: Seq<Seq<Cell>>, lo: int, hi: int)
    requires
        rows_apart(b),
        on_grid(lo),
        on_grid(hi),
        lo < hi,
    ensures
        full_between(b, lo, hi) * CELL_SIZE <= hi - lo - CELL_SIZE,
    decreases hi - lo,
{
    lemma_grid_gap(lo, hi);
    if hi - lo == CELL_SIZE {
        assert forall|i: int| 0 <= i < b.len() implies !(lo < row_y(#[trigger] b[i]) < hi) by {
            if lo < row_y(b[i]) {
                lemma_grid_gap(lo, row_y(b[i]));
            }
        }
        lemma_full_between_none(b, lo, hi);
    } else {
        let mid = hi - CELL_SIZE;
        assert(on_grid(mid));
        lemma_full_between_split(b, lo, mid, hi);
        assert forall|i: int| 0 <= i < b.len() implies !(mid < row_y(#[trigger] b[i]) < hi) by {
            if mid < row_y(b[i]) {
                lemma_grid_gap(mid, row_y(b[i]));
            }
        }
        lemma_full_between_none(b, mid, hi);
        lemma_full_at_le_one(b, mid);
        lemma_full_between_bound(b, lo, mid);
    }
}

proof fn lemma_wf_rows_apart(b: Seq<Seq<Cell>>)
    requires
        board_wf(b),
    ensures
        rows_apart(b),
{
    assert forall|i: int| 0 <= i < b.len() implies on_grid(row_y(#[trigger] b[i])) by {
        assert(on_grid(b[i][0].y as int));
    }
}

/// A row of a well-formed board, moved down by the full rows below it, is
/// still inside the board.
proof fn lemma_lowered_in_board(b: Seq<Seq<Cell>>, i: int)
    requires
        board_wf(b),
        0 <= i < b.len(),
    ensures
        row_y(b[i]) + full_rows_below(b, row_y(b[i])) * CELL_SIZE + CELL_SIZE <= floor_y(),
{
    lemma_wf_rows_apart(b);
    assert(in_bounds(b[i][0]));
    assert(on_grid(floor_y())) by {
        assert(floor_y() == 603);
    }
    lemma_full_between_bound(b, row_y(b[i]), floor_y());
}

/// Two rows that stay, moved down by the full rows below each, keep their
/// order: the upper one stays above the lower one.
proof fn lemma_lowered_apart(b: Seq<Seq<Cell>>, i: int, k: int)
    requires
        board_wf(b),
        0 <= i < b.len(),
        0 <= k < b.len(),
        !row_full(b[k]),
        row_y(b[i]) < row_y(b[k]),
    ensures
        row_y(b[i]) + full_rows_below(b, row_y(b[i])) * CELL_SIZE < row_y(b[k]) + full_rows_below(
            b,
            row_y(b[k]),
        ) * CELL_SIZE,
{
    lemma_wf_rows_apart(b);
    let y1 = row_y(b[i]);
    let y2 = row_y(b[k]);
    assert(in_bounds(b[k][0]));
    lemma_full_between_split(b, y1, y2, floor_y());
    assert forall|m: int| 0 <= m < b.len() implies !(row_full(#[trigger] b[m]) && row_y(b[m]) == y2) by {
        if m != k {
            if m < k {
                assert(row_y(b[m]) != row_y(b[k]));
            } else {
                assert(row_y(b[k]) != row_y(b[m]));
            }
        }
    }
    lemma_full_at_none(b, y2);
    lemma_full_between_bound(b, y1, y2);
}

/// Moving a row down by whole spans keeps it on the grid.
proof fn lemma_grid_lower(v: int, n: int)
    requires
        on_grid(v),
    ensures
        on_grid(v + n * CELL_SIZE),
{
    vstd::arithmetic::div_mod::lemma_mod_multiples_vanish(n, v - CELL_BORDER, CELL_SIZE as int);
    assert(v + n * CELL_SIZE - CELL_BORDER == (CELL_SIZE as int) * n + (v - CELL_BORDER)) by (nonlinear_arith);
}

/// The rows kept from the first `n` rows of a well-formed board are each a
/// row of it that is not full, moved down by the full rows below it, and
/// together form a well-formed board.
/// `r` is a row among the first `n` of `b` that is not full, moved down by
/// the full rows below it.
pub open spec fn kept_from(r: Seq<Cell>, b: Seq<Seq<Cell>>, n: int) -> bool {
    exists|i: int|
        0 <= i < n && !row_full(b[i]) && r == lowered(b[i], full_rows_below(b, row_y(b[i])) as int)
}

/// The rows kept from the first `n` rows of a well-formed board each come
/// from a row of it that is not full, and together form a well-formed board.
#[verifier::spinoff_prover]
proof fn lemma_clear_prefix(b: Seq<Seq<Cell>>, n: int)
    requires
        board_wf(b),
        0 <= n <= b.len(),
    ensures
        board_wf(clear_rows(b.take(n), b)),
        forall|k: int|
            0 <= k < clear_rows(b.take(n), b).len() ==> kept_from(
                #[trigger] clear_rows(b.take(n), b)[k],
                b,
                n,
            ),
    decreases n,
{
    if n == 0 {
        assert(b.take(0) =~= Seq::<Seq<Cell>>::empty());
    } else {
        lemma_clear_prefix(b, n - 1);
        let t = b.take(n);
        assert(t.drop_last() =~= b.take(n - 1));
        assert(t.last() == b[n - 1]);
        let prev = clear_rows(b.take(n - 1), b);
        if !row_full(b[n - 1]) {
            let i = n - 1;
            let d = full_rows_below(b, row_y(b[i])) as int;
            let r = lowered(b[i], d);
            let nb = prev.push(r);
            assert(nb == clear_rows(t, b));
            lemma_lowered_in_board(b, i);
            assert(b[i].len() > 0);
            assert(on_grid(b[i][0].y as int));
            lemma_grid_lower(row_y(b[i]), d);
            assert forall|j: int| 0 <= j < r.len() implies #[trigger] r[j].y == row_y(b[i]) + d
                * CELL_SIZE && r[j].x == b[i][j].x by {
                assert(b[i][j].y == b[i][0].y);
            }
            assert forall|k: int| 0 <= k < prev.len() implies row_y(#[trigger] prev[k]) != row_y(r) by {
                assert(kept_from(prev[k], b, n - 1));
                let i2 = choose|i2: int|
                    0 <= i2 < n - 1 && !row_full(b[i2]) && prev[k] == lowered(
                        b[i2],
                        full_rows_below(b, row_y(b[i2])) as int,
                    );
                let d2 = full_rows_below(b, row_y(b[i2])) as int;
                lemma_lowered_in_board(b, i2);
                assert(b[i2].len() > 0);
                assert(prev[k][0].y == b[i2][0].y + d2 * CELL_SIZE);
                assert(row_y(b[i2]) != row_y(b[i]));
                if row_y(b[i2]) < row_y(b[i]) {
                    lemma_lowered_apart(b, i2, i);
                } else {
                    lemma_lowered_apart(b, i, i2);
                }
            }
            assert forall|k: int| 0 <= k < nb.len() implies kept_from(#[trigger] nb[k], b, n) by {
                if k < prev.len() {
                    assert(nb[k] == prev[k]);
                    assert(kept_from(prev[k], b, n - 1));
                } else {
                    assert(nb[k] == r);
                    assert(0 <= i < n && !row_full(b[i]) && r == lowered(
                        b[i],
                        full_rows_below(b, row_y(b[i])) as int,
                    ));
                }
            }
            assert forall|i2: int, k: int| 0 <= i2 < k < nb.len() implies row_y(#[trigger] nb[i2]) != row_y(
                #[trigger] nb[k],
            ) by {
                if k == prev.len() {
                    assert(nb[i2] == prev[i2]);
                } else {
                    assert(nb[i2] == prev[i2]);
                    assert(nb[k] == prev[k]);
                }
            }
            assert forall|i2: int, j: int|
                0 <= i2 < nb.len() && 0 <= j < nb[i2].len() implies {
                &&& in_bounds(#[trigger] nb[i2][j])
                &&& on_grid(nb[i2][j].y as int)
                &&& -2 * COORD_LIMIT <= nb[i2][j].y
            } by {
                if i2 < prev.len() {
                    assert(nb[i2] == prev[i2]);
                } else {
                    assert(in_bounds(b[i][j]));
                    assert(-2 * COORD_LIMIT <= b[i][j].y);
                }
            }
        } else {
            assert(prev == clear_rows(t, b));
            assert forall|k: int| 0 <= k < prev.len() implies kept_from(#[trigger] prev[k], b, n) by {
                assert(kept_from(prev[k], b, n - 1));
            }
        }
    }
}

/// Clearing removes the cells of the full rows and keeps all the others.
proof fn lemma_total_clear(b: Seq<Seq<Cell>>, all: Seq<Seq<Cell>>)
    ensures
        total_cells(clear_rows(b, all)) + BOARD_CELL_WIDTH * full_count(b) == total_cells(b),
    decreases b.len(),
{
    if b.len() > 0 {
        lemma_total_clear(b.drop_last(), all);
        let prev = clear_rows(b.drop_last(), all);
        if !row_full(b.last()) {
            let r = lowered(b.last(), full_rows_below(all, row_y(b.last())) as int);
            assert(prev.push(r).drop_last() =~= prev);
        }
    }
}

/// Number of full rows of the board below height `y`.
fn count_full_below(placed_cells: &Vec<Vec<Cell>>, y: i64) -> (r: usize)
    ensures
        r == full_rows_below(board_view(placed_cells), y as int),
        r <= placed_cells.len(),
{
    let ghost b = board_view(placed_cells);
    let floor = cells(BOARD_CELL_HEIGHT) + CELL_BORDER;
    let mut n: usize = 0;
    let mut j: usize = 0;
    while j < placed_cells.len()
        invariant
            0 <= j <= placed_cells.len(),
            b == board_view(placed_cells),
            floor == floor_y(),
            n == full_between(b.take(j as int), y as int, floor_y()),
            n <= j,
        decreases placed_cells.len() - j,
    {
        proof {
            assert(b.take(j + 1).drop_last() =~= b.take(j as int));
            assert(b.take(j + 1).last() == b[j as int]);
        }
        let row = &placed_cells[j];
        if row.len() == BOARD_CELL_WIDTH as usize && y < row[0].y && row[0].y < floor {
            n += 1;
        }
        j += 1;
    }
    assert(b.take(placed_cells.len() as int) =~= b);
    n
}

/// The row moved down by `n` spans.
fn lower_row(row: &Vec<Cell>, n: usize) -> (r: Vec<Cell>)
    requires
        forall|j: int|
            0 <= j < row.len() ==> -2 * COORD_LIMIT <= #[trigger] row@[j].y && row@[j].y + n * CELL_SIZE
                <= floor_y(),
    ensures
        r@ == lowered(row@, n as int),
{
    let mut out: Vec<Cell> = Vec::new();
    let mut j: usize = 0;
    while j < row.len()
        invariant
            0 <= j <= row.len(),
            out@ == lowered(row@.take(j as int), n as int),
            forall|j2: int|
                0 <= j2 < row.len() ==> -2 * COORD_LIMIT <= #[trigger] row@[j2].y && row@[j2].y + n
                    * CELL_SIZE <= floor_y(),
        decreases row.len() - j,
    {
        let c = row[j];
        assert(c.y + n * CELL_SIZE <= floor_y());
        assert(n * CELL_SIZE <= floor_y() + 2 * COORD_LIMIT) by (nonlinear_arith)
            requires
                c.y + n * CELL_SIZE <= floor_y(),
                -2 * COORD_LIMIT <= c.y,
        ;
        let drop = n as i64 * CELL_SIZE;
        out.push(Cell { y: c.y + drop, ..c });
        proof {
            assert(out@ =~= lowered(row@.take(j + 1), n as int));
        }
        j += 1;
    }
    assert(row@.take(row.len() as int) =~= row@);
    out
}

/// Removes every full row and moves each remaining row down by the number of
/// full rows below it; adds the cleared lines and their points to the score.
pub fn clear_filled_lines(placed_cells: &mut Vec<Vec<Cell>>, score: &mut Score)
    requires
        board_wf(board_view(old(placed_cells))),
        old(score).points + 1000 <= usize::MAX,
        old(score).lines + old(placed_cells).len() <= usize::MAX,
    ensures
        board_view(final(placed_cells)) == cleared(board_view(old(placed_cells))),
        board_wf(board_view(final(placed_cells))),
        total_cells(board_view(final(placed_cells))) + BOARD_CELL_WIDTH * full_count(
            board_view(old(placed_cells)),
        ) == total_cells(board_view(old(placed_cells))),
        final(score).lines == old(score).lines + full_count(board_view(old(placed_cells))),
        final(score).points == old(score).points + points_for(
            full_count(board_view(old(placed_cells))) as int,
        ),
        final(score).counts == old(score).counts,
{
    let ghost b = board_view(placed_cells);
    let mut kept: Vec<Vec<Cell>> = Vec::new();
    let mut lines_cleared: usize = 0;
    let mut i: usize = 0;
    while i < placed_cells.len()
        invariant
            0 <= i <= placed_cells.len(),
            b == board_view(placed_cells),
            board_wf(b),
            board_view(&kept) == clear_rows(b.take(i as int), b),
            lines_cleared == full_count(b.take(i as int)),
            lines_cleared <= i,
        decreases placed_cells.len() - i,
    {
        proof {
            assert(b.take(i + 1).drop_last() =~= b.take(i as int));
            assert(b.take(i + 1).last() == b[i as int]);
            assert(placed_cells@[i as int]@ == b[i as int]);
        }
        if placed_cells[i].len() == BOARD_CELL_WIDTH as usize {
            lines_cleared += 1;
        } else {
            let drop = count_full_below(placed_cells, placed_cells[i][0].y);
            proof {
                lemma_lowered_in_board(b, i as int);
                assert forall|j: int| 0 <= j < b[i as int].len() implies -2 * COORD_LIMIT
                    <= #[trigger] b[i as int][j].y && b[i as int][j].y + drop * CELL_SIZE
                    <= floor_y() by {
                    assert(b[i as int][j].y == b[i as int][0].y);
                }
            }
            let row = lower_row(&placed_cells[i], drop);
            kept.push(row);
            proof {
                assert(board_view(&kept) =~= clear_rows(b.take(i + 1), b));
            }
        }
        i += 1;
    }
    proof {
        assert(b.take(b.len() as int) =~= b);
        lemma_clear_prefix(b, b.len() as int);
        lemma_total_clear(b, b);
    }
    *placed_cells = kept;
    let points: usize = match lines_cleared {
        1 => 100,
        2 => 200,
        3 => 500,
        4 => 1000,
        _ => 0,
    };
    score.points = score.points + points;
    score.lines = score.lines + lines_cleared;
}

/// No two placed cells share a position.
pub open spec fn positions_distinct(b: Seq<Seq<Cell>>) -> bool {
    forall|i: int, j: int, k: int, m: int|
        0 <= i < b.len() && 0 <= j < b[i].len() && 0 <= k < b.len() && 0 <= m < b[k].len() && (i
            != k || j != m) ==> (#[trigger] b[i][j].x != #[trigger] b[k][m].x || b[i][j].y != b[k][m].y)
}

proof fn lemma_wf_positions_distinct(b: Seq<Seq<Cell>>)
    requires
        board_wf(b),
    ensures
        positions_distinct(b),
{
    assert forall|i: int, j: int, k: int, m: int|
        0 <= i < b.len() && 0 <= j < b[i].len() && 0 <= k < b.len() && 0 <= m < b[k].len() && (i
            != k || j != m) implies (#[trigger] b[i][j].x != #[trigger] b[k][m].x || b[i][j].y
        != b[k][m].y) by {
        assert(b[i][j].y == b[i][0].y);
        assert(b[k][m].y == b[k][0].y);
        if i < k {
            assert(row_y(b[i]) != row_y(b[k]));
        } else if k < i {
            assert(row_y(b[k]) != row_y(b[i]));
        } else if j > m {
            assert(b[i][m].x != b[i][j].x);
        }
    }
}

/// Every row among the first `n` of `b` that is not full is kept.
proof fn lemma_clear_keeps_open_rows(b: Seq<Seq<Cell>>, n: int)
    requires
        0 <= n <= b.len(),
    ensures
        forall|i: int|
            0 <= i < n && !row_full(#[trigger] b[i]) ==> clear_rows(b.take(n), b).contains(
                lowered(b[i], full_rows_below(b, row_y(b[i])) as int),
            ),
        clear_rows(b.take(n), b).len() + full_count(b.take(n)) == n,
    decreases n,
{
    if n > 0 {
        lemma_clear_keeps_open_rows(b, n - 1);
        let t = b.take(n);
        assert(t.drop_last() =~= b.take(n - 1));
        assert(t.last() == b[n - 1]);
        let prev = clear_rows(b.take(n - 1), b);
        assert forall|i: int|
            0 <= i < n && !row_full(#[trigger] b[i]) implies clear_rows(t, b).contains(
            lowered(b[i], full_rows_below(b, row_y(b[i])) as int),
        ) by {
            let r = lowered(b[i], full_rows_below(b, row_y(b[i])) as int);
            if i < n - 1 {
                let k = choose|k: int| 0 <= k < prev.len() && prev[k] == r;
                if !row_full(b[n - 1]) {
                    let last = lowered(b[n - 1], full_rows_below(b, row_y(b[n - 1])) as int);
                    assert(prev.push(last)[k] == r);
                }
            } else {
                assert(clear_rows(t, b).last() == r);
            }
        }
    } else {
        assert(b.take(0) =~= Seq::<Seq<Cell>>::empty());
    }
}

/// Clearing a well-formed board removes exactly the full rows: every row
/// kept is a row that was not full, every row that was not full is kept,
/// each moved down by one span per full row below it, and afterwards no
/// two cells share a position.
pub proof fn lemma_clear_rows_exactly(b: Seq<Seq<Cell>>)
    requires
        board_wf(b),
    ensures
        forall|k: int| 0 <= k < cleared(b).len() ==> kept_from(#[trigger] cleared(b)[k], b, b.len() as int),
        forall|i: int|
            0 <= i < b.len() && !row_full(#[trigger] b[i]) ==> cleared(b).contains(
                lowered(b[i], full_rows_below(b, row_y(b[i])) as int),
            ),
        cleared(b).len() + full_count(b) == b.len(),
        board_wf(cleared(b)),
        positions_distinct(cleared(b)),
{
    assert(b.take(b.len() as int) =~= b);
    lemma_clear_prefix(b, b.len() as int);
    lemma_clear_keeps_open_rows(b, b.len() as int);
    lemma_wf_positions_distinct(cleared(b));
}

/// Locking a piece that may stand on a well-formed board adds its four cells
/// and then takes away the cells of every row that the clear removes.
pub proof fn lemma_lock_count(b: Seq<Seq<Cell>>, p: Block)
    requires
        board_wf(b),
        p.wf(),
        p.valid_on(b),
    ensures
        total_cells(cleared(insert_cells(b, p.cells@))) == total_cells(b) + 4 - BOARD_CELL_WIDTH
            * full_count(insert_cells(b, p.cells@)),
{
    lemma_place_prefix(b, p, 4);
    assert(p.cells@.take(4) =~= p.cells@);
    lemma_total_clear(insert_cells(b, p.cells@), insert_cells(b, p.cells@));
}

/// Points for clearing `lines` rows in one lock.
pub open spec fn points_for(lines: int) -> int {
    if lines == 1 {
        100
    } else if lines == 2 {
        200
    } else if lines == 3 {
        500
    } else if lines == 4 {
        1000
    } else {
        0
    }
}

/// Slot of each shape in the placement counters.
pub open spec fn shape_slot(shape: BlockShape) -> int {
    match shape {
        BlockShape::I => 0,
        BlockShape::J => 1,
        BlockShape::L => 2,
        BlockShape::O => 3,
        BlockShape::S => 4,
        BlockShape::T => 5,
        BlockShape::Z => 6,
    }
}

/// Running totals: points, cleared lines, and pieces locked per shape.
#[derive(Clone, Copy, Debug)]
pub struct Score {
    pub points: usize,
    pub lines: usize,
    pub counts: [usize; 7],
}

impl Score {
    /// The totals at the start of a game.
    pub open spec fn spec_new() -> Score {
        Score { points: 0, lines: 0, counts: [0, 0, 0, 0, 0, 0, 0] }
    }

    /// All totals at zero.
    pub fn new() -> (r: Score)
        ensures
            r == Score::spec_new(),
            r.points == 0,
            r.lines == 0,
            forall|k: int| 0 <= k < 7 ==> #[trigger] r.counts[k] == 0,
    {
        Score { points: 0, lines: 0, counts: [0, 0, 0, 0, 0, 0, 0] }
    }

    /// How many pieces of `shape` have been locked.
    pub fn count(&self, shape: BlockShape) -> (r: usize)
        ensures
            r == self.counts[shape_slot(shape)],
    {
        self.counts[slot_of(shape)]
    }
}

/// Slot of `shape` in the placement counters.
pub fn slot_of(shape: BlockShape) -> (r: usize)
    ensures
        r == shape_slot(shape),
{
    match shape {
        BlockShape::I => 0,
        BlockShape::J => 1,
        BlockShape::L => 2,
        BlockShape::O => 3,
        BlockShape::S => 4,
        BlockShape::T => 5,
        BlockShape::Z => 6,
    }
}

} // verus!
