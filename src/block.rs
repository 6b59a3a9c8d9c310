use vstd::prelude::*;
use vstd::std_specs::iter::IteratorSpec;
use rand::Rng;

verus! {

/// Side of one grid cell, in spatial units.
pub const CELL_SIZE: i64 = 30;

/// Visual inset added to every stored cell position.
pub const CELL_BORDER: i64 = 3;

/// Board width, in cells.
pub const BOARD_CELL_WIDTH: u32 = 10;

/// Board height, in cells.
pub const BOARD_CELL_HEIGHT: u32 = 20;

/// The spatial offset of `n` cells.
pub fn cells(n: u32) -> (r: i64)
    ensures
        r == n * CELL_SIZE,
{
    n as i64 * CELL_SIZE
}

/// A direction in which a piece can be moved.
#[derive(Clone, Copy, Debug, PartialEq, Eq, Structural)]
pub enum Direction {
    Left,
    Right,
    Down,
}

/// The seven piece shapes.
#[derive(Clone, Copy, Debug, PartialEq, Eq, Hash, Structural)]
pub enum BlockShape {
    I,
    J,
    L,
    O,
    S,
    T,
    Z,
}

/// One unit square of the board or of a piece. `shape` is the visual tag
/// (the shape of the piece the cell came from); occupancy is decided by
/// `(x, y)` alone.
#[derive(Clone, Copy, Debug)]
pub struct Cell {
    pub x: i64,
    pub y: i64,
    pub shape: BlockShape,
}

/// The cell obtained by moving `c` one cell span in direction `d`.
pub open spec fn shifted(c: Cell, d: Direction) -> Cell {
    match d {
        Direction::Down => Cell { y: (c.y + CELL_SIZE) as i64, ..c },
        Direction::Left => Cell { x: (c.x - CELL_SIZE) as i64, ..c },
        Direction::Right => Cell { x: (c.x + CELL_SIZE) as i64, ..c },
    }
}

/// Moving `c` in direction `d` stays within the machine integers.
pub open spec fn can_shift(c: Cell, d: Direction) -> bool {
    match d {
        Direction::Down => c.y + CELL_SIZE <= i64::MAX,
        Direction::Left => c.x - CELL_SIZE >= i64::MIN,
        Direction::Right => c.x + CELL_SIZE <= i64::MAX,
    }
}

/// `c` lies inside the board: not left of it, not right of it, not below it.
pub open spec fn in_bounds(c: Cell) -> bool {
    &&& 0 <= c.x
    &&& c.x + CELL_SIZE <= BOARD_CELL_WIDTH * CELL_SIZE + CELL_BORDER
    &&& c.y + CELL_SIZE <= BOARD_CELL_HEIGHT * CELL_SIZE + CELL_BORDER
}

/// Some placed cell of the board `b` stands at `(x, y)`.
pub open spec fn occupied(b: Seq<Seq<Cell>>, x: int, y: int) -> bool {
    exists|i: int, j: int|
        0 <= i < b.len() && 0 <= j < b[i].len() && #[trigger] b[i][j].x == x && b[i][j].y == y
}

/// `c` may stand on the board `b`: inside it and on no placed cell.
pub open spec fn cell_valid(c: Cell, b: Seq<Seq<Cell>>) -> bool {
    in_bounds(c) && !occupied(b, c.x as int, c.y as int)
}

/// The rows of placed cells, as sequences.
pub open spec fn board_view(rows: &Vec<Vec<Cell>>) -> Seq<Seq<Cell>> {
    rows@.map_values(|r: Vec<Cell>| r@)
}

impl Cell {
    /// A cell of the given shape tag whose grid square starts at `(x, y)`.
    pub fn new(x: i64, y: i64, shape: BlockShape) -> (r: Cell)
        requires
            x + CELL_BORDER <= i64::MAX,
            y + CELL_BORDER <= i64::MAX,
        ensures
            r.x == x + CELL_BORDER,
            r.y == y + CELL_BORDER,
            r.shape == shape,
    {
        Cell { x: x + CELL_BORDER, y: y + CELL_BORDER, shape }
    }

    /// Side of the drawn square.
    pub fn size(&self) -> (r: i64)
        ensures
            r == CELL_SIZE - 2 * CELL_BORDER,
    {
        CELL_SIZE - CELL_BORDER * 2
    }

    /// Moves the cell one span in `direction`.
    pub fn move_in_direction(&mut self, direction: Direction)
        requires
            can_shift(*old(self), direction),
        ensures
            *final(self) == shifted(*old(self), direction),
    {
        match direction {
            Direction::Down => self.y = self.y + CELL_SIZE,
            Direction::Left => self.x = self.x - CELL_SIZE,
            Direction::Right => self.x = self.x + CELL_SIZE,
        }
    }

    fn can_move_in_direction(&self, direction: Direction, placed_cells: &Vec<Vec<Cell>>) -> (r:
        bool)
        requires
            can_shift(*self, direction),
        ensures
            r == cell_valid(shifted(*self, direction), board_view(placed_cells)),
    {
        let mut moved = *self;
        moved.move_in_direction(direction);
        moved.valid(placed_cells)
    }

    fn valid(&self, placed_cells: &Vec<Vec<Cell>>) -> (r: bool)
        ensures
            r == cell_valid(*self, board_view(placed_cells)),
    {
        if !(self.x >= 0 && self.x <= cells(BOARD_CELL_WIDTH) + CELL_BORDER - CELL_SIZE && self.y
            <= cells(BOARD_CELL_HEIGHT) + CELL_BORDER - CELL_SIZE) {
            return false;
        }
        let ghost b = board_view(placed_cells);
        let mut i: usize = 0;
        while i < placed_cells.len()
            invariant
                0 <= i <= placed_cells.len(),
                b == board_view(placed_cells),
                forall|i2: int, j: int|
                    0 <= i2 < i && 0 <= j < b[i2].len() ==> !(#[trigger] b[i2][j].x == self.x
                        && b[i2][j].y == self.y),
            decreases placed_cells.len() - i,
        {
            let row = &placed_cells[i];
            let mut j: usize = 0;
            while j < row.len()
                invariant
                    0 <= i < placed_cells.len(),
                    0 <= j <= row.len(),
                    b == board_view(placed_cells),
                    row@ == b[i as int],
                    forall|j2: int| 0 <= j2 < j ==> !(#[trigger] b[i as int][j2].x == self.x
                        && b[i as int][j2].y == self.y),
                decreases row.len() - j,
            {
                if row[j].x == self.x && row[j].y == self.y {
                    return false;
                }
                j += 1;
            }
            i += 1;
        }
        true
    }
}

/// Bound on the coordinates of a piece's reference cell; keeps every
/// position computed while moving or rotating within the machine integers.
pub const COORD_LIMIT: i64 = 1000000000000;

/// `v` lies on the grid: a whole number of cell spans plus the inset.
pub open spec fn on_grid(v: int) -> bool {
    (v - CELL_BORDER) % (CELL_SIZE as int) == 0
}

/// Absolute value.
pub open spec fn abs(v: int) -> int {
    if v < 0 {
        -v
    } else {
        v
    }
}

/// A displacement from the pivot that a cell of a rotating piece may have:
/// a diagonal neighbour, or one or two spans away along a row or a column.
pub open spec fn pivot_offset_ok(dx: int, dy: int) -> bool {
    ||| abs(dx) == CELL_SIZE && abs(dy) == CELL_SIZE
    ||| dy == 0 && (abs(dx) == CELL_SIZE || abs(dx) == 2 * CELL_SIZE)
    ||| dx == 0 && (abs(dy) == CELL_SIZE || abs(dy) == 2 * CELL_SIZE)
}

/// Where a cell at displacement `(dx, dy)` from the pivot goes in one turn.
/// A diagonal neighbour swaps sides along one axis; a cell on the pivot's row
/// or column moves diagonally by its own distance from the pivot.
#[verifier::opaque]
pub open spec fn rotate_offset(dx: int, dy: int) -> (int, int) {
    let s = (abs(if dx == 0 { dy } else { dx }) / (CELL_SIZE as int)) * CELL_SIZE;
    if dx > 0 && dy > 0 {
        (dx - 2 * CELL_SIZE, dy)
    } else if dx > 0 && dy < 0 {
        (dx, dy + 2 * CELL_SIZE)
    } else if dx < 0 && dy < 0 {
        (dx + 2 * CELL_SIZE, dy)
    } else if dx < 0 && dy > 0 {
        (dx, dy - 2 * CELL_SIZE)
    } else if dx < 0 {
        (dx + s, dy - s)
    } else if dx > 0 {
        (dx - s, dy + s)
    } else if dy < 0 {
        (dx + s, dy + s)
    } else if dy > 0 {
        (dx - s, dy - s)
    } else {
        (dx, dy)
    }
}

/// The cell `c` turned once about the pivot cell `o`.
pub open spec fn rotate_about(c: Cell, o: Cell) -> Cell {
    let d = rotate_offset(c.x - o.x, c.y - o.y);
    Cell { x: (o.x + d.0) as i64, y: (o.y + d.1) as i64, shape: c.shape }
}

/// Every cell of `cs` may stand on the board `b`.
pub open spec fn all_valid(cs: Seq<Cell>, b: Seq<Seq<Cell>>) -> bool {
    forall|j: int| 0 <= j < cs.len() ==> #[trigger] cell_valid(cs[j], b)
}

/// Index of the pivot cell of each shape; the square has none.
pub open spec fn pivot_of(shape: BlockShape) -> Option<usize> {
    match shape {
        BlockShape::I => Some(1),
        BlockShape::J => Some(2),
        BlockShape::L => Some(2),
        BlockShape::O => None,
        BlockShape::S => Some(1),
        BlockShape::T => Some(1),
        BlockShape::Z => Some(1),
    }
}

/// The spawn layout of each shape, in cell spans from the spawn point.
pub open spec fn spawn_layout(shape: BlockShape) -> Seq<(int, int)> {
    match shape {
        BlockShape::I => seq![(0, 0), (0, 1), (0, 2), (0, 3)],
        BlockShape::J => seq![(0, 0), (1, 0), (0, 1), (0, 2)],
        BlockShape::L => seq![(0, 0), (1, 0), (1, 1), (1, 2)],
        BlockShape::O => seq![(0, 0), (1, 0), (0, 1), (1, 1)],
        BlockShape::S => seq![(0, 0), (0, 1), (1, 1), (1, 2)],
        BlockShape::T => seq![(0, 0), (0, 1), (1, 1), (0, 2)],
        BlockShape::Z => seq![(1, 0), (0, 1), (1, 1), (0, 2)],
    }
}

/// Spawn points accepted by the piece constructors.
pub open spec fn spawn_point_ok(x: int, y: int) -> bool {
    &&& x % (CELL_SIZE as int) == 0
    &&& y % (CELL_SIZE as int) == 0
    &&& -COORD_LIMIT <= x <= COORD_LIMIT - 3 * CELL_SIZE
    &&& -COORD_LIMIT <= y <= COORD_LIMIT - 3 * CELL_SIZE
}

/// The falling piece: four cells, a shape, and the index of its pivot cell.
#[derive(Clone, Copy, Debug)]
pub struct Block {
    pub shape: BlockShape,
    pub cells: [Cell; 4],
    pub origin_index: Option<usize>,
}

impl Block {
    /// The cell whose position bounds all the others: the pivot, or the first
    /// cell of a square.
    pub open spec fn anchor(&self) -> Cell {
        match self.origin_index {
            Some(i) => self.cells[i as int],
            None => self.cells[0],
        }
    }

    /// `self` is the piece of shape `shape` as spawned at `(x, y)`.
    pub open spec fn spawned_at(&self, shape: BlockShape, x: int, y: int) -> bool {
        &&& self.shape == shape
        &&& self.origin_index == pivot_of(shape)
        &&& forall|j: int|
            0 <= j < 4 ==> {
                &&& #[trigger] self.cells[j].x == x + CELL_BORDER + CELL_SIZE * spawn_layout(shape)[j].0
                &&& self.cells[j].y == y + CELL_BORDER + CELL_SIZE * spawn_layout(shape)[j].1
                &&& self.cells[j].shape == shape
            }
    }

    /// Well-formedness: the pivot matches the shape, the cells are distinct
    /// and on the grid, every cell sits where rotation about the pivot keeps
    /// the piece whole, and the anchor is within `COORD_LIMIT`.
    pub open spec fn wf(&self) -> bool {
        &&& self.origin_index == pivot_of(self.shape)
        &&& forall|j: int|
            0 <= j < 4 ==> on_grid(#[trigger] self.cells[j].x as int) && on_grid(
                self.cells[j].y as int,
            )
        &&& forall|j: int, k: int|
            0 <= j < k < 4 ==> (#[trigger] self.cells[j].x != #[trigger] self.cells[k].x || self.cells[j].y
                != self.cells[k].y)
        &&& -COORD_LIMIT <= self.anchor().x <= COORD_LIMIT
        &&& -COORD_LIMIT <= self.anchor().y <= COORD_LIMIT
        &&& match self.origin_index {
            Some(i) => forall|j: int|
                0 <= j < 4 && j != i ==> pivot_offset_ok(
                    #[trigger] self.cells[j].x - self.cells[i as int].x,
                    self.cells[j].y - self.cells[i as int].y,
                ),
            None => forall|j: int|
                0 <= j < 4 ==> abs(#[trigger] self.cells[j].x - self.cells[0].x) <= CELL_SIZE && abs(
                    self.cells[j].y - self.cells[0].y,
                ) <= CELL_SIZE,
        }
    }

    /// The cells after moving one span in direction `d`.
    pub open spec fn shifted_cells(&self, d: Direction) -> Seq<Cell> {
        self.cells@.map_values(|c: Cell| shifted(c, d))
    }

    /// The cells after one turn about the pivot; the square does not turn.
    pub open spec fn rotated_cells(&self) -> Seq<Cell> {
        match self.origin_index {
            Some(i) => self.cells@.map(
                |j: int, c: Cell| if j == i { c } else { rotate_about(c, self.cells[i as int]) },
            ),
            None => self.cells@,
        }
    }

    /// Every cell of the piece may stand on the board `b`.
    pub open spec fn valid_on(&self, b: Seq<Seq<Cell>>) -> bool {
        all_valid(self.cells@, b)
    }

    /// The cells after an attempt to move in direction `d` on the board `b`:
    /// all moved if every moved cell may stand there, else all as they were.
    pub open spec fn after_move(&self, d: Direction, b: Seq<Seq<Cell>>) -> Seq<Cell> {
        if all_valid(self.shifted_cells(d), b) {
            self.shifted_cells(d)
        } else {
            self.cells@
        }
    }

    /// The cells after an attempt to turn on the board `b`: all turned if
    /// every turned cell may stand there, else all as they were.
    pub open spec fn after_turn(&self, b: Seq<Seq<Cell>>) -> Seq<Cell> {
        if all_valid(self.rotated_cells(), b) {
            self.rotated_cells()
        } else {
            self.cells@
        }
    }

    /// Moving the anchor one span in direction `d` keeps it within `COORD_LIMIT`.
    pub open spec fn shift_in_range(&self, d: Direction) -> bool {
        let a = shifted(self.anchor(), d);
        -COORD_LIMIT <= a.x <= COORD_LIMIT && -COORD_LIMIT <= a.y <= COORD_LIMIT
    }

    /// The cells of the piece.
    pub fn iter_cells(&self) -> (r: std::slice::Iter<'_, Cell>)
        ensures
            r.remaining() == self.cells@.as_ref(),
    {
        (&self.cells).into_iter()
    }

    /// Turns the piece about its pivot if every turned cell may stand on the
    /// board; otherwise leaves it as it is.
    pub fn try_rotate(&mut self, placed_cells: &Vec<Vec<Cell>>)
        requires
            old(self).wf(),
        ensures
            final(self).shape == old(self).shape,
            final(self).origin_index == old(self).origin_index,
            final(self).cells@ == old(self).after_turn(board_view(placed_cells)),
            final(self).wf(),
            old(self).shape == BlockShape::O ==> *final(self) == *old(self),
            final(self).cells@ != old(self).cells@ ==> final(self).valid_on(board_view(placed_cells)),
    {
        let mut rotated = *self;
        rotated.rotate();
        proof {
            if self.shape == BlockShape::O {
                assert(rotated.cells =~= self.cells);
            }
        }
        if rotated.valid(placed_cells) {
            *self = rotated;
        }
    }

    /// Whether every cell of the piece may stand on the board.
    pub fn valid(&self, placed_cells: &Vec<Vec<Cell>>) -> (r: bool)
        ensures
            r == self.valid_on(board_view(placed_cells)),
    {
        let mut k: usize = 0;
        while k < 4
            invariant
                0 <= k <= 4,
                forall|j: int| 0 <= j < k ==> #[trigger] cell_valid(self.cells[j], board_view(placed_cells)),
            decreases 4 - k,
        {
            if !self.cells[k].valid(placed_cells) {
                return false;
            }
            k += 1;
        }
        true
    }

    /// Whether every cell, moved one span in `direction`, may stand on the board.
    pub fn can_move_in_direction(&self, direction: Direction, placed_cells: &Vec<Vec<Cell>>) -> (r:
        bool)
        requires
            self.wf(),
        ensures
            r == all_valid(self.shifted_cells(direction), board_view(placed_cells)),
    {
        proof {
            lemma_offsets_near_pivot(*self);
        }
        let mut k: usize = 0;
        while k < 4
            invariant
                0 <= k <= 4,
                self.wf(),
                forall|j: int|
                    0 <= j < 4 ==> abs(#[trigger] self.cells[j].x - self.anchor().x) <= 2 * CELL_SIZE
                        && abs(self.cells[j].y - self.anchor().y) <= 2 * CELL_SIZE,
                forall|j: int|
                    0 <= j < k ==> #[trigger] cell_valid(
                        self.shifted_cells(direction)[j],
                        board_view(placed_cells),
                    ),
            decreases 4 - k,
        {
            if !self.cells[k].can_move_in_direction(direction, placed_cells) {
                assert(!cell_valid(self.shifted_cells(direction)[k as int], board_view(placed_cells)));
                return false;
            }
            k += 1;
        }
        true
    }

    /// Moves the piece one span in `direction` if every moved cell may stand
    /// on the board; otherwise leaves it as it is.
    pub fn try_move_in_direction(&mut self, direction: Direction, placed_cells: &Vec<Vec<Cell>>)
        requires
            old(self).wf(),
        ensures
            final(self).shape == old(self).shape,
            final(self).origin_index == old(self).origin_index,
            final(self).cells@ == old(self).after_move(direction, board_view(placed_cells)),
            final(self).cells@ == old(self).cells@ || final(self).cells@ == old(self).shifted_cells(
                direction,
            ),
            final(self).wf(),
            final(self).cells@ != old(self).cells@ ==> final(self).valid_on(board_view(placed_cells)),
    {
        if self.can_move_in_direction(direction, placed_cells) {
            proof {
                lemma_valid_shift_in_range(*self, direction, board_view(placed_cells));
            }
            self.move_in_direction(direction);
        }
    }

    /// Moves every cell one span in `direction`, unconditionally.
    pub fn move_in_direction(&mut self, direction: Direction)
        requires
            old(self).wf(),
            old(self).shift_in_range(direction),
        ensures
            final(self).shape == old(self).shape,
            final(self).origin_index == old(self).origin_index,
            final(self).cells@ == old(self).shifted_cells(direction),
            final(self).wf(),
    {
        let ghost before = *self;
        proof {
            lemma_offsets_near_pivot(before);
        }
        let mut c0 = self.cells[0];
        let mut c1 = self.cells[1];
        let mut c2 = self.cells[2];
        let mut c3 = self.cells[3];
        c0.move_in_direction(direction);
        c1.move_in_direction(direction);
        c2.move_in_direction(direction);
        c3.move_in_direction(direction);
        self.cells = [c0, c1, c2, c3];
        assert(self.cells@ =~= before.shifted_cells(direction));
        proof {
            lemma_shift_keeps_wf(before, *self, direction);
        }
    }

    fn i(x: i64, y: i64) -> (r: Block)
        requires
            spawn_point_ok(x as int, y as int),
        ensures
            r.spawned_at(BlockShape::I, x as int, y as int),
            r.wf(),
    {
        Block {
            shape: BlockShape::I,
            origin_index: Some(1),
            cells: [
                Cell::new(x, y, BlockShape::I),
                Cell::new(x, y + cells(1), BlockShape::I),
                Cell::new(x, y + cells(2), BlockShape::I),
                Cell::new(x, y + cells(3), BlockShape::I),
            ],
        }
    }

    fn l(x: i64, y: i64) -> (r: Block)
        requires
            spawn_point_ok(x as int, y as int),
        ensures
            r.spawned_at(BlockShape::L, x as int, y as int),
            r.wf(),
    {
        Block {
            shape: BlockShape::L,
            origin_index: Some(2),
            cells: [
                Cell::new(x, y, BlockShape::L),
                Cell::new(x + cells(1), y, BlockShape::L),
                Cell::new(x + cells(1), y + cells(1), BlockShape::L),
                Cell::new(x + cells(1), y + cells(2), BlockShape::L),
            ],
        }
    }

    fn o(x: i64, y: i64) -> (r: Block)
        requires
            spawn_point_ok(x as int, y as int),
        ensures
            r.spawned_at(BlockShape::O, x as int, y as int),
            r.wf(),
    {
        Block {
            shape: BlockShape::O,
            origin_index: None,
            cells: [
                Cell::new(x, y, BlockShape::O),
                Cell::new(x + cells(1), y, BlockShape::O),
                Cell::new(x, y + cells(1), BlockShape::O),
                Cell::new(x + cells(1), y + cells(1), BlockShape::O),
            ],
        }
    }

    fn j(x: i64, y: i64) -> (r: Block)
        requires
            spawn_point_ok(x as int, y as int),
        ensures
            r.spawned_at(BlockShape::J, x as int, y as int),
            r.wf(),
    {
        Block {
            shape: BlockShape::J,
            origin_index: Some(2),
            cells: [
                Cell::new(x, y, BlockShape::J),
                Cell::new(x + cells(1), y, BlockShape::J),
                Cell::new(x, y + cells(1), BlockShape::J),
                Cell::new(x, y + cells(2), BlockShape::J),
            ],
        }
    }

    fn s(x: i64, y: i64) -> (r: Block)
        requires
            spawn_point_ok(x as int, y as int),
        ensures
            r.spawned_at(BlockShape::S, x as int, y as int),
            r.wf(),
    {
        Block {
            shape: BlockShape::S,
            origin_index: Some(1),
            cells: [
                Cell::new(x, y, BlockShape::S),
                Cell::new(x, y + cells(1), BlockShape::S),
                Cell::new(x + cells(1), y + cells(1), BlockShape::S),
                Cell::new(x + cells(1), y + cells(2), BlockShape::S),
            ],
        }
    }

    fn t(x: i64, y: i64) -> (r: Block)
        requires
            spawn_point_ok(x as int, y as int),
        ensures
            r.spawned_at(BlockShape::T, x as int, y as int),
            r.wf(),
    {
        Block {
            shape: BlockShape::T,
            origin_index: Some(1),
            cells: [
                Cell::new(x, y, BlockShape::T),
                Cell::new(x, y + cells(1), BlockShape::T),
                Cell::new(x + cells(1), y + cells(1), BlockShape::T),
                Cell::new(x, y + cells(2), BlockShape::T),
            ],
        }
    }

    fn z(x: i64, y: i64) -> (r: Block)
        requires
            spawn_point_ok(x as int, y as int),
        ensures
            r.spawned_at(BlockShape::Z, x as int, y as int),
            r.wf(),
    {
        Block {
            shape: BlockShape::Z,
            origin_index: Some(1),
            cells: [
                Cell::new(x + cells(1), y, BlockShape::Z),
                Cell::new(x, y + cells(1), BlockShape::Z),
                Cell::new(x + cells(1), y + cells(1), BlockShape::Z),
                Cell::new(x, y + cells(2), BlockShape::Z),
            ],
        }
    }

    /// The piece of shape `shape` spawned at `(x, y)`.
    pub fn new(shape: BlockShape, x: i64, y: i64) -> (r: Block)
        requires
            spawn_point_ok(x as int, y as int),
        ensures
            r.spawned_at(shape, x as int, y as int),
            r.wf(),
    {
        match shape {
            BlockShape::I => Block::i(x, y),
            BlockShape::J => Block::j(x, y),
            BlockShape::L => Block::l(x, y),
            BlockShape::O => Block::o(x, y),
            BlockShape::S => Block::s(x, y),
            BlockShape::T => Block::t(x, y),
            BlockShape::Z => Block::z(x, y),
        }
    }

    /// Turns the piece once about its pivot; the square does not turn.
    pub fn rotate(&mut self)
        requires
            old(self).wf(),
        ensures
            final(self).shape == old(self).shape,
            final(self).origin_index == old(self).origin_index,
            final(self).cells@ == old(self).rotated_cells(),
            final(self).wf(),
    {
        if self.shape == BlockShape::O {
            return ;
        }
        let i = match self.origin_index {
            Some(i) => i,
            None => return ,
        };
        let origin = self.cells[i];
        let ghost before = *self;
        proof {
            lemma_offsets_near_pivot(before);
            assert(origin == before.anchor());
            assert(abs(before.cells[0].x - origin.x) <= 2 * CELL_SIZE);
            assert(abs(before.cells[1].x - origin.x) <= 2 * CELL_SIZE);
            assert(abs(before.cells[2].x - origin.x) <= 2 * CELL_SIZE);
            assert(abs(before.cells[3].x - origin.x) <= 2 * CELL_SIZE);
        }
        let c0 = if i == 0 { self.cells[0] } else { rotate_cell(self.cells[0], origin) };
        let c1 = if i == 1 { self.cells[1] } else { rotate_cell(self.cells[1], origin) };
        let c2 = if i == 2 { self.cells[2] } else { rotate_cell(self.cells[2], origin) };
        let c3 = if i == 3 { self.cells[3] } else { rotate_cell(self.cells[3], origin) };
        self.cells = [c0, c1, c2, c3];
        assert(self.cells@ =~= before.rotated_cells());
        proof {
            lemma_rotation_keeps_wf(before, *self);
        }
    }
}

/// The shape drawn for a roll in `0..7`.
pub open spec fn shape_for_roll(roll: int) -> BlockShape {
    if roll == 0 {
        BlockShape::I
    } else if roll == 1 {
        BlockShape::L
    } else if roll == 2 {
        BlockShape::O
    } else if roll == 3 {
        BlockShape::J
    } else if roll == 4 {
        BlockShape::S
    } else if roll == 5 {
        BlockShape::T
    } else {
        BlockShape::Z
    }
}

/// Relies on rand's `thread_rng().gen_range(0..7)`: a number in `0..7`.
#[verifier::external_body]
pub(crate) fn random_roll() -> (r: u32)
    ensures
        r < 7,
{
    rand::thread_rng().gen_range(0..7)
}

/// The piece for the roll `roll`, spawned at `(x, y)`.
pub fn block_from_roll(roll: u32, x: i64, y: i64) -> (r: Block)
    requires
        roll < 7,
        spawn_point_ok(x as int, y as int),
    ensures
        r.spawned_at(shape_for_roll(roll as int), x as int, y as int),
        r.wf(),
{
    match roll {
        0 => Block::i(x, y),
        3 => Block::j(x, y),
        1 => Block::l(x, y),
        2 => Block::o(x, y),
        4 => Block::s(x, y),
        5 => Block::t(x, y),
        _ => Block::z(x, y),
    }
}

/// A piece of a uniformly drawn shape, spawned at `(x, y)`.
pub fn random_block(x: i64, y: i64) -> (r: Block)
    requires
        spawn_point_ok(x as int, y as int),
    ensures
        r.spawned_at(r.shape, x as int, y as int),
        r.wf(),
{
    block_from_roll(random_roll(), x, y)
}

/// Where every moved cell of a well-formed piece is inside the board, the
/// moved anchor is within `COORD_LIMIT`.
pub proof fn lemma_valid_shift_in_range(p: Block, d: Direction, b: Seq<Seq<Cell>>)
    requires
        p.wf(),
        all_valid(p.shifted_cells(d), b),
    ensures
        p.shift_in_range(d),
{
    let k: int = match p.origin_index {
        Some(i) => i as int,
        None => 0,
    };
    assert(cell_valid(p.shifted_cells(d)[k], b));
}

/// Moving a well-formed piece keeps it well formed while its anchor stays
/// within `COORD_LIMIT`.
proof fn lemma_shift_keeps_wf(p: Block, q: Block, d: Direction)
    requires
        p.wf(),
        p.shift_in_range(d),
        q.shape == p.shape,
        q.origin_index == p.origin_index,
        q.cells@ == p.shifted_cells(d),
    ensures
        q.wf(),
{
    assert forall|j: int| 0 <= j < 4 implies q.cells[j] == shifted(p.cells[j], d)
        && on_grid(#[trigger] q.cells[j].x as int) && on_grid(q.cells[j].y as int) by {
        assert(q.cells[j] == q.cells@[j]);
        lemma_grid_step(p.cells[j].x as int, 30);
        lemma_grid_step(p.cells[j].x as int, -30);
        lemma_grid_step(p.cells[j].y as int, 30);
    }
    lemma_offsets_near_pivot(p);
}

/// One cell of a piece turned about the pivot `origin`, case by case.
fn rotate_cell(cell: Cell, origin: Cell) -> (r: Cell)
    requires
        abs(cell.x - origin.x) <= 2 * CELL_SIZE,
        abs(cell.y - origin.y) <= 2 * CELL_SIZE,
        -COORD_LIMIT <= origin.x <= COORD_LIMIT,
        -COORD_LIMIT <= origin.y <= COORD_LIMIT,
    ensures
        r == rotate_about(cell, origin),
{
    reveal(rotate_offset);
    let mut c = cell;
    if c.x > origin.x && c.y > origin.y {
        c.x = c.x - cells(2);
        return c;
    } else if c.x > origin.x && c.y < origin.y {
        c.y = c.y + cells(2);
        return c;
    } else if c.x < origin.x && c.y < origin.y {
        c.x = c.x + cells(2);
        return c;
    } else if c.x < origin.x && c.y > origin.y {
        c.y = c.y - cells(2);
        return c;
    }
    // On the pivot's row or column: move diagonally by the distance from it.
    let d = if c.x == origin.x {
        c.y - origin.y
    } else {
        c.x - origin.x
    };
    let scale = (if d < 0 {
        -d
    } else {
        d
    }) / CELL_SIZE;
    let span = scale * CELL_SIZE;
    if c.x < origin.x {
        c.x = c.x + span;
        c.y = c.y - span;
    } else if c.x > origin.x {
        c.x = c.x - span;
        c.y = c.y + span;
    } else if c.y < origin.y {
        c.x = c.x + span;
        c.y = c.y + span;
    } else if c.y > origin.y {
        c.x = c.x - span;
        c.y = c.y - span;
    }
    c
}

/// The displacements a cell of a rotating piece may have, one by one.
proof fn lemma_offset_cases(dx: int, dy: int)
    requires
        pivot_offset_ok(dx, dy),
    ensures
        (dx == 30 && dy == 30) || (dx == 30 && dy == -30) || (dx == -30 && dy == 30) || (dx == -30
            && dy == -30) || (dx == 30 && dy == 0) || (dx == 60 && dy == 0) || (dx == -30 && dy
            == 0) || (dx == -60 && dy == 0) || (dx == 0 && dy == 30) || (dx == 0 && dy == 60) || (
        dx == 0 && dy == -30) || (dx == 0 && dy == -60),
{
}

/// On the allowed displacements one turn is a quarter turn, which maps them
/// to allowed displacements, one to one.
proof fn lemma_rotate_offset(dx: int, dy: int, ex: int, ey: int)
    requires
        pivot_offset_ok(dx, dy),
        pivot_offset_ok(ex, ey),
    ensures
        rotate_offset(dx, dy) == (-dy, dx),
        pivot_offset_ok(-dy, dx),
        (dx != ex || dy != ey) ==> rotate_offset(dx, dy) != rotate_offset(ex, ey),
{
    reveal(rotate_offset);
    lemma_offset_cases(dx, dy);
    lemma_offset_cases(ex, ey);
}

/// `q` is `p` turned once about its pivot.
pub open spec fn is_turn_of(q: Block, p: Block) -> bool {
    &&& q.shape == p.shape
    &&& q.origin_index == p.origin_index
    &&& q.cells@ == p.rotated_cells()
}

/// A cell at an allowed displacement from a pivot within `COORD_LIMIT`
/// turns a quarter turn about it.
proof fn lemma_turn_cell(c: Cell, o: Cell)
    requires
        pivot_offset_ok(c.x - o.x, c.y - o.y),
        -COORD_LIMIT <= o.x <= COORD_LIMIT,
        -COORD_LIMIT <= o.y <= COORD_LIMIT,
    ensures
        rotate_about(c, o).x == o.x - (c.y - o.y),
        rotate_about(c, o).y == o.y + (c.x - o.x),
        rotate_about(c, o).shape == c.shape,
        pivot_offset_ok(rotate_about(c, o).x - o.x, rotate_about(c, o).y - o.y),
{
    let dx = c.x - o.x;
    let dy = c.y - o.y;
    lemma_rotate_offset(dx, dy, dx, dy);
    lemma_offset_cases(dx, dy);
}

/// Rotation has order four: turning a well-formed piece four times brings
/// every cell back to its original position (the square never moves).
#[verifier::spinoff_prover]
pub proof fn lemma_four_turns_restore(p0: Block, p1: Block, p2: Block, p3: Block, p4: Block)
    requires
        p0.wf(),
        is_turn_of(p1, p0),
        is_turn_of(p2, p1),
        is_turn_of(p3, p2),
        is_turn_of(p4, p3),
    ensures
        p4.cells@ == p0.cells@,
{
    match p0.origin_index {
        Some(i) => {
            let o = p0.cells[i as int];
            assert(p1.cells[i as int] == o);
            assert(p2.cells[i as int] == o);
            assert(p3.cells[i as int] == o);
            assert(p4.cells[i as int] == o);
            assert forall|j: int| 0 <= j < 4 && j != i implies #[trigger] p4.cells@[j] == p0.cells@[j] by {
                assert(pivot_offset_ok(p0.cells[j].x - o.x, p0.cells[j].y - o.y));
                assert(p1.cells[j] == rotate_about(p0.cells[j], o));
                lemma_turn_cell(p0.cells[j], o);
                assert(p2.cells[j] == rotate_about(p1.cells[j], o));
                lemma_turn_cell(p1.cells[j], o);
                assert(p3.cells[j] == rotate_about(p2.cells[j], o));
                lemma_turn_cell(p2.cells[j], o);
                assert(p4.cells[j] == rotate_about(p3.cells[j], o));
                lemma_turn_cell(p3.cells[j], o);
            }
            assert(p4.cells@ =~= p0.cells@);
        },
        None => {},
    }
}

/// The cells of a well-formed piece lie on the grid and within twice
/// `COORD_LIMIT` of the origin.
pub proof fn lemma_cells_on_grid_above(p: Block)
    requires
        p.wf(),
    ensures
        forall|j: int|
            0 <= j < 4 ==> on_grid(#[trigger] p.cells[j].y as int) && -2 * COORD_LIMIT <= p.cells[j].y,
{
    lemma_offsets_near_pivot(p);
    assert forall|j: int| 0 <= j < 4 implies on_grid(#[trigger] p.cells[j].y as int) && -2
        * COORD_LIMIT <= p.cells[j].y by {
        assert(abs(p.cells[j].x - p.anchor().x) <= 2 * CELL_SIZE);
        assert(on_grid(p.cells[j].x as int));
    }
}

/// In a well-formed piece every cell is within two spans of the anchor.
proof fn lemma_offsets_near_pivot(p: Block)
    requires
        p.wf(),
    ensures
        forall|j: int|
            0 <= j < 4 ==> abs(#[trigger] p.cells[j].x - p.anchor().x) <= 2 * CELL_SIZE && abs(
                p.cells[j].y - p.anchor().y,
            ) <= 2 * CELL_SIZE,
{
}

proof fn lemma_grid_step(v: int, d: int)
    requires
        on_grid(v),
        d == 0 || d == 30 || d == -30 || d == 60 || d == -60,
    ensures
        on_grid(v + d),
{
}

/// Turning a well-formed piece keeps it well formed.
proof fn lemma_rotation_keeps_wf(p: Block, q: Block)
    requires
        p.wf(),
        q.shape == p.shape,
        q.origin_index == p.origin_index,
        q.cells@ == p.rotated_cells(),
    ensures
        q.wf(),
{
    match p.origin_index {
        Some(i) => {
            let o = p.cells[i as int];
            assert forall|j: int| 0 <= j < 4 && j != i implies pivot_offset_ok(
                #[trigger] q.cells[j].x - q.cells[i as int].x,
                q.cells[j].y - q.cells[i as int].y,
            ) && on_grid(q.cells[j].x as int) && on_grid(q.cells[j].y as int) by {
                assert(q.cells[j] == rotate_about(p.cells[j], o));
                let dx = p.cells[j].x - o.x;
                let dy = p.cells[j].y - o.y;
                lemma_rotate_offset(dx, dy, dx, dy);
                lemma_offset_cases(rotate_offset(dx, dy).0, rotate_offset(dx, dy).1);
                lemma_grid_step(o.x as int, rotate_offset(dx, dy).0);
                lemma_grid_step(o.y as int, rotate_offset(dx, dy).1);
            }
            assert(q.cells[i as int] == o);
            assert forall|j: int, k: int| 0 <= j < k < 4 implies (#[trigger] q.cells[j].x
                != #[trigger] q.cells[k].x || q.cells[j].y != q.cells[k].y) by {
                if j != i {
                    assert(q.cells[j] == rotate_about(p.cells[j], o));
                    lemma_turn_cell(p.cells[j], o);
                }
                if k != i {
                    assert(q.cells[k] == rotate_about(p.cells[k], o));
                    lemma_turn_cell(p.cells[k], o);
                }
            }
        },
        None => {
            assert(q.cells@ == p.cells@);
            assert(q.cells == p.cells);
        },
    }
}

} // verus!
