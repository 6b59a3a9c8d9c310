use vstd::prelude::*;
use crate::block::{
    Block, BlockShape, Cell, Direction, all_valid, block_from_roll, board_view, cells,
    lemma_valid_shift_in_range, random_roll, shape_for_roll, CELL_SIZE,
};
use crate::board::{
    Score, all_cells, board_wf, clear_filled_lines, cleared, full_count, insert_cells, place_block,
    points_for, shape_slot, slot_of,
};

verus! {

/// Time between two gravity steps, in microseconds.
pub const GRAVITY_INTERVAL: u64 = 500000;

/// The five player actions.
#[derive(Clone, Copy, Debug, PartialEq, Eq, Structural)]
pub enum Action {
    MoveLeft,
    MoveRight,
    SoftDrop,
    Rotate,
    TogglePause,
}

/// The cells of the falling piece after `action` on the board `b`.
pub open spec fn key_effect(p: Block, action: Action, b: Seq<Seq<Cell>>) -> Seq<Cell> {
    match action {
        Action::MoveLeft => p.after_move(Direction::Left, b),
        Action::MoveRight => p.after_move(Direction::Right, b),
        Action::SoftDrop => p.after_move(Direction::Down, b),
        Action::Rotate => p.after_turn(b),
        Action::TogglePause => p.cells@,
    }
}

/// What one key press does: the pause action flips the pause flag; while
/// paused nothing else changes; otherwise the piece moves or turns if it can.
pub open spec fn key_outcome(
    paused0: bool,
    p0: Block,
    b: Seq<Seq<Cell>>,
    action: Action,
    paused1: bool,
    p1: Block,
) -> bool {
    &&& paused1 == if action == Action::TogglePause {
        !paused0
    } else {
        paused0
    }
    &&& p1.shape == p0.shape
    &&& p1.origin_index == p0.origin_index
    &&& paused1 ==> p1 == p0
    &&& !paused1 ==> p1.cells@ == key_effect(p0, action, b)
}

/// Applies one key press to the falling piece.
pub fn handle_key(
    action: Action,
    paused: &mut bool,
    active_block: &mut Block,
    placed_cells: &Vec<Vec<Cell>>,
)
    requires
        old(active_block).wf(),
    ensures
        final(active_block).wf(),
        key_outcome(
            *old(paused),
            *old(active_block),
            board_view(placed_cells),
            action,
            *final(paused),
            *final(active_block),
        ),
{
    if action == Action::TogglePause {
        *paused = !*paused;
    }
    if *paused {
        return ;
    }
    match action {
        Action::MoveLeft => active_block.try_move_in_direction(Direction::Left, placed_cells),
        Action::MoveRight => active_block.try_move_in_direction(Direction::Right, placed_cells),
        Action::SoftDrop => active_block.try_move_in_direction(Direction::Down, placed_cells),
        Action::Rotate => active_block.try_rotate(placed_cells),
        Action::TogglePause => {},
    }
}

/// The totals can take one more lock on a board of `rows` rows.
pub open spec fn score_has_room(s: Score, shape: BlockShape, rows: int) -> bool {
    &&& s.counts[shape_slot(shape)] < usize::MAX
    &&& s.points + 1000 <= usize::MAX
    &&& s.lines + rows + 4 <= usize::MAX
}

/// What one update does. Elapsed time accumulates; once it reaches the
/// gravity interval it resets and the piece falls one span if it can. If it
/// cannot, the piece locks: its shape's counter goes up, its cells join the
/// board, full rows are cleared and scored, and the piece for `roll` spawns
/// one cell in from the top-left corner.
pub open spec fn update_outcome(
    dt0: u64,
    s0: Score,
    p0: Block,
    b0: Seq<Seq<Cell>>,
    elapsed: u64,
    roll: u32,
    dt1: u64,
    s1: Score,
    p1: Block,
    b1: Seq<Seq<Cell>>,
) -> bool {
    if dt0 + elapsed < GRAVITY_INTERVAL {
        &&& dt1 == dt0 + elapsed
        &&& s1 == s0
        &&& p1 == p0
        &&& b1 == b0
    } else if all_valid(p0.shifted_cells(Direction::Down), b0) {
        &&& dt1 == 0
        &&& s1 == s0
        &&& p1.shape == p0.shape
        &&& p1.origin_index == p0.origin_index
        &&& p1.cells@ == p0.shifted_cells(Direction::Down)
        &&& b1 == b0
    } else {
        let placed = insert_cells(b0, p0.cells@);
        &&& dt1 == 0
        &&& s1.counts@ == s0.counts@.update(
            shape_slot(p0.shape),
            (s0.counts[shape_slot(p0.shape)] + 1) as usize,
        )
        &&& s1.lines == s0.lines + full_count(placed)
        &&& s1.points == s0.points + points_for(full_count(placed) as int)
        &&& b1 == cleared(placed)
        &&& p1.spawned_at(shape_for_roll(roll as int), CELL_SIZE as int, CELL_SIZE as int)
    }
}

/// Advances the gravity timer by `elapsed` microseconds and, when it fires,
/// lets the piece fall or locks it and spawns the piece for `roll`.
pub fn handle_update(
    dt: &mut u64,
    score: &mut Score,
    active_block: &mut Block,
    placed_cells: &mut Vec<Vec<Cell>>,
    elapsed: u64,
    roll: u32,
)
    requires
        old(active_block).wf(),
        board_wf(board_view(old(placed_cells))),
        old(active_block).valid_on(board_view(old(placed_cells))),
        roll < 7,
        *old(dt) + elapsed <= u64::MAX,
        score_has_room(*old(score), old(active_block).shape, old(placed_cells).len() as int),
    ensures
        final(active_block).wf(),
        board_wf(board_view(final(placed_cells))),
        update_outcome(
            *old(dt),
            *old(score),
            *old(active_block),
            board_view(old(placed_cells)),
            elapsed,
            roll,
            *final(dt),
            *final(score),
            *final(active_block),
            board_view(final(placed_cells)),
        ),
{
    *dt = *dt + elapsed;
    if *dt >= GRAVITY_INTERVAL {
        *dt = 0;
        if active_block.can_move_in_direction(Direction::Down, placed_cells) {
            proof {
                lemma_valid_shift_in_range(
                    *active_block,
                    Direction::Down,
                    board_view(placed_cells),
                );
            }
            active_block.move_in_direction(Direction::Down);
        } else {
            let slot = slot_of(active_block.shape);
            score.counts[slot] = score.counts[slot] + 1;
            place_block(active_block, placed_cells);
            *active_block = block_from_roll(roll, cells(1), cells(1));
            clear_filled_lines(placed_cells, score);
        }
    }
}

/// The controller: the falling piece, the settled board, the score, the
/// gravity timer and the pause flag.
#[derive(Debug)]
pub struct Game {
    pub active: Block,
    pub placed: Vec<Vec<Cell>>,
    pub score: Score,
    pub dt: u64,
    pub paused: bool,
}

/// What one update of the controller does: nothing while paused or once the
/// falling piece overlaps settled cells (a fresh piece spawned onto them);
/// otherwise one `handle_update` step.
pub open spec fn step_outcome(g0: Game, elapsed: u64, roll: u32, g1: Game) -> bool {
    if g0.paused || g0.topped_out() {
        g1 == g0
    } else {
        &&& g1.paused == g0.paused
        &&& update_outcome(
            g0.dt,
            g0.score,
            g0.active,
            board_view(&g0.placed),
            elapsed,
            roll,
            g1.dt,
            g1.score,
            g1.active,
            board_view(&g1.placed),
        )
    }
}

/// While the game is paused an update leaves it exactly as it was, and so
/// does every key press other than the pause toggle.
pub proof fn lemma_pause_freezes(
    g0: Game,
    elapsed: u64,
    roll: u32,
    g1: Game,
    action: Action,
    paused1: bool,
    p1: Block,
)
    requires
        g0.paused,
    ensures
        step_outcome(g0, elapsed, roll, g1) ==> g1 == g0,
        action != Action::TogglePause && key_outcome(
            g0.paused,
            g0.active,
            board_view(&g0.placed),
            action,
            paused1,
            p1,
        ) ==> paused1 && p1 == g0.active,
{
}

impl Game {
    /// The piece, board and timer are consistent.
    pub open spec fn wf(&self) -> bool {
        &&& self.active.wf()
        &&& board_wf(board_view(&self.placed))
        &&& self.dt < GRAVITY_INTERVAL
    }

    /// The falling piece overlaps settled cells: no more moves are possible.
    pub open spec fn topped_out(&self) -> bool {
        !self.active.valid_on(board_view(&self.placed))
    }

    /// The totals can take one more lock.
    pub open spec fn has_room(&self) -> bool {
        score_has_room(self.score, self.active.shape, self.placed.len() as int)
    }

    /// A game on an empty board whose first piece is the one for `roll`.
    pub fn with_roll(roll: u32) -> (r: Game)
        requires
            roll < 7,
        ensures
            r.wf(),
            r.active.spawned_at(shape_for_roll(roll as int), CELL_SIZE as int, CELL_SIZE as int),
            r.placed@.len() == 0,
            r.score == Score::spec_new(),
            r.dt == 0,
            !r.paused,
    {
        let r = Game {
            active: block_from_roll(roll, cells(1), cells(1)),
            placed: Vec::new(),
            score: Score::new(),
            dt: 0,
            paused: false,
        };
        assert(board_view(&r.placed) =~= Seq::<Seq<Cell>>::empty());
        r
    }

    /// A game on an empty board whose first piece has a random shape.
    pub fn new() -> (r: Game)
        ensures
            r.wf(),
            r.active.spawned_at(r.active.shape, CELL_SIZE as int, CELL_SIZE as int),
            r.placed@.len() == 0,
            r.score == Score::spec_new(),
            r.dt == 0,
            !r.paused,
    {
        Game::with_roll(random_roll())
    }

    /// Whether the falling piece overlaps settled cells.
    pub fn is_topped_out(&self) -> (r: bool)
        ensures
            r == self.topped_out(),
    {
        !self.active.valid(&self.placed)
    }

    /// Whether the totals can take one more lock.
    pub fn room_left(&self) -> (r: bool)
        ensures
            r == self.has_room(),
    {
        let slot = slot_of(self.active.shape);
        self.score.counts[slot] < usize::MAX && self.score.points <= usize::MAX - 1000
            && self.placed.len() <= usize::MAX - 4 && self.score.lines <= usize::MAX - 4
            - self.placed.len()
    }

    /// One update with the given roll for a piece that may spawn.
    pub fn step(&mut self, elapsed: u64, roll: u32)
        requires
            old(self).wf(),
            old(self).has_room(),
            roll < 7,
            elapsed <= u64::MAX - GRAVITY_INTERVAL,
        ensures
            final(self).wf(),
            step_outcome(*old(self), elapsed, roll, *final(self)),
    {
        if self.paused || !self.active.valid(&self.placed) {
            return ;
        }
        handle_update(
            &mut self.dt,
            &mut self.score,
            &mut self.active,
            &mut self.placed,
            elapsed,
            roll,
        );
    }

    /// One update; a piece that spawns has a random shape.
    pub fn update(&mut self, elapsed: u64)
        requires
            old(self).wf(),
            old(self).has_room(),
            elapsed <= u64::MAX - GRAVITY_INTERVAL,
        ensures
            final(self).wf(),
            exists|roll: u32| roll < 7 && step_outcome(*old(self), elapsed, roll, *final(self)),
    {
        let roll = random_roll();
        self.step(elapsed, roll);
    }

    /// What the renderer draws: the cells of the falling piece, then every
    /// settled cell row by row.
    pub fn render_cells(&self) -> (r: Vec<Cell>)
        ensures
            r@ == self.active.cells@ + all_cells(board_view(&self.placed)),
    {
        let ghost b = board_view(&self.placed);
        let mut out: Vec<Cell> = Vec::new();
        let mut k: usize = 0;
        while k < 4
            invariant
                0 <= k <= 4,
                out@ == self.active.cells@.take(k as int),
            decreases 4 - k,
        {
            out.push(self.active.cells[k]);
            assert(out@ =~= self.active.cells@.take(k + 1));
            k += 1;
        }
        assert(self.active.cells@.take(4) =~= self.active.cells@);
        let mut i: usize = 0;
        while i < self.placed.len()
            invariant
                0 <= i <= self.placed.len(),
                b == board_view(&self.placed),
                out@ == self.active.cells@ + all_cells(b.take(i as int)),
            decreases self.placed.len() - i,
        {
            let row = &self.placed[i];
            let ghost before = out@;
            let mut j: usize = 0;
            while j < row.len()
                invariant
                    0 <= j <= row.len(),
                    row@ == b[i as int],
                    out@ == before + row@.take(j as int),
                decreases row.len() - j,
            {
                out.push(row[j]);
                assert(out@ =~= before + row@.take(j + 1));
                j += 1;
            }
            proof {
                assert(row@.take(row.len() as int) =~= row@);
                assert(b.take(i + 1).drop_last() =~= b.take(i as int));
                assert(b.take(i + 1).last() == b[i as int]);
                assert(out@ =~= self.active.cells@ + all_cells(b.take(i + 1)));
            }
            i += 1;
        }
        assert(b.take(b.len() as int) =~= b);
        out
    }

    /// One key press.
    pub fn key(&mut self, action: Action)
        requires
            old(self).wf(),
        ensures
            final(self).wf(),
            key_outcome(
                old(self).paused,
                old(self).active,
                board_view(&old(self).placed),
                action,
                final(self).paused,
                final(self).active,
            ),
            final(self).placed == old(self).placed,
            final(self).score == old(self).score,
            final(self).dt == old(self).dt,
    {
        handle_key(action, &mut self.paused, &mut self.active, &self.placed);
    }
}

} // verus!
