use tetris::block::{block_from_roll, cells, random_block, Block, BlockShape, Cell, Direction};
use tetris::board::{clear_filled_lines, place_block, Score};
use tetris::game::{handle_key, handle_update, Action, Game, GRAVITY_INTERVAL};

const SHAPES: [BlockShape; 7] = [
    BlockShape::I,
    BlockShape::J,
    BlockShape::L,
    BlockShape::O,
    BlockShape::S,
    BlockShape::T,
    BlockShape::Z,
];

fn positions(block: &Block) -> Vec<(i64, i64)> {
    block.iter_cells().map(|c| (c.x, c.y)).collect()
}

fn cell_at(col: u32, row: u32) -> Cell {
    Cell::new(cells(col), cells(row), BlockShape::I)
}

fn full_row(row: u32) -> Vec<Cell> {
    (0..10).map(|col| cell_at(col, row)).collect()
}

fn board_total(board: &Vec<Vec<Cell>>) -> usize {
    board.iter().map(|r| r.len()).sum()
}

fn sorted(mut v: Vec<(i64, i64)>) -> Vec<(i64, i64)> {
    v.sort();
    v
}

#[test]
fn cells_scale_by_cell_size() {
    assert_eq!(cells(0), 0);
    assert_eq!(cells(1), 30);
    assert_eq!(cells(20), 600);
}

#[test]
fn cell_new_adds_the_inset() {
    let c = Cell::new(cells(2), cells(5), BlockShape::T);
    assert_eq!((c.x, c.y), (63, 153));
    assert_eq!(c.size(), 24);
}

#[test]
fn spawned_i_is_a_vertical_line() {
    let b = Block::new(BlockShape::I, cells(1), cells(1));
    assert_eq!(positions(&b), vec![(33, 33), (33, 63), (33, 93), (33, 123)]);
    assert_eq!(b.shape, BlockShape::I);
    assert_eq!(b.origin_index, Some(1));
}

#[test]
fn one_turn_of_i_is_a_horizontal_line_through_the_pivot() {
    let mut b = Block::new(BlockShape::I, cells(1), cells(1));
    b.rotate();
    assert_eq!(positions(&b), vec![(63, 63), (33, 63), (3, 63), (-27, 63)]);
}

#[test]
fn turn_off_the_left_edge_is_rejected() {
    let board: Vec<Vec<Cell>> = Vec::new();
    let mut b = Block::new(BlockShape::I, cells(1), cells(1));
    b.try_rotate(&board);
    assert_eq!(positions(&b), vec![(33, 33), (33, 63), (33, 93), (33, 123)]);
}

#[test]
fn turn_in_open_space_is_applied() {
    let board: Vec<Vec<Cell>> = Vec::new();
    let mut b = Block::new(BlockShape::I, cells(4), cells(4));
    b.try_rotate(&board);
    assert_eq!(positions(&b), vec![(153, 153), (123, 153), (93, 153), (63, 153)]);
}

#[test]
fn turn_onto_a_placed_cell_is_rejected() {
    let board = vec![vec![cell_at(2, 5)]];
    let mut b = Block::new(BlockShape::I, cells(4), cells(4));
    let before = positions(&b);
    b.try_rotate(&board);
    assert_eq!(positions(&b), before);
}

#[test]
fn four_turns_restore_every_shape() {
    for shape in SHAPES {
        let mut b = Block::new(shape, cells(4), cells(4));
        let start = positions(&b);
        b.rotate();
        if shape != BlockShape::O {
            assert_ne!(positions(&b), start);
        }
        b.rotate();
        b.rotate();
        b.rotate();
        assert_eq!(positions(&b), start);
    }
}

#[test]
fn square_never_turns() {
    let board: Vec<Vec<Cell>> = Vec::new();
    let mut b = Block::new(BlockShape::O, cells(4), cells(4));
    let start = positions(&b);
    b.try_rotate(&board);
    assert_eq!(positions(&b), start);
    b.rotate();
    assert_eq!(positions(&b), start);
}

#[test]
fn t_turns_a_quarter_about_its_pivot() {
    let mut b = Block::new(BlockShape::T, cells(4), cells(4));
    assert_eq!(positions(&b), vec![(123, 123), (123, 153), (153, 153), (123, 183)]);
    b.rotate();
    assert_eq!(positions(&b), vec![(153, 153), (123, 153), (123, 183), (93, 153)]);
}

#[test]
fn left_wall_blocks_a_move_left() {
    let board: Vec<Vec<Cell>> = Vec::new();
    let mut b = Block::new(BlockShape::I, 0, cells(1));
    let before = positions(&b);
    assert!(!b.can_move_in_direction(Direction::Left, &board));
    b.try_move_in_direction(Direction::Left, &board);
    assert_eq!(positions(&b), before);
}

#[test]
fn right_wall_blocks_a_move_right() {
    let board: Vec<Vec<Cell>> = Vec::new();
    let mut b = Block::new(BlockShape::O, cells(8), cells(1));
    let before = positions(&b);
    assert!(!b.can_move_in_direction(Direction::Right, &board));
    b.try_move_in_direction(Direction::Right, &board);
    assert_eq!(positions(&b), before);
}

#[test]
fn a_move_shifts_all_four_cells_by_one_span() {
    let board: Vec<Vec<Cell>> = Vec::new();
    let mut b = Block::new(BlockShape::S, cells(3), cells(1));
    let before = positions(&b);
    b.try_move_in_direction(Direction::Right, &board);
    let expected: Vec<(i64, i64)> = before.iter().map(|&(x, y)| (x + 30, y)).collect();
    assert_eq!(positions(&b), expected);
    b.try_move_in_direction(Direction::Down, &board);
    let expected: Vec<(i64, i64)> = before.iter().map(|&(x, y)| (x + 30, y + 30)).collect();
    assert_eq!(positions(&b), expected);
    b.try_move_in_direction(Direction::Left, &board);
    let expected: Vec<(i64, i64)> = before.iter().map(|&(x, y)| (x, y + 30)).collect();
    assert_eq!(positions(&b), expected);
}

#[test]
fn a_placed_cell_blocks_a_move_down() {
    let board = vec![vec![cell_at(1, 5)]];
    let mut b = Block::new(BlockShape::I, cells(1), cells(1));
    assert!(!b.can_move_in_direction(Direction::Down, &board));
    let before = positions(&b);
    b.try_move_in_direction(Direction::Down, &board);
    assert_eq!(positions(&b), before);
}

#[test]
fn the_floor_blocks_a_move_down() {
    let board: Vec<Vec<Cell>> = Vec::new();
    let mut b = Block::new(BlockShape::O, cells(4), cells(18));
    assert!(!b.can_move_in_direction(Direction::Down, &board));
    let mut c = Block::new(BlockShape::O, cells(4), cells(17));
    assert!(c.can_move_in_direction(Direction::Down, &board));
    c.move_in_direction(Direction::Down);
    assert_eq!(positions(&c), positions(&b));
}

#[test]
fn cell_moves_one_span() {
    let mut c = cell_at(3, 3);
    c.move_in_direction(Direction::Down);
    assert_eq!((c.x, c.y), (93, 123));
    c.move_in_direction(Direction::Left);
    assert_eq!((c.x, c.y), (63, 123));
    c.move_in_direction(Direction::Right);
    assert_eq!((c.x, c.y), (93, 123));
}

#[test]
fn validity_checks_bounds_and_placed_cells() {
    let board = vec![vec![cell_at(4, 4)]];
    assert!(Block::new(BlockShape::O, cells(0), cells(0)).valid(&board));
    assert!(!Block::new(BlockShape::O, cells(3), cells(3)).valid(&board));
    assert!(!Block::new(BlockShape::O, cells(9), cells(3)).valid(&board));
    assert!(!Block::new(BlockShape::O, cells(3), cells(19)).valid(&board));
}

#[test]
fn rolls_map_to_shapes() {
    let expected = [
        BlockShape::I,
        BlockShape::L,
        BlockShape::O,
        BlockShape::J,
        BlockShape::S,
        BlockShape::T,
        BlockShape::Z,
    ];
    for (roll, shape) in expected.iter().enumerate() {
        let b = block_from_roll(roll as u32, cells(1), cells(1));
        assert_eq!(b.shape, *shape);
        assert_eq!(positions(&b), positions(&Block::new(*shape, cells(1), cells(1))));
    }
}

#[test]
fn spawn_layouts_and_pivots() {
    let expected: [(BlockShape, [(i64, i64); 4], Option<usize>); 7] = [
        (BlockShape::I, [(0, 0), (0, 1), (0, 2), (0, 3)], Some(1)),
        (BlockShape::J, [(0, 0), (1, 0), (0, 1), (0, 2)], Some(2)),
        (BlockShape::L, [(0, 0), (1, 0), (1, 1), (1, 2)], Some(2)),
        (BlockShape::O, [(0, 0), (1, 0), (0, 1), (1, 1)], None),
        (BlockShape::S, [(0, 0), (0, 1), (1, 1), (1, 2)], Some(1)),
        (BlockShape::T, [(0, 0), (0, 1), (1, 1), (0, 2)], Some(1)),
        (BlockShape::Z, [(1, 0), (0, 1), (1, 1), (0, 2)], Some(1)),
    ];
    for (shape, layout, pivot) in expected {
        let b = Block::new(shape, cells(2), cells(3));
        let want: Vec<(i64, i64)> =
            layout.iter().map(|&(dx, dy)| (60 + 3 + 30 * dx, 90 + 3 + 30 * dy)).collect();
        assert_eq!(positions(&b), want);
        assert_eq!(b.origin_index, pivot);
        assert!(b.iter_cells().all(|c| c.shape == shape));
    }
}

#[test]
fn random_block_is_a_spawned_piece() {
    for _ in 0..50 {
        let b = random_block(cells(1), cells(1));
        assert_eq!(positions(&b), positions(&Block::new(b.shape, cells(1), cells(1))));
    }
}

#[test]
fn placing_groups_cells_by_row() {
    let mut board: Vec<Vec<Cell>> = vec![vec![cell_at(0, 19)]];
    let b = Block::new(BlockShape::O, cells(4), cells(18));
    place_block(&b, &mut board);
    assert_eq!(board.len(), 2);
    assert_eq!(board[0].len(), 3);
    assert_eq!(board[1].len(), 2);
    assert!(board[0].iter().all(|c| c.y == 573));
    assert!(board[1].iter().all(|c| c.y == 543));
    assert_eq!(board_total(&board), 5);
}

#[test]
fn placing_a_vertical_line_makes_four_rows() {
    let mut board: Vec<Vec<Cell>> = Vec::new();
    let b = Block::new(BlockShape::I, cells(0), cells(16));
    place_block(&b, &mut board);
    assert_eq!(board.len(), 4);
    assert!(board.iter().all(|r| r.len() == 1));
}

#[test]
fn clearing_one_row_scores_a_hundred() {
    let mut board = vec![full_row(19), vec![cell_at(0, 18)]];
    let mut score = Score::new();
    clear_filled_lines(&mut board, &mut score);
    assert_eq!(score.lines, 1);
    assert_eq!(score.points, 100);
    assert_eq!(board.len(), 1);
    assert_eq!(board[0].len(), 1);
    assert_eq!((board[0][0].x, board[0][0].y), (3, 573));
}

#[test]
fn clearing_nothing_scores_nothing() {
    let mut board = vec![vec![cell_at(0, 19), cell_at(1, 19)]];
    let mut score = Score::new();
    clear_filled_lines(&mut board, &mut score);
    assert_eq!(score.lines, 0);
    assert_eq!(score.points, 0);
    assert_eq!(board.len(), 1);
    assert_eq!(board[0][0].y, 573);
}

#[test]
fn points_follow_the_table() {
    for (rows, points) in [(1u32, 100usize), (2, 200), (3, 500), (4, 1000)] {
        let mut board: Vec<Vec<Cell>> = (0..rows).map(|k| full_row(19 - k)).collect();
        let mut score = Score::new();
        clear_filled_lines(&mut board, &mut score);
        assert_eq!(score.points, points);
        assert_eq!(score.lines, rows as usize);
        assert!(board.is_empty());
    }
}

#[test]
fn five_rows_at_once_score_nothing() {
    let mut board: Vec<Vec<Cell>> = (0..5).map(|k| full_row(19 - k)).collect();
    let mut score = Score::new();
    clear_filled_lines(&mut board, &mut score);
    assert_eq!(score.lines, 5);
    assert_eq!(score.points, 0);
}

#[test]
fn rows_drop_by_the_cleared_rows_below_them() {
    let mut board = vec![
        vec![cell_at(2, 16)],
        full_row(17),
        vec![cell_at(5, 18), cell_at(6, 18)],
        full_row(19),
        vec![cell_at(7, 12)],
    ];
    let mut score = Score::new();
    clear_filled_lines(&mut board, &mut score);
    assert_eq!(score.lines, 2);
    assert_eq!(score.points, 200);
    let mut got: Vec<(i64, i64)> = Vec::new();
    for row in &board {
        for c in row {
            got.push((c.x, c.y));
        }
    }
    assert_eq!(
        sorted(got),
        sorted(vec![(63, 543), (153, 573), (183, 573), (213, 423)])
    );
    assert_eq!(board.len(), 3);
}

#[test]
fn a_row_one_short_of_full_stays() {
    let mut row = full_row(19);
    row.pop();
    let mut board = vec![row];
    let mut score = Score::new();
    clear_filled_lines(&mut board, &mut score);
    assert_eq!(board_total(&board), 9);
    assert_eq!(score.lines, 0);
}

#[test]
fn score_starts_at_zero() {
    let score = Score::new();
    assert_eq!(score.points, 0);
    assert_eq!(score.lines, 0);
    for shape in SHAPES {
        assert_eq!(score.count(shape), 0);
    }
}

#[test]
fn a_lock_that_fills_a_row_clears_it() {
    let mut game = Game::with_roll(0);
    let mut bottom = full_row(19);
    bottom.remove(4);
    bottom.remove(4);
    game.placed = vec![bottom, full_row(18)];
    game.placed[1].remove(4);
    game.placed[1].remove(4);
    game.active = Block::new(BlockShape::O, cells(4), cells(18));
    let before = board_total(&game.placed);
    game.step(GRAVITY_INTERVAL, 2);
    assert_eq!(game.score.lines, 2);
    assert_eq!(game.score.points, 200);
    assert_eq!(board_total(&game.placed), before + 4 - 20);
    assert_eq!(game.score.count(BlockShape::O), 1);
    assert_eq!(game.active.shape, BlockShape::O);
}

#[test]
fn a_lock_above_a_full_row_clears_one_line() {
    let mut game = Game::with_roll(0);
    game.placed = vec![full_row(19)];
    game.active = Block::new(BlockShape::O, cells(4), cells(17));
    let before = board_total(&game.placed);
    game.step(GRAVITY_INTERVAL, 5);
    assert_eq!(game.score.lines, 1);
    assert_eq!(game.score.points, 100);
    assert_eq!(board_total(&game.placed), before + 4 - 10);
    let mut got: Vec<(i64, i64)> = Vec::new();
    for row in &game.placed {
        for c in row {
            got.push((c.x, c.y));
        }
    }
    assert_eq!(sorted(got), vec![(123, 543), (123, 573), (153, 543), (153, 573)]);
    assert_eq!(game.active.shape, BlockShape::T);
    assert_eq!(positions(&game.active), positions(&Block::new(BlockShape::T, cells(1), cells(1))));
    assert_eq!(game.score.count(BlockShape::O), 1);
    assert_eq!(game.score.count(BlockShape::T), 0);
}

#[test]
fn gravity_waits_for_the_interval() {
    let mut game = Game::with_roll(0);
    let start = positions(&game.active);
    game.step(300000, 0);
    assert_eq!(game.dt, 300000);
    assert_eq!(positions(&game.active), start);
    game.step(200000, 0);
    assert_eq!(game.dt, 0);
    let fallen: Vec<(i64, i64)> = start.iter().map(|&(x, y)| (x, y + 30)).collect();
    assert_eq!(positions(&game.active), fallen);
}

#[test]
fn pause_freezes_ticks_and_moves() {
    let mut game = Game::with_roll(5);
    game.key(Action::TogglePause);
    assert!(game.paused);
    let start = positions(&game.active);
    game.step(GRAVITY_INTERVAL, 0);
    game.step(GRAVITY_INTERVAL, 0);
    game.key(Action::MoveRight);
    game.key(Action::SoftDrop);
    game.key(Action::Rotate);
    game.key(Action::MoveLeft);
    assert_eq!(positions(&game.active), start);
    assert_eq!(game.dt, 0);
    assert!(game.placed.is_empty());
    game.key(Action::TogglePause);
    assert!(!game.paused);
    game.key(Action::MoveRight);
    let moved: Vec<(i64, i64)> = start.iter().map(|&(x, y)| (x + 30, y)).collect();
    assert_eq!(positions(&game.active), moved);
}

#[test]
fn handle_key_routes_actions() {
    let board: Vec<Vec<Cell>> = Vec::new();
    let mut paused = false;
    let mut b = Block::new(BlockShape::I, cells(4), cells(4));
    let start = positions(&b);
    handle_key(Action::SoftDrop, &mut paused, &mut b, &board);
    let down: Vec<(i64, i64)> = start.iter().map(|&(x, y)| (x, y + 30)).collect();
    assert_eq!(positions(&b), down);
    handle_key(Action::Rotate, &mut paused, &mut b, &board);
    assert_eq!(positions(&b), vec![(153, 183), (123, 183), (93, 183), (63, 183)]);
    handle_key(Action::TogglePause, &mut paused, &mut b, &board);
    assert!(paused);
    handle_key(Action::MoveLeft, &mut paused, &mut b, &board);
    assert_eq!(positions(&b), vec![(153, 183), (123, 183), (93, 183), (63, 183)]);
}

#[test]
fn handle_update_accumulates_then_falls() {
    let mut dt: u64 = 0;
    let mut score = Score::new();
    let mut b = Block::new(BlockShape::Z, cells(3), cells(1));
    let mut board: Vec<Vec<Cell>> = Vec::new();
    let start = positions(&b);
    handle_update(&mut dt, &mut score, &mut b, &mut board, 499999, 0);
    assert_eq!(dt, 499999);
    assert_eq!(positions(&b), start);
    handle_update(&mut dt, &mut score, &mut b, &mut board, 1, 0);
    assert_eq!(dt, 0);
    let down: Vec<(i64, i64)> = start.iter().map(|&(x, y)| (x, y + 30)).collect();
    assert_eq!(positions(&b), down);
}

#[test]
fn handle_update_locks_at_the_floor() {
    let mut dt: u64 = 0;
    let mut score = Score::new();
    let mut b = Block::new(BlockShape::I, cells(0), cells(16));
    let mut board: Vec<Vec<Cell>> = Vec::new();
    handle_update(&mut dt, &mut score, &mut b, &mut board, GRAVITY_INTERVAL, 6);
    assert_eq!(board_total(&board), 4);
    assert_eq!(score.count(BlockShape::I), 1);
    assert_eq!(b.shape, BlockShape::Z);
    assert_eq!(score.points, 0);
}

#[test]
fn a_topped_out_game_stands_still() {
    let mut game = Game::with_roll(2);
    game.placed = vec![vec![cell_at(1, 1)]];
    assert!(game.is_topped_out());
    let start = positions(&game.active);
    game.step(GRAVITY_INTERVAL, 0);
    assert_eq!(positions(&game.active), start);
    assert_eq!(board_total(&game.placed), 1);
}

#[test]
fn render_lists_piece_then_board() {
    let mut game = Game::with_roll(0);
    game.placed = vec![vec![cell_at(0, 19), cell_at(1, 19)], vec![cell_at(0, 18)]];
    let drawn = game.render_cells();
    assert_eq!(drawn.len(), 7);
    let got: Vec<(i64, i64)> = drawn.iter().map(|c| (c.x, c.y)).collect();
    assert_eq!(
        got,
        vec![(33, 33), (33, 63), (33, 93), (33, 123), (3, 573), (33, 573), (3, 543)]
    );
}

#[test]
fn new_game_is_fresh() {
    let game = Game::new();
    assert_eq!(game.score.points, 0);
    assert!(game.placed.is_empty());
    assert!(!game.paused);
    assert!(game.room_left());
    assert_eq!(positions(&game.active), positions(&Block::new(game.active.shape, cells(1), cells(1))));
}
