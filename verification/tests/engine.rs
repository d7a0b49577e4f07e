use conway::coord::Cordinates;
use conway::game::Game;
use conway::pattern::PatternError;

#[test]
fn horizontal_to_vertical() {
    let mut game = Game::new(4, 4, vec![]);
    game.set_alive(1, 1);
    game.set_alive(1, 2);
    game.set_alive(1, 3);
    println!("{}", game.render_text());
    game.update_board();
    println!("{}", game.render_text());
    assert_eq!(1, game.board[0][2]);
    assert_eq!(1, game.board[1][2]);
    assert_eq!(1, game.board[2][2]);
}

#[test]
fn blinker_period_two() {
    let mut game = Game::new(4, 4, vec![]);
    game.set_alive(1, 1);
    game.set_alive(1, 2);
    game.set_alive(1, 3);
    game.update_board();
    let vertical = vec![(0, 2), (1, 2), (2, 2)];
    for r in 0..4 {
        for c in 0..4 {
            let expected = if vertical.contains(&(r, c)) { 1 } else { 0 };
            assert_eq!(expected, game.board[r][c]);
        }
    }
    game.update_board();
    let horizontal = vec![(1, 1), (1, 2), (1, 3)];
    for r in 0..4 {
        for c in 0..4 {
            let expected = if horizontal.contains(&(r, c)) { 1 } else { 0 };
            assert_eq!(expected, game.board[r][c]);
        }
    }
}

#[test]
fn block_still_life() {
    let mut game = Game::new(4, 4, vec![]);
    game.set_alive(1, 1);
    game.set_alive(1, 2);
    game.set_alive(2, 1);
    game.set_alive(2, 2);
    game.update_board();
    for r in 0..4 {
        for c in 0..4 {
            let expected = if (1..=2).contains(&r) && (1..=2).contains(&c) { 1 } else { 0 };
            assert_eq!(expected, game.board[r][c]);
        }
    }
}

#[test]
fn single_cell_dies() {
    let mut game = Game::new(3, 3, vec![]);
    game.set_alive(1, 1);
    game.update_board();
    for r in 0..3 {
        for c in 0..3 {
            assert_eq!(0, game.board[r][c]);
        }
    }
    assert_eq!(0, game.live_cells.len());
}

#[test]
fn birth_from_three_neighbors() {
    let mut game = Game::new(4, 4, vec![]);
    game.set_alive(0, 0);
    game.set_alive(0, 1);
    game.set_alive(1, 0);
    assert_eq!(0, game.board[1][1]);
    game.update_board();
    assert_eq!(1, game.board[1][1]);
}

#[test]
fn corner_seed_steps_without_fault() {
    let mut game = Game::new(4, 4, vec![]);
    game.set_alive(0, 0);
    game.update_board();
    assert_eq!(0, game.board[0][0]);
    let mut block = Game::new(4, 4, vec![]);
    block.set_alive(0, 0);
    block.set_alive(0, 1);
    block.set_alive(1, 0);
    block.set_alive(1, 1);
    block.update_board();
    for r in 0..4 {
        for c in 0..4 {
            let expected = if r <= 1 && c <= 1 { 1 } else { 0 };
            assert_eq!(expected, block.board[r][c]);
        }
    }
}

#[test]
fn new_with_initial_live_cells() {
    let game = Game::new(3, 3, vec![Cordinates::new(1, 2), Cordinates::new(0, 0)]);
    assert_eq!(1, game.board[1][2]);
    assert_eq!(1, game.board[0][0]);
    assert_eq!(0, game.board[1][1]);
    assert_eq!(2, game.live_cells.len());
}

#[test]
fn seed_is_idempotent_on_grid_not_on_list() {
    let mut game = Game::new(3, 3, vec![]);
    game.set_alive(1, 1);
    game.set_alive(1, 1);
    assert_eq!(1, game.board[1][1]);
    assert_eq!(2, game.live_cells.len());
    game.update_board();
    assert_eq!(0, game.board[1][1]);
    assert_eq!(0, game.live_cells.len());
}

#[test]
fn render_text_exact() {
    let mut game = Game::new(2, 3, vec![]);
    game.set_alive(0, 1);
    game.set_alive(1, 0);
    assert_eq!(" # \n#  \n", game.render_text());
}

#[test]
fn pattern_round_trip() {
    let text = " # \n# #\n # ";
    let game = Game::from_pattern(text).unwrap();
    assert_eq!(format!("{}\n", text), game.render_text());
}

#[test]
fn from_pattern_exact_grid() {
    let game = Game::from_pattern("## \n  #").unwrap();
    assert_eq!(2, game.board.len());
    assert_eq!(3, game.board[0].len());
    assert_eq!(vec![1, 1, 0], game.board[0]);
    assert_eq!(vec![0, 0, 1], game.board[1]);
}

#[test]
fn from_pattern_pads_ragged_rows() {
    // Shorter lines are padded with dead cells to the longest line's width,
    // so the grid stays rectangular; the render shows the added padding.
    let game = Game::from_pattern("#\n###").unwrap();
    assert_eq!(2, game.board.len());
    assert_eq!(3, game.board[0].len());
    assert_eq!(vec![1, 0, 0], game.board[0]);
    assert_eq!(vec![1, 1, 1], game.board[1]);
    assert_eq!("#  \n###\n", game.render_text());
}

#[test]
fn from_pattern_rejects_bad_character() {
    let err = Game::from_pattern("  \n a").unwrap_err();
    assert_eq!(PatternError { row: 1, col: 1 }, err);
    let err = Game::from_pattern("x").unwrap_err();
    assert_eq!(PatternError { row: 0, col: 0 }, err);
}

#[test]
fn empty_pattern_is_one_empty_row() {
    let game = Game::from_pattern("").unwrap();
    assert_eq!(1, game.board.len());
    assert_eq!(0, game.board[0].len());
    assert_eq!("\n", game.render_text());
}

#[test]
fn pattern_then_step() {
    let mut game = Game::from_pattern("    \n ###\n    ").unwrap();
    game.update_board();
    assert_eq!(1, game.board[0][2]);
    assert_eq!(1, game.board[1][2]);
    assert_eq!(1, game.board[2][2]);
    assert_eq!(0, game.board[1][1]);
    assert_eq!(0, game.board[1][3]);
}
