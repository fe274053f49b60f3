use four_in_a_row::Entity;
use four_in_a_row::Game;
use four_in_a_row::GameError;
use four_in_a_row::Move;

fn board(next: char, rows: &[&str]) -> Game {
    let height = rows.len();
    let width = rows[0].len();
    let mut grid: Vec<Entity> = Vec::new();
    for row in rows {
        assert_eq!(row.len(), width);
        for ch in row.chars() {
            grid.push(Entity::from_char(ch));
        }
    }
    Game::new(Entity::from_char(next), height, width, grid).unwrap()
}

fn occupied(game: &Game) -> usize {
    game.grid.iter().filter(|&&e| e != Entity::Empty).count()
}

#[test]
fn entity_from_char_reads_both_cases() {
    assert_eq!(Entity::from_char('o'), Entity::O);
    assert_eq!(Entity::from_char('O'), Entity::O);
    assert_eq!(Entity::from_char('x'), Entity::X);
    assert_eq!(Entity::from_char('X'), Entity::X);
    assert_eq!(Entity::from_char('.'), Entity::Empty);
    assert_eq!(Entity::from_char('q'), Entity::Empty);
}

#[test]
fn entity_into_char_writes_each_cell() {
    assert_eq!(Entity::O.into_char(), 'o');
    assert_eq!(Entity::X.into_char(), 'x');
    assert_eq!(Entity::Empty.into_char(), '.');
}

#[test]
fn entity_neg_swaps_sides() {
    assert_eq!(Entity::O.neg(), Entity::X);
    assert_eq!(Entity::X.neg(), Entity::O);
    assert_eq!(Entity::Empty.neg(), Entity::Empty);
}

#[test]
fn move_new_keeps_column() {
    assert_eq!(Move::new(3).col, 3);
}

#[test]
fn new_rejects_small_boards() {
    let r = Game::new(Entity::O, 3, 5, vec![Entity::Empty; 15]);
    assert_eq!(r.unwrap_err(), GameError::InvalidBoardDimensions);
    let r = Game::new(Entity::O, 5, 3, vec![Entity::Empty; 15]);
    assert_eq!(r.unwrap_err(), GameError::InvalidBoardDimensions);
}

#[test]
fn new_rejects_mismatched_grid() {
    let r = Game::new(Entity::O, 4, 4, vec![Entity::Empty; 15]);
    assert_eq!(r.unwrap_err(), GameError::InvalidBoardDimensions);
}

#[test]
fn new_accepts_minimal_board() {
    let g = Game::new(Entity::X, 4, 4, vec![Entity::Empty; 16]).unwrap();
    assert_eq!(g.height, 4);
    assert_eq!(g.width, 4);
    assert_eq!(g.next, Entity::X);
}

#[test]
fn judge_empty_board_is_undecided() {
    let g = board('o', &["....", "....", "....", "...."]);
    assert_eq!(g.judge(), Entity::Empty);
}

#[test]
fn judge_three_in_a_row_is_undecided() {
    let g = board('o', &["....", "....", "....", "ooo."]);
    assert_eq!(g.judge(), Entity::Empty);
}

#[test]
fn judge_row_of_four_wins() {
    let g = board('x', &["....", "....", "....", "oooo"]);
    assert_eq!(g.judge(), Entity::O);
}

#[test]
fn judge_column_of_four_wins() {
    let g = board('o', &[".x..", ".x..", ".x..", ".x.."]);
    assert_eq!(g.judge(), Entity::X);
}

#[test]
fn judge_descending_diagonal_wins() {
    let g = board('x', &["o...", ".o..", "..o.", "...o"]);
    assert_eq!(g.judge(), Entity::O);
}

#[test]
fn judge_ascending_diagonal_wins() {
    let g = board('o', &["...x", "..x.", ".x..", "x..."]);
    assert_eq!(g.judge(), Entity::X);
}

#[test]
fn judge_finds_run_away_from_origin() {
    let g = board('o', &["......", "......", ".xxxx.", "......", "......"]);
    assert_eq!(g.judge(), Entity::X);
}

#[test]
fn judge_full_mixed_board_is_undecided() {
    let g = board('o', &["oxox", "oxox", "xoxo", "xoxo"]);
    assert_eq!(g.judge(), Entity::Empty);
}

#[test]
fn play_on_full_column_fails_and_leaves_board_unchanged() {
    let mut g = board('o', &["x...", "o...", "x...", "o..."]);
    let before = g.duplicate();
    let r = g.play_mut(Move::new(0));
    assert_eq!(r.unwrap_err(), GameError::ColumnFull);
    assert_eq!(g, before);
}

#[test]
fn pure_play_on_full_column_fails() {
    let g = board('o', &["x...", "o...", "x...", "o..."]);
    let before = g.duplicate();
    let r = g.play(Move::new(0));
    assert_eq!(r.unwrap_err(), GameError::ColumnFull);
    assert_eq!(g, before);
}

#[test]
fn play_adds_one_piece_and_flips_mover() {
    let mut g = board('o', &["x...", "o...", "x...", "o..."]);
    let n = occupied(&g);
    let r = g.play_mut(Move::new(1));
    assert!(r.is_ok());
    assert_eq!(occupied(&g), n + 1);
    assert_eq!(g.next, Entity::X);
}

#[test]
fn play_lands_in_lowest_empty_cell() {
    let mut g = board('x', &["....", "....", "....", "..o."]);
    g.play_mut(Move::new(2)).unwrap();
    // row 2 (just above the existing piece) now holds the new piece
    assert_eq!(g.grid[2 * g.width + 2], Entity::X);
    assert_eq!(g.next, Entity::O);
}

#[test]
fn pure_play_leaves_original_untouched() {
    let g = board('o', &["....", "....", "....", "...."]);
    let before = g.duplicate();
    let h = g.play(Move::new(0)).unwrap();
    assert_eq!(g, before);
    assert_eq!(occupied(&h), 1);
    assert_eq!(h.grid[3 * h.width], Entity::O);
    assert_eq!(h.next, Entity::X);
}

#[test]
fn duplicate_copies_the_state() {
    let g = board('o', &["x...", "o...", "x...", "o..."]);
    let d = g.duplicate();
    assert_eq!(g, d);
}

#[test]
fn judge_reports_the_first_run_in_scan_order() {
    // rows are scanned top to bottom, so the side whose run lies higher wins
    // the (unreachable in play) double-four tie
    let g = board('o', &["oooo", "....", "....", "xxxx"]);
    assert_eq!(g.judge(), Entity::O);
    let g = board('o', &["xxxx", "....", "....", "oooo"]);
    assert_eq!(g.judge(), Entity::X);
    // a row run is found before a column run
    let g = board('o', &["x...", "x...", "x...", "x...", "oooo"]);
    assert_eq!(g.judge(), Entity::O);
}
