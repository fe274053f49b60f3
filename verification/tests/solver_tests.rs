use four_in_a_row::Entity;
use four_in_a_row::Game;
use four_in_a_row::GameError;
use four_in_a_row::Move;
use four_in_a_row::Solver;

fn board(next: char, rows: &[&str]) -> Game {
    let height = rows.len();
    let width = rows[0].len();
    let mut grid: Vec<Entity> = Vec::new();
    for row in rows {
        assert_eq!(row.len(), width);
        for ch in row.chars() {
            grid.push(Entity::from_char(ch));
        }
    }
    Game::new(Entity::from_char(next), height, width, grid).unwrap()
}

fn occupied(game: &Game) -> usize {
    game.grid.iter().filter(|&&e| e != Entity::Empty).count()
}

#[test]
fn choices_lists_open_columns_ascending() {
    let g = board('o', &["x.x.", "o.o.", "x.x.", "o.o."]);
    let mvs = Solver::new(false).choices(&g);
    let cols: Vec<usize> = mvs.iter().map(|m| m.col).collect();
    assert_eq!(cols, vec![1, 3]);
}

#[test]
fn choices_on_empty_board_lists_every_column() {
    let g = board('o', &["....", "....", "....", "...."]);
    let mvs = Solver::new(false).choices(&g);
    let cols: Vec<usize> = mvs.iter().map(|m| m.col).collect();
    assert_eq!(cols, vec![0, 1, 2, 3]);
}

#[test]
fn choices_on_full_board_is_empty() {
    let g = board('o', &["oxox", "oxox", "xoxo", "xoxo"]);
    assert!(Solver::new(false).choices(&g).is_empty());
}

#[test]
fn random_play_adds_one_piece() {
    let mut g = board('o', &["....", "....", "....", "...."]);
    let n = occupied(&g);
    Solver::new(false).random_play_mut(&mut g).unwrap();
    assert_eq!(occupied(&g), n + 1);
    assert_eq!(g.next, Entity::X);
}

#[test]
fn random_play_on_full_board_fails() {
    let mut g = board('o', &["oxox", "oxox", "xoxo", "xoxo"]);
    let before = g.duplicate();
    let r = Solver::new(false).random_play_mut(&mut g);
    assert_eq!(r.unwrap_err(), GameError::NoLegalMove);
    assert_eq!(g, before);
}

#[test]
fn rollout_winner_agrees_with_judge() {
    for _ in 0..20 {
        let mut g = board('o', &["....", "....", "....", "...."]);
        let winner = Solver::new(false).rollplay_random_mut(&mut g);
        match winner {
            Entity::O => assert_eq!(g.judge(), Entity::O),
            Entity::X => assert_eq!(g.judge(), Entity::X),
            Entity::Empty => {
                assert_eq!(g.judge(), Entity::Empty);
                assert_eq!(occupied(&g), g.height * g.width);
            },
        }
    }
}

#[test]
fn rollout_on_decided_board_reports_its_winner() {
    let mut g = board('x', &["....", "....", "....", "oooo"]);
    let before = g.duplicate();
    assert_eq!(Solver::new(false).rollplay_random_mut(&mut g), Entity::O);
    assert_eq!(g, before);
}

#[test]
fn estimate_stays_within_trial_count() {
    let g = board('o', &["....", "....", "....", "...."]);
    let wins = Solver::new(false).estimate_prob_win(&g, 40);
    assert!(wins <= 40);
}

#[test]
fn estimate_of_forced_win_is_every_trial() {
    // Only column 2 is open, and dropping the mover's piece there completes
    // four vertically: every rollout must end in a win for the mover.
    let g = board('o', &["xx.x", "oxoo", "xooo", "ooox"]);
    assert_eq!(g.judge(), Entity::Empty);
    let wins = Solver::new(false).estimate_prob_win(&g, 50);
    assert_eq!(wins, 50);
}

#[test]
fn solve_on_empty_board_places_one_piece() {
    let g = board('o', &["....", "....", "....", "...."]);
    let r = Solver::new(false).solve(&g).unwrap();
    assert_eq!(occupied(&r), 1);
    assert_eq!(r.judge(), Entity::Empty);
    assert_eq!(r.next, Entity::X);
    // the piece lies in the bottom row of one of the four columns
    let placed: Vec<usize> = (0..4).filter(|&c| r.grid[3 * r.width + c] == Entity::O).collect();
    assert_eq!(placed.len(), 1);
    assert!(placed[0] < 4);
}

#[test]
fn solve_takes_an_immediate_win() {
    let g = board('o', &["....", "..o.", "..o.", "..o."]);
    let r = Solver::new(false).solve(&g).unwrap();
    assert_eq!(r.grid[2], Entity::O);
    assert_eq!(r.judge(), Entity::O);
}

#[test]
fn solve_never_hands_the_opponent_a_shown_win() {
    let g = board('o', &["....", ".x..", ".x..", ".xo."]);
    let r = Solver::new(false).solve(&g).unwrap();
    assert_ne!(r.judge(), Entity::X);
}

#[test]
fn solve_on_decided_board_fails() {
    let g = board('o', &["....", "....", "....", "oooo"]);
    let r = Solver::new(false).solve(&g);
    assert_eq!(r.unwrap_err(), GameError::GameAlreadyDecided);
}

#[test]
fn solve_on_full_board_fails() {
    let g = board('o', &["oxox", "oxox", "xoxo", "xoxo"]);
    let r = Solver::new(false).solve(&g);
    assert_eq!(r.unwrap_err(), GameError::NoLegalMove);
}

#[test]
fn solve_result_is_one_move_from_the_input() {
    let g = board('x', &["....", "....", ".o..", ".ox."]);
    let n = occupied(&g);
    let r = Solver::new(true).solve(&g).unwrap();
    assert_eq!(occupied(&r), n + 1);
    assert_eq!(r.next, Entity::O);
    assert_eq!(r.height, g.height);
    assert_eq!(r.width, g.width);
}

#[test]
fn moves_drawn_at_random_are_legal() {
    // exercise the random draw across many calls: the drawn index must
    // always name an open column, so each play succeeds
    for _ in 0..50 {
        let mut g = board('o', &["x.x.", "o.o.", "x.x.", "o.o."]);
        assert!(Solver::new(false).random_play_mut(&mut g).is_ok());
        let n = occupied(&g);
        assert_eq!(n, 9);
    }
}

#[test]
fn estimate_on_board_decided_for_mover_counts_every_trial() {
    let g = board('o', &["....", "....", "....", "oooo"]);
    assert_eq!(Solver::new(false).estimate_prob_win(&g, 30), 30);
}

#[test]
fn estimate_on_board_decided_against_mover_counts_none() {
    let g = board('x', &["....", "....", "....", "oooo"]);
    assert_eq!(Solver::new(false).estimate_prob_win(&g, 30), 0);
}
