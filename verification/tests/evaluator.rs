use rand::SeedableRng;
use rand_pcg::Pcg32;
use threes::board::Board;
use threes::evaluator::{run, score, Move};
use threes::game::Game;

// A board on which no direction can move.
const STUCK: [u32; 16] = [3, 1, 3, 1, 2, 3, 2, 3, 3, 1, 3, 1, 2, 3, 2, 3];

// A board whose only effect of a left move is sliding the first row, freeing
// cell 3; placing the previewed 1 there leaves the stuck board.
const ONE_LEFT: [u32; 16] = [0, 3, 1, 3, 2, 3, 2, 3, 3, 1, 3, 1, 2, 3, 2, 3];

#[test]
fn score_is_zero_for_illegal_direction() {
    let rng = Pcg32::seed_from_u64(1);
    let g = Game::from_parts(Board(STUCK, 3), vec![1, 2, 3], vec![false; 21], vec![1], rng);
    assert_eq!(score(g.clone(), Move::Up), 0);
    assert_eq!(score(g.clone(), Move::Down), 0);
    assert_eq!(score(g.clone(), Move::Left), 0);
    assert_eq!(score(g, Move::Right), 0);
}

#[test]
fn score_counts_immediate_endings() {
    // the candidate move ends the game at once in every trial: the average
    // playout count is 1, the worst stays at its initial 9999, the best at 0
    let rng = Pcg32::seed_from_u64(2);
    let g = Game::from_parts(Board(ONE_LEFT, 3), vec![1, 2, 3], vec![false; 21], vec![1], rng);
    assert_eq!(score(g, Move::Left), 1 + 9999 * 10);
}

#[test]
fn run_plays_until_no_move_remains() {
    let rng = Pcg32::seed_from_u64(4);
    let mut g = Game::from_parts(Board(ONE_LEFT, 3), vec![1, 2, 3], vec![false; 21], vec![1], rng);
    run(&mut g);
    assert!(!g.can_move());
}

#[test]
fn run_on_stuck_board_counts_nothing() {
    let rng = Pcg32::seed_from_u64(6);
    let mut g = Game::from_parts(Board(STUCK, 3), vec![1, 2, 3], vec![false; 21], vec![1], rng);
    assert_eq!(run(&mut g), 0);
    assert_eq!(g.board().0, STUCK);
}
