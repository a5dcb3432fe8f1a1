use rand::SeedableRng;
use rand_pcg::Pcg32;
use threes::board::Board;
use threes::game::{Error, Game};

// A board on which no direction can move: no empty cell, no adjacent pair
// that combines.
const STUCK: [u32; 16] = [3, 1, 3, 1, 2, 3, 2, 3, 3, 1, 3, 1, 2, 3, 2, 3];

fn blank_track() -> Vec<bool> {
    vec![false; 21]
}

#[test]
fn new_seeds_eight_cards_and_boost() {
    let g = Game::new(192, 12);
    let b = g.board();
    assert_eq!(b.0[12], 192);
    assert_eq!(b.0.iter().filter(|&&x| x != 0).count(), 9);
    assert!(b.0.iter().all(|&x| x == 0 || x == 192 || (1..=3).contains(&x)));
    assert_eq!(b.1, 192);
    let p = g.next();
    assert_eq!(p.len(), 1);
    assert!((1..=3).contains(&p[0]));
    assert!(g.can_move());
}

#[test]
fn new_without_boost_seeds_eight_cards() {
    let g = Game::new(0, 0);
    let b = g.board();
    assert_eq!(b.0.iter().filter(|&&x| x != 0).count(), 8);
    assert!(b.0.iter().all(|&x| x == 0 || (1..=3).contains(&x)));
}

#[test]
fn illegal_move_changes_nothing() {
    let rng = Pcg32::seed_from_u64(3);
    let mut g = Game::from_parts(Board(STUCK, 3), vec![1, 2, 3], blank_track(), vec![3], rng);
    let (b0, d0, t0, p0, _) = g.parts();
    assert_eq!(g.up(), Err(Error::IllegalMove));
    assert_eq!(g.down(), Err(Error::IllegalMove));
    assert_eq!(g.left(), Err(Error::IllegalMove));
    assert_eq!(g.right(), Err(Error::IllegalMove));
    let (b1, d1, t1, p1, _) = g.parts();
    assert_eq!(b0, b1);
    assert_eq!(d0, d1);
    assert_eq!(t0, t1);
    assert_eq!(p0, p1);
}

#[test]
fn game_over_leaves_placement_visible() {
    // only the first row can shift left, freeing cell 3; placing the
    // previewed 1 there leaves a board on which nothing moves
    let start = [0, 3, 1, 3, 2, 3, 2, 3, 3, 1, 3, 1, 2, 3, 2, 3];
    let rng = Pcg32::seed_from_u64(5);
    let mut g = Game::from_parts(Board(start, 3), vec![1, 2, 3], blank_track(), vec![1], rng);
    assert_eq!(g.left(), Err(Error::GameOver));
    assert_eq!(g.board().0, STUCK);
    assert!(!g.can_move());
    // the next preview was still drawn from the deck's tail before the end
    assert_eq!(g.next(), vec![3]);
}

#[test]
fn rerand_keeps_board_and_preview() {
    let rng = Pcg32::seed_from_u64(9);
    let deck = vec![1, 1, 2, 2, 3, 3, 1, 2, 3, 1, 2, 3];
    let mut track = blank_track();
    track[4] = true;
    let mut g = Game::from_parts(Board(STUCK, 3), deck.clone(), track.clone(), vec![2], rng);
    g.rerand();
    let (b, d, t, p, _) = g.parts();
    assert_eq!(b, Board(STUCK, 3));
    assert_eq!(p, vec![2]);
    let mut sorted = d.clone();
    sorted.sort();
    let mut want = deck.clone();
    want.sort();
    assert_eq!(sorted, want);
    assert_eq!(t.len(), track.len());
    assert_eq!(t.iter().filter(|&&x| x).count(), 1);
}

#[test]
fn parts_round_trip() {
    let rng = Pcg32::seed_from_u64(13);
    let g = Game::from_parts(Board(STUCK, 3), vec![3, 2, 1], blank_track(), vec![1, 2], rng);
    let (b, d, t, p, r) = g.parts();
    let g2 = Game::from_parts(b, d.clone(), t.clone(), p.clone(), r);
    let (b2, d2, t2, p2, _) = g2.parts();
    assert_eq!(b, b2);
    assert_eq!(d, d2);
    assert_eq!(t, t2);
    assert_eq!(p, p2);
}

// A board whose only left-shifting line is the first row; the placed tile
// lands on the freed cell 3. The maximum is the first cell's value.
fn one_row_board(first: u32) -> Board {
    let mut cells = [0u32; 16];
    cells[1] = first;
    cells[2] = 3;
    cells[3] = 1;
    Board(cells, first)
}

fn armed_track() -> Vec<bool> {
    // the tail slot, the one consumed next, is the set one
    let mut t = blank_track();
    t[20] = true;
    t
}

#[test]
fn giant_preview_table() {
    // a set track slot with maximum 48 offers {6}
    let rng = Pcg32::seed_from_u64(31);
    let mut g = Game::from_parts(one_row_board(48), vec![1, 2, 3], armed_track(), vec![1], rng);
    assert_eq!(g.left(), Ok(vec![6]));
    assert_eq!(g.board().0[3], 1);

    // with maximum 96 it offers {6, 12}
    let rng = Pcg32::seed_from_u64(32);
    let mut g = Game::from_parts(one_row_board(96), vec![1, 2, 3], armed_track(), vec![1], rng);
    assert_eq!(g.left(), Ok(vec![6, 12]));

    // with maximum 192 the exponent range is a single point: {6, 12, 24}
    let rng = Pcg32::seed_from_u64(33);
    let mut g = Game::from_parts(one_row_board(192), vec![1, 2, 3], armed_track(), vec![1], rng);
    assert_eq!(g.left(), Ok(vec![6, 12, 24]));

    // with maximum 384 the low candidate is 6 or 12
    let rng = Pcg32::seed_from_u64(34);
    let mut g = Game::from_parts(one_row_board(384), vec![1, 2, 3], armed_track(), vec![1], rng);
    let p = g.left().unwrap();
    assert!(p == vec![6, 12, 24] || p == vec![12, 24, 48]);
}

#[test]
fn giant_barren_falls_back_to_deck() {
    // a set track slot with maximum 24 yields no bonus: the preview comes
    // from the deck's tail
    let rng = Pcg32::seed_from_u64(35);
    let mut g = Game::from_parts(one_row_board(24), vec![1, 2, 3], armed_track(), vec![1], rng);
    assert_eq!(g.left(), Ok(vec![3]));
}

#[test]
fn exhausted_track_regenerates() {
    let rng = Pcg32::seed_from_u64(36);
    let mut g = Game::from_parts(one_row_board(3), vec![1, 2, 3], Vec::new(), vec![1], rng);
    assert!(g.left().is_ok());
    let (_, _, t, _, _) = g.parts();
    assert_eq!(t.len(), 20);
}

#[test]
fn moves_commit_one_preview_tile() {
    // an open board: a legal move places exactly one new tile, so the total
    // of the cells grows by the placed preview value
    let start = [0, 3, 1, 3, 0, 0, 0, 0, 0, 0, 0, 0, 0, 0, 0, 0];
    let rng = Pcg32::seed_from_u64(21);
    let mut g = Game::from_parts(Board(start, 3), vec![1, 2, 3], blank_track(), vec![2], rng);
    let before: u32 = g.board().0.iter().sum();
    let r = g.left();
    assert!(r.is_ok());
    let after: u32 = g.board().0.iter().sum();
    assert_eq!(after, before + 2);
}
