use threes::board::Board;

#[test]
fn left() {
    let mut b = Board([3, 0, 1, 2, 6, 6, 1, 2, 12, 6, 3, 1, 0, 3, 6, 6], 12);
    assert_eq!(b.left(), vec![3, 7, 15]);

    let want = Board([3, 1, 2, 0, 12, 1, 2, 0, 12, 6, 3, 1, 3, 6, 6, 0], 12);
    assert_eq!(b, want);
    assert!(b.can_move());
}

#[test]
fn right() {
    let mut b = Board([3, 0, 1, 2, 6, 6, 1, 3, 12, 6, 3, 1, 0, 3, 6, 6], 12);
    assert_eq!(b.right(), vec![0, 4, 12]);

    let want = Board([0, 3, 0, 3, 0, 12, 1, 3, 12, 6, 3, 1, 0, 0, 3, 12], 12);
    assert_eq!(b, want);
    assert!(b.can_move());
}

#[test]
fn up() {
    let mut b = Board([3, 0, 1, 2, 6, 6, 1, 1, 12, 6, 3, 3, 12, 3, 6, 6], 12);
    assert_eq!(b.up(), vec![12, 13, 15]);

    let want = Board([3, 6, 1, 3, 6, 6, 1, 3, 24, 3, 3, 6, 0, 0, 6, 0], 24);
    assert_eq!(b, want);
    assert!(b.can_move());
}

#[test]
fn down() {
    let mut b = Board([3, 0, 1, 2, 6, 6, 1, 1, 12, 6, 3, 3, 12, 3, 6, 6], 12);
    assert_eq!(b.down(), vec![0, 1, 3]);

    let want = Board([0, 0, 1, 0, 3, 0, 1, 3, 6, 12, 3, 3, 24, 3, 6, 6], 24);
    assert_eq!(b, want);
    assert!(b.can_move());
}

#[test]
fn down_bug() {
    let mut b = Board([1, 0, 2, 0, 6, 0, 0, 1, 12, 3, 6, 0, 3072, 12, 6, 2], 3072);
    assert_eq!(b.down(), vec![2, 3]);
}

#[test]
fn can_move() {
    let b = Board([3, 1, 3, 1, 2, 3, 2, 3, 3, 1, 3, 1, 2, 3, 2, 3], 3);
    assert!(!b.can_move());
}

#[test]
fn combine_table() {
    assert!(threes::board::combines(1, 2));
    assert!(threes::board::combines(2, 1));
    assert!(threes::board::combines(3, 3));
    assert!(threes::board::combines(6, 6));
    assert!(!threes::board::combines(1, 1));
    assert!(!threes::board::combines(2, 2));
    assert!(!threes::board::combines(1, 3));
    assert!(!threes::board::combines(3, 6));
    assert!(threes::board::combines(0, 0));
    assert!(!threes::board::combines(3, 0));
}

#[test]
fn merge_updates_max() {
    // a merge produces the pair's sum and raises the maximum only when the
    // sum exceeds it
    let mut b = Board([3, 3, 0, 0, 0, 0, 0, 0, 0, 0, 0, 0, 0, 0, 0, 0], 3);
    assert_eq!(b.left(), vec![3]);
    assert_eq!(b.0[0], 6);
    assert_eq!(b.1, 6);

    let mut b = Board([3, 3, 0, 0, 0, 0, 0, 0, 0, 0, 0, 0, 0, 0, 0, 0], 12);
    b.left();
    assert_eq!(b.0[0], 6);
    assert_eq!(b.1, 12);
}

#[test]
fn shift_conserves_sum() {
    // a move never changes the board's total and every freed index holds 0
    let start = [3u32, 0, 1, 2, 6, 6, 1, 2, 12, 6, 3, 1, 0, 3, 6, 6];
    let mut b = Board(start, 12);
    let freed = b.left();
    let before: u32 = start.iter().sum();
    let after: u32 = b.0.iter().sum();
    assert_eq!(before, after);
    for i in freed {
        assert_eq!(b.0[i], 0);
    }
}

#[test]
fn set_places_only_on_empty() {
    let mut b = Board([0; 16], 0);
    assert!(b.set(5, 6));
    assert_eq!(b.0[5], 6);
    assert_eq!(b.1, 6);
    assert!(!b.set(5, 3));
    assert!(!b.set(16, 3));
    assert!(b.set(0, 1));
    assert_eq!(b.1, 6);
    assert_eq!(b.max_val(), 6);
}

#[test]
fn empty_cells_lists_zeroes() {
    let b = Board([1, 0, 2, 0, 6, 0, 0, 1, 12, 3, 6, 0, 3072, 12, 6, 2], 3072);
    assert_eq!(b.empty_cells(), vec![1, 3, 5, 6, 11]);
}
