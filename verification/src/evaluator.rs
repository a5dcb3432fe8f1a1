//! The Monte Carlo move evaluator: each of the four candidate moves is scored
//! by random playouts run on reseeded clones of the present game, so the
//! hidden future of each branch is independent of the real game's.

use vstd::prelude::*;

use crate::board::{
    lemma_seq_sum_bounds, lemma_seq_sum_positive, lemma_stuck_reasons, lemma_terminal_no_moves,
    seq_sum, spec_blocked_pair, spec_can_move, spec_move, Board, Dir,
};
use crate::game::{
    committed_chain, game_step, game_wf, move_committed, move_ensures, Error, Game, GameView,
};
use crate::rng::{fresh_rng, rand_below};

verus! {

/// A candidate move for the evaluator.
#[derive(Copy, Clone, Debug, PartialEq, Eq)]
pub enum Move {
    Up,
    Down,
    Left,
    Right,
}

/// The board direction a candidate move plays.
pub open spec fn move_dir(m: Move) -> Dir {
    match m {
        Move::Up => Dir::Up,
        Move::Down => Dir::Down,
        Move::Left => Dir::Left,
        Move::Right => Dir::Right,
    }
}

/// Whether a move toward d would change the board: some line frees its cell.
pub open spec fn dir_legal(b: Board, d: Dir) -> bool {
    spec_move(b.0@, b.1, d).2.len() > 0
}

/// No direction can change the board: a playout from it is finished.
pub open spec fn no_move_left(b: Board) -> bool {
    forall|d: Dir| !dir_legal(b, d)
}

/// A playout from state v: a chain of committed moves ending where none
/// remains — `count` of them counted, possibly closed by one more,
/// uncounted, game-ending move.
pub open spec fn playout_from(v: GameView, count: u64) -> bool {
    exists|states: Seq<GameView>|
        #[trigger] committed_chain(states) && states.len() >= 1 && states[0] == v && no_move_left(
            states.last().board,
        ) && (states.len() == count + 1 || states.len() == count + 2)
}

/// One of the trials behind a score: the candidate, played on a well-formed
/// game sharing the scored board, either ends the game at once (`go`), or
/// commits and is followed by a playout of `count` further committed moves.
pub open spec fn trial_outcome(board: Board, d: Dir, go: bool, count: u64) -> bool {
    exists|pre: GameView, post: GameView|
        pre.board == board && game_wf(pre) && #[trigger] move_committed(pre, post, d) && (if go {
            !spec_can_move(post.board.0@)
        } else {
            spec_can_move(post.board.0@) && playout_from(post, count)
        })
}

/// The sum the evaluator averages: each trial contributes its playout count,
/// an immediate ending counting 1.
pub open spec fn trials_avg(ts: Seq<(bool, u64)>) -> int
    decreases ts.len(),
{
    if ts.len() == 0 {
        0
    } else {
        trials_avg(ts.drop_last()) + (if ts.last().0 {
            1int
        } else {
            ts.last().1 as int
        })
    }
}

/// The best playout count among the trials that did not end at once.
pub open spec fn trials_best(ts: Seq<(bool, u64)>) -> int
    decreases ts.len(),
{
    if ts.len() == 0 {
        0
    } else {
        let b = trials_best(ts.drop_last());
        if !ts.last().0 && ts.last().1 > b {
            ts.last().1 as int
        } else {
            b
        }
    }
}

/// The worst playout count among the trials that did not end at once,
/// starting from the evaluator's ceiling of 9999.
pub open spec fn trials_worst(ts: Seq<(bool, u64)>) -> int
    decreases ts.len(),
{
    if ts.len() == 0 {
        9999
    } else {
        let w = trials_worst(ts.drop_last());
        if !ts.last().0 && (ts.last().1 as int) < w {
            ts.last().1 as int
        } else {
            w
        }
    }
}

/// The number of playouts behind each direction's score.
pub const ITERS: u64 = 10000;

/// Play one candidate move on g.
fn step(g: &mut Game, mv: Move) -> (r: Result<Vec<u32>, Error>)
    requires
        old(g).wf(),
    ensures
        final(g).wf(),
        move_ensures(old(g)@, final(g)@, move_dir(mv), r),
{
    match mv {
        Move::Up => g.up(),
        Move::Down => g.down(),
        Move::Left => g.left(),
        Move::Right => g.right(),
    }
}

/// The candidate moves that would change the board, tried on copies.
fn legal_moves(b: &Board) -> (r: Vec<Move>)
    ensures
        forall|t: int| 0 <= t < r@.len() ==> dir_legal(*b, move_dir(#[trigger] r@[t])),
        r@.len() == 0 ==> no_move_left(*b),
{
    let mut r: Vec<Move> = Vec::new();
    let mut t = *b;
    let up_ok = t.up().len() > 0;
    let mut t = *b;
    let down_ok = t.down().len() > 0;
    let mut t = *b;
    let left_ok = t.left().len() > 0;
    let mut t = *b;
    let right_ok = t.right().len() > 0;
    if up_ok {
        r.push(Move::Up);
    }
    if down_ok {
        r.push(Move::Down);
    }
    if left_ok {
        r.push(Move::Left);
    }
    if right_ok {
        r.push(Move::Right);
    }
    proof {
        if r@.len() == 0 {
            assert forall|d: Dir| !dir_legal(*b, d) by {
                match d {
                    Dir::Up => assert(!up_ok),
                    Dir::Down => assert(!down_ok),
                    Dir::Left => assert(!left_ok),
                    Dir::Right => assert(!right_ok),
                }
            }
        }
    }
    r
}

/// One playout: from the given game, play legal moves chosen uniformly at
/// random until no legal move remains, and return how many were committed
/// and survived. The count is realized by a chain of committed moves from
/// the starting state to the final one: exactly c of them, or c plus one
/// more, uncounted, game-ending move. Every committed move adds a tile, so
/// the board's total bounds the count and the playout always ends. When the
/// starting board holds any tile, the end is the terminal position itself:
/// the terminal check fails afterward, unless the only merges the check
/// still sees are pairs whose sum exceeds the cell type.
pub fn run(g: &mut Game) -> (c: u64)
    requires
        old(g).wf(),
    ensures
        final(g).wf(),
        no_move_left(final(g)@.board),
        c <= 16 * (u32::MAX as u64),
        exists|states: Seq<GameView>|
            #[trigger] committed_chain(states) && states.len() >= 1 && states[0] == old(g)@
                && states.last() == final(g)@ && (states.len() == c + 1 || (states.len() == c + 2
                && !spec_can_move(final(g)@.board.0@))),
        (exists|i: int| 0 <= i < 16 && old(g)@.board.0@[i] != 0) ==> !spec_can_move(
            final(g)@.board.0@,
        ) || spec_blocked_pair(final(g)@.board.0@),
{
    let mut c: u64 = 0;
    let mut rng = fresh_rng();
    let ghost mut states: Seq<GameView> = seq![old(g)@];
    loop
        invariant
            g.wf(),
            seq_sum(g@.board.0@) >= seq_sum(old(g)@.board.0@),
            c <= seq_sum(g@.board.0@) - seq_sum(old(g)@.board.0@),
            committed_chain(states),
            states.len() == c + 1,
            states[0] == old(g)@,
            states.last() == g@,
        decreases 16 * (u32::MAX as int) - seq_sum(g@.board.0@),
    {
        proof {
            lemma_seq_sum_bounds(g@.board.0@);
            lemma_seq_sum_bounds(old(g)@.board.0@);
        }
        let board = g.board();
        let legal = legal_moves(&board);
        if legal.len() == 0 {
            proof {
                if exists|i: int| 0 <= i < 16 && old(g)@.board.0@[i] != 0 {
                    lemma_seq_sum_positive(old(g)@.board.0@);
                    if spec_can_move(g@.board.0@) {
                        assert forall|d: Dir| (#[trigger] spec_move(
                            g@.board.0@,
                            g@.board.1,
                            d,
                        )).2.len() == 0 by {
                            assert(!dir_legal(g@.board, d));
                        }
                        lemma_stuck_reasons(g@.board.0@, g@.board.1);
                        if forall|i: int| 0 <= i < 16 ==> g@.board.0@[i] == 0 {
                            crate::board::lemma_seq_sum_all_zero(g@.board.0@);
                            assert(false);
                        }
                    }
                }
            }
            return c;
        }
        let i = rand_below(&mut rng, legal.len());
        let mv = legal[i];
        let ghost pre = g@;
        let r = step(g, mv);
        proof {
            assert(move_committed(pre, g@, move_dir(mv)));
            assert(game_step(pre, g@));
            let prev = states;
            states = states.push(g@);
            assert(states.last() == g@);
            assert forall|i2: int|
                0 <= i2 < states.len() - 1 implies game_step(
                #[trigger] states[i2],
                states[i2 + 1],
            ) by {
                if i2 < prev.len() - 1 {
                    assert(states[i2] == prev[i2] && states[i2 + 1] == prev[i2 + 1]);
                    assert(game_step(prev[i2], prev[i2 + 1]));
                } else {
                    assert(states[i2] == prev.last() && states[i2 + 1] == g@);
                }
            }
            assert(states[0] == prev[0]);
            assert(states.len() == c + 2);
            assert(seq_sum(g@.board.0@) > seq_sum(pre.board.0@));
            lemma_seq_sum_bounds(g@.board.0@);
        }
        match r {
            Ok(_) => {
                c = c + 1;
            },
            Err(Error::GameOver) => {
                proof {
                    assert forall|d: Dir| !dir_legal(g@.board, d) by {
                        lemma_terminal_no_moves(g@.board.0@, g@.board.1, d);
                    }
                    assert(committed_chain(states) && states.len() >= 1 && states[0] == old(g)@
                        && states.last() == g@ && states.len() == c + 2 && !spec_can_move(
                        g@.board.0@,
                    ));
                }
                return c;
            },
            Err(Error::IllegalMove) => {
                proof {
                    assert(false);
                }
                return c;
            },
        }
    }
}

/// The quality of one candidate move: ITERS playouts from reseeded clones of
/// the present game, combined from the average, the worst and the best
/// playout length. A candidate that is illegal from the current board scores
/// exactly 0, decided on the first trial: legality depends only on the
/// board, which cloning and reseeding preserve. For a legal candidate the
/// score is that combination of some such sequence of trial outcomes.
pub fn score(g: Game, mv: Move) -> (s: u64)
    requires
        g.wf(),
    ensures
        !dir_legal(g@.board, move_dir(mv)) ==> s == 0,
        dir_legal(g@.board, move_dir(mv)) ==> exists|ts: Seq<(bool, u64)>|
            #![trigger trials_avg(ts)]
            {
                &&& ts.len() == ITERS
                &&& (forall|t: int|
                    0 <= t < ts.len() ==> trial_outcome(
                        g@.board,
                        move_dir(mv),
                        (#[trigger] ts[t]).0,
                        ts[t].1,
                    ))
                &&& s == trials_avg(ts) / (ITERS as int) + trials_worst(ts) * 10 + trials_best(ts)
            },
{
    let mut avg: u64 = 0;
    let mut best: u64 = 0;
    let mut worst: u64 = 9999;
    let ghost mut ts: Seq<(bool, u64)> = Seq::empty();
    for i in 0..ITERS
        invariant
            g.wf(),
            i > 0 ==> dir_legal(g@.board, move_dir(mv)),
            ts.len() == i,
            forall|t: int|
                0 <= t < ts.len() ==> trial_outcome(
                    g@.board,
                    move_dir(mv),
                    (#[trigger] ts[t]).0,
                    ts[t].1,
                ),
            avg as int == trials_avg(ts),
            best as int == trials_best(ts),
            worst as int == trials_worst(ts),
            avg <= i * 0x10_0000_0000,
            best <= 16 * (u32::MAX as u64),
            worst <= 9999,
    {
        let mut t = g.clone();
        t.rerand();
        let ghost pre = t@;
        let r = step(&mut t, mv);
        proof {
            assert(pre.board == g@.board);
        }
        match r {
            Err(Error::IllegalMove) => {
                return 0;
            },
            Err(Error::GameOver) => {
                avg = avg + 1;
                proof {
                    assert(move_committed(pre, t@, move_dir(mv)));
                    assert(trial_outcome(g@.board, move_dir(mv), true, 0u64));
                    let prev = ts;
                    ts = ts.push((true, 0u64));
                    assert(ts.drop_last() =~= prev);
                    assert(ts.last() == (true, 0u64));
                }
            },
            Ok(_) => {
                let ghost post = t@;
                let c = run(&mut t);
                proof {
                    assert(move_committed(pre, post, move_dir(mv)));
                    assert(spec_can_move(post.board.0@));
                    let st = choose|states: Seq<GameView>|
                        #![trigger committed_chain(states)]
                        committed_chain(states) && states.len() >= 1 && states[0] == post
                            && states.last() == t@ && (states.len() == c + 1 || (states.len() == c
                            + 2 && !spec_can_move(t@.board.0@)));
                    assert(no_move_left(st.last().board));
                    assert(committed_chain(st) && st.len() >= 1 && st[0] == post && no_move_left(
                        st.last().board,
                    ) && (st.len() == c + 1 || st.len() == c + 2));
                    assert(playout_from(post, c));
                    assert(trial_outcome(g@.board, move_dir(mv), false, c));
                    let prev = ts;
                    ts = ts.push((false, c));
                    assert(ts.drop_last() =~= prev);
                    assert(ts.last() == (false, c));
                }
                avg = avg + c;
                if c > best {
                    best = c;
                }
                if c < worst {
                    worst = c;
                }
            },
        }
    }
    avg / ITERS + worst * 10 + best
}

} // verus!
