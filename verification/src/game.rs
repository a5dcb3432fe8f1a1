//! The game layer: one board, one deck, one bonus track and one generator,
//! tied together by the four move operations with their two expected error
//! outcomes, plus reseeding support for simulation branches.

use vstd::prelude::*;

use crate::board::{
    lemma_move_facts, nonzero_count, seq_sum, spec_can_move, spec_move, Board, Dir,
};
use crate::deck::{deck_wf, full_bag, Deck};
use crate::rng::{clone_rng, fresh_rng, rand_below, shuffle_vec};
use vstd::multiset::Multiset;
use vstd::pervasive::VecAdditionalExecFns;

verus! {

broadcast use vstd::seq_lib::group_to_multiset_ensures, vstd::multiset::group_multiset_axioms, vstd::array::group_array_axioms;

/// The state of one game as contracts speak of it: the board, the deck's
/// cards, the bonus track's slots, the preview of upcoming tiles, and the
/// generator. The generator's value is opaque: contracts can state that it
/// is untouched, and nothing more.
pub ghost struct GameView {
    pub board: Board,
    pub deck: Seq<u32>,
    pub track: Seq<bool>,
    pub preview: Seq<u32>,
    pub rng: rand_pcg::Pcg32,
}

/// A running game: the unit of cloning for simulation branches.
pub struct Game {
    rng: rand_pcg::Pcg32,
    b: Board,
    d: Deck,
    g: Vec<bool>,
    next: Vec<u32>,
}

impl View for Game {
    type V = GameView;

    closed spec fn view(&self) -> GameView {
        GameView {
            board: self.b,
            deck: self.d@,
            track: self.g@,
            preview: self.next@,
            rng: self.rng,
        }
    }
}

/// The two expected move outcomes: a shift that changed nothing, and a
/// committed move after which no move remains.
#[derive(Copy, Clone, PartialEq, Eq, Debug)]
pub enum Error {
    IllegalMove,
    GameOver,
}

/// A game is well formed when its preview offers one to three upcoming
/// tiles, none of them empty, its deck holds at most a bag of cards of value
/// 1 to 3, and its track holds at most one cycle of slots.
pub open spec fn game_wf(v: GameView) -> bool {
    &&& 1 <= v.preview.len() <= 3
    &&& (forall|i: int| 0 <= i < v.preview.len() ==> #[trigger] v.preview[i] >= 1)
    &&& deck_wf(v.deck)
    &&& v.track.len() <= 21
    &&& true_count(v.track) <= 1
}

/// 2 to the power e.
pub open spec fn pow2(e: nat) -> nat
    decreases e,
{
    if e == 0 {
        1
    } else {
        2 * pow2((e - 1) as nat)
    }
}

/// The floor of the base-2 logarithm; 0 for inputs below 2.
pub open spec fn spec_log2(n: nat) -> nat
    decreases n,
{
    if n < 2 {
        0
    } else {
        spec_log2(n / 2) + 1
    }
}

proof fn lemma_pow2_monotone(a: nat, b: nat)
    requires
        a <= b,
    ensures
        pow2(a) <= pow2(b),
    decreases b,
{
    if a < b {
        lemma_pow2_monotone(a, (b - 1) as nat);
    }
}

/// The defining bounds of the base-2 logarithm.
proof fn lemma_log2_bounds(n: nat)
    requires
        n >= 1,
    ensures
        pow2(spec_log2(n)) <= n,
        n < pow2(spec_log2(n) + 1),
    decreases n,
{
    if n >= 2 {
        lemma_log2_bounds(n / 2);
    }
}

proof fn lemma_pow2_25()
    ensures
        pow2(25) == 0x2000000,
{
    reveal_with_fuel(pow2, 26);
}

/// The largest exponent the bonus rule may draw for high-water mark m: the
/// floor of the base-2 logarithm of m / 192. For non-barren marks below 192
/// — reachable only through a boost tile — the quotient is 0 and the bound
/// is pinned at 0, so the candidates are {6, 12, 24}.
pub open spec fn giant_exp_bound(m: u32) -> nat {
    if m / 192 == 0 {
        0
    } else {
        spec_log2((m / 192) as nat)
    }
}

/// The three candidates offered with exponent f: low, twice low and four
/// times low, where low is 6 times 2^f.
pub open spec fn giant_triple(f: nat) -> Seq<u32> {
    seq![(6 * pow2(f)) as u32, (12 * pow2(f)) as u32, (24 * pow2(f)) as u32]
}

/// High-water marks that never yield a bonus.
pub open spec fn giant_barren(m: u32) -> bool {
    m == 0 || m == 1 || m == 2 || m == 3 || m == 6 || m == 12 || m == 24
}

/// The candidate sets the bonus rule may produce for high-water mark m.
pub open spec fn giant_candidates_ok(m: u32, v: Seq<u32>) -> bool {
    if m == 48 {
        v == seq![6u32]
    } else if m == 96 {
        v == seq![6u32, 12u32]
    } else if !giant_barren(m) {
        exists|f: nat| f <= giant_exp_bound(m) && v == giant_triple(f)
    } else {
        false
    }
}

/// A fresh bonus track: 21 slots of which exactly one is set.
pub open spec fn fresh_track(s: Seq<bool>) -> bool {
    &&& s.len() == 21
    &&& (exists|p: int| 0 <= p < 21 && #[trigger] s[p])
    &&& (forall|p: int, q: int|
        0 <= p < 21 && 0 <= q < 21 && #[trigger] s[p] && #[trigger] s[q] ==> p == q)
}

/// The number of set slots of s.
pub open spec fn true_count(s: Seq<bool>) -> int
    decreases s.len(),
{
    if s.len() == 0 {
        0
    } else {
        true_count(s.drop_last()) + if s.last() {
            1int
        } else {
            0
        }
    }
}

/// One consumption of the bonus track: the tail slot, holding `slot`, is
/// popped — from a freshly drawn cycle when the track was exhausted.
pub open spec fn track_slot_consumed(pre: Seq<bool>, post: Seq<bool>, slot: bool) -> bool {
    if pre.len() > 0 {
        post == pre.drop_last() && slot == pre.last()
    } else {
        exists|t: Seq<bool>| fresh_track(t) && post == t.drop_last() && slot == t.last()
    }
}

/// One deck draw as the preview's source: a pop, or a refill and a pop.
pub open spec fn deck_step(pre: Seq<u32>, post: Seq<u32>, c: u32) -> bool {
    if pre.len() > 0 {
        post == pre.drop_last() && c == pre.last()
    } else {
        post.to_multiset().insert(c) == full_bag() && post.len() == 11
    }
}

/// How one move advances the hidden draw state, m being the high-water mark
/// at check time: one track slot is consumed, and the new preview is a bonus
/// candidate set exactly when that slot is set and m warrants a bonus —
/// otherwise it is a single deck draw.
pub open spec fn draw_advanced(
    m: u32,
    pre_deck: Seq<u32>,
    pre_track: Seq<bool>,
    post: GameView,
) -> bool {
    exists|slot: bool|
        #[trigger] track_slot_consumed(pre_track, post.track, slot) && if slot && !giant_barren(m) {
            giant_candidates_ok(m, post.preview) && post.deck == pre_deck
        } else {
            post.preview.len() == 1 && deck_step(pre_deck, post.deck, post.preview[0])
        }
}

/// What a move toward d guarantees. A shift that freed nothing is illegal
/// and changes nothing. Otherwise the shift is committed, one tile of the
/// old preview is placed on a freed cell, one track slot is consumed and the
/// preview advances — from the bonus rule exactly when that slot is set and
/// the high-water mark warrants it, else from the deck — and the game-over
/// error is returned exactly when the new board cannot move; the placement
/// stays committed either way. The bonus check is keyed on the maximum after
/// the shift and before the placement, `nm` below, as the original rules
/// have it.
pub open spec fn move_ensures(
    pre: GameView,
    post: GameView,
    d: Dir,
    r: Result<Vec<u32>, Error>,
) -> bool {
    let (nc, nm, freed) = spec_move(pre.board.0@, pre.board.1, d);
    &&& (freed.len() == 0 ==> r == Err::<Vec<u32>, Error>(Error::IllegalMove) && post == pre)
    &&& (freed.len() > 0 ==> {
        &&& move_committed(pre, post, d)
        &&& (r == Err::<Vec<u32>, Error>(Error::GameOver) <==> !spec_can_move(post.board.0@))
        &&& (r matches Ok(p) ==> p@ == post.preview)
        &&& (r matches Err(e) ==> e == Error::GameOver)
    })
}

/// The state change of one committed move toward d: the shift freed cells
/// and is in the new board, one tile of the old preview sits on a freed
/// cell, and the draw state advanced once.
pub open spec fn move_committed(pre: GameView, post: GameView, d: Dir) -> bool {
    let (nc, nm, freed) = spec_move(pre.board.0@, pre.board.1, d);
    &&& freed.len() > 0
    &&& (exists|j: int, k: int|
        0 <= j < freed.len() && 0 <= k < pre.preview.len() && {
            let v = #[trigger] pre.preview[k];
            &&& post.board.0@ == nc.update(#[trigger] freed[j] as int, v)
            &&& post.board.1 == (if v > nm {
                v
            } else {
                nm
            })
            &&& seq_sum(post.board.0@) == seq_sum(pre.board.0@) + v
        })
    &&& draw_advanced(nm, pre.deck, pre.track, post)
}

/// One committed move in some direction.
pub open spec fn game_step(pre: GameView, post: GameView) -> bool {
    exists|d: Dir| move_committed(pre, post, d)
}

/// Each pair of neighbouring states is one committed move apart.
pub open spec fn committed_chain(states: Seq<GameView>) -> bool {
    forall|i: int| 0 <= i < states.len() - 1 ==> game_step(#[trigger] states[i], states[i + 1])
}

/// The cell the boost tile occupies, or -1 when no boost was placed.
pub open spec fn spec_boost_cell(boost: u32, boostpos: usize) -> int {
    if boost != 0 && boostpos < 16 {
        boostpos as int
    } else {
        -1
    }
}

/// The multiset of cards dealt onto the board: the value of every occupied
/// cell except the one at index `skip` (the boost tile's cell, or -1 for
/// none).
pub open spec fn dealt_cards(c: Seq<u32>, skip: int) -> Multiset<u32>
    decreases c.len(),
{
    if c.len() == 0 {
        Multiset::empty()
    } else {
        let rest = dealt_cards(c.drop_last(), skip);
        if c.len() - 1 == skip || c.last() == 0 {
            rest
        } else {
            rest.insert(c.last())
        }
    }
}

proof fn lemma_dealt_cards_empty(c: Seq<u32>, skip: int)
    requires
        forall|i: int| 0 <= i < c.len() && i != skip ==> #[trigger] c[i] == 0,
    ensures
        dealt_cards(c, skip) == Multiset::<u32>::empty(),
    decreases c.len(),
{
    if c.len() > 0 {
        lemma_dealt_cards_empty(c.drop_last(), skip);
    }
}

/// Filling an empty non-boost cell adds exactly that card to the dealt
/// multiset.
proof fn lemma_dealt_cards_update(c: Seq<u32>, skip: int, p: int, v: u32)
    requires
        0 <= p < c.len(),
        p != skip,
        c[p] == 0,
        v != 0,
    ensures
        dealt_cards(c.update(p, v), skip) == dealt_cards(c, skip).insert(v),
    decreases c.len(),
{
    if p == c.len() - 1 {
        assert(c.update(p, v).drop_last() =~= c.drop_last());
    } else {
        lemma_dealt_cards_update(c.drop_last(), skip, p, v);
        assert(c.update(p, v).drop_last() =~= c.drop_last().update(p, v));
        if !(c.len() - 1 == skip || c.last() == 0) {
            assert(dealt_cards(c.drop_last(), skip).insert(v).insert(c.last())
                =~= dealt_cards(c.drop_last(), skip).insert(c.last()).insert(v));
        }
    }
}

proof fn lemma_true_count_all_false(s: Seq<bool>)
    requires
        forall|i: int| 0 <= i < s.len() ==> !(#[trigger] s[i]),
    ensures
        true_count(s) == 0,
    decreases s.len(),
{
    if s.len() > 0 {
        lemma_true_count_all_false(s.drop_last());
    }
}

proof fn lemma_true_count_update(s: Seq<bool>, p: int, v: bool)
    requires
        0 <= p < s.len(),
    ensures
        true_count(s.update(p, v)) == true_count(s) - (if s[p] {
            1int
        } else {
            0
        }) + (if v {
            1int
        } else {
            0
        }),
    decreases s.len(),
{
    if p == s.len() - 1 {
        assert(s.update(p, v).drop_last() =~= s.drop_last());
    } else {
        lemma_true_count_update(s.drop_last(), p, v);
        assert(s.update(p, v).drop_last() =~= s.drop_last().update(p, v));
    }
}

/// The number of set slots is the multiset count of `true`, so a shuffle
/// preserves it.
proof fn lemma_true_count_multiset(s: Seq<bool>)
    ensures
        true_count(s) == s.to_multiset().count(true),
    decreases s.len(),
{
    if s.len() == 0 {
        vstd::multiset::lemma_multiset_empty_len(s.to_multiset());
        s.to_multiset_ensures();
    } else {
        lemma_true_count_multiset(s.drop_last());
        s.drop_last().to_multiset_ensures();
        assert(s.drop_last().push(s.last()) =~= s);
    }
}

proof fn lemma_nonzero_count_all_zero(s: Seq<u32>)
    requires
        forall|i: int| 0 <= i < s.len() ==> #[trigger] s[i] == 0,
    ensures
        nonzero_count(s) == 0,
    decreases s.len(),
{
    if s.len() > 0 {
        lemma_nonzero_count_all_zero(s.drop_last());
    }
}

fn clone_u32_vec(v: &Vec<u32>) -> (r: Vec<u32>)
    ensures
        r@ == v@,
{
    let mut r: Vec<u32> = Vec::new();
    let n = v.len();
    for i in 0..n
        invariant
            n == v@.len(),
            r@ == v@.take(i as int),
    {
        r.push(v[i]);
        proof {
            assert(v@.take(i as int).push(v@[i as int]) =~= v@.take(i as int + 1));
        }
    }
    proof {
        assert(v@.take(n as int) =~= v@);
    }
    r
}

fn clone_bool_vec(v: &Vec<bool>) -> (r: Vec<bool>)
    ensures
        r@ == v@,
{
    let mut r: Vec<bool> = Vec::new();
    let n = v.len();
    for i in 0..n
        invariant
            n == v@.len(),
            r@ == v@.take(i as int),
    {
        r.push(v[i]);
        proof {
            assert(v@.take(i as int).push(v@[i as int]) =~= v@.take(i as int + 1));
        }
    }
    proof {
        assert(v@.take(n as int) =~= v@);
    }
    r
}

/// The floor of the base-2 logarithm of n.
fn floor_log2(n: u32) -> (e: u32)
    requires
        n >= 1,
    ensures
        e == spec_log2(n as nat),
{
    proof {
        lemma_pow2_32();
        lemma_log2_below(n as nat, 32);
    }
    let mut e: u32 = 0;
    let mut m: u32 = n;
    while m >= 2
        invariant
            1 <= m <= n,
            spec_log2(n as nat) == e + spec_log2(m as nat),
            spec_log2(n as nat) < 32,
        decreases m,
    {
        m = m / 2;
        e = e + 1;
    }
    e
}

/// Inputs below 2^k have a logarithm below k.
proof fn lemma_log2_below(n: nat, k: nat)
    requires
        n < pow2(k),
        k >= 1,
    ensures
        spec_log2(n) < k,
    decreases k,
{
    if n >= 2 {
        lemma_log2_below(n / 2, (k - 1) as nat);
    }
}

proof fn lemma_pow2_32()
    ensures
        pow2(32) == 0x1_0000_0000,
{
    reveal_with_fuel(pow2, 33);
}

/// 2 to the power f, for exponents small enough that four times six times
/// the result still fits the cell type.
fn pow2_u32(f: u32) -> (r: u32)
    requires
        pow2(f as nat) <= 0x2000000,
    ensures
        r == pow2(f as nat),
{
    let mut r: u32 = 1;
    let mut i: u32 = 0;
    while i < f
        invariant
            i <= f,
            r == pow2(i as nat),
            pow2(f as nat) <= 0x2000000,
        decreases f - i,
    {
        proof {
            lemma_pow2_monotone(i as nat + 1, f as nat);
        }
        r = 2 * r;
        i = i + 1;
    }
    r
}

impl Game {
    /// The game's well-formedness: see [`game_wf`].
    pub open spec fn wf(self) -> bool {
        game_wf(self@)
    }

    /// Replace the track with a fresh 21-slot cycle holding one set slot at a
    /// position the generator picks.
    fn new_giant(&mut self)
        ensures
            fresh_track(final(self)@.track),
            true_count(final(self)@.track) == 1,
            final(self)@.board == old(self)@.board,
            final(self)@.deck == old(self)@.deck,
            final(self)@.preview == old(self)@.preview,
    {
        let mut v: Vec<bool> = Vec::new();
        for i in 0..21
            invariant
                v@.len() == i,
                forall|q: int| 0 <= q < i ==> !(#[trigger] v@[q]),
        {
            v.push(false);
        }
        let ghost blank = v@;
        let p = rand_below(&mut self.rng, 21);
        v.set(p, true);
        self.g = v;
        proof {
            lemma_true_count_all_false(blank);
            lemma_true_count_update(blank, p as int, true);
            assert(self.g@[p as int]);
            assert forall|a: int, b: int|
                0 <= a < 21 && 0 <= b < 21 && #[trigger] self.g@[a] && #[trigger] self.g@[b]
                implies a == b by {
                if a != p {
                    assert(!self.g@[a]);
                }
                if b != p {
                    assert(!self.g@[b]);
                }
            }
        }
    }

    /// Pop the next track slot (regenerating an exhausted track first). The
    /// result is the bonus candidate set if and only if the consumed slot is
    /// set and the high-water mark warrants a bonus.
    #[verifier::rlimit(30)]
    fn check_giant(&mut self) -> (r: Option<Vec<u32>>)
        requires
            old(self)@.track.len() <= 21,
            true_count(old(self)@.track) <= 1,
        ensures
            final(self)@.board == old(self)@.board,
            final(self)@.deck == old(self)@.deck,
            final(self)@.preview == old(self)@.preview,
            final(self)@.track.len() <= 21,
            true_count(final(self)@.track) <= 1,
            exists|slot: bool|
                #[trigger] track_slot_consumed(old(self)@.track, final(self)@.track, slot) && ((
                r is Some) <==> (slot && !giant_barren(old(self)@.board.1))),
            r matches Some(v) ==> giant_candidates_ok(old(self)@.board.1, v@) && 1 <= v@.len() <= 3
                && forall|i: int| 0 <= i < v@.len() ==> #[trigger] v@[i] >= 6,
    {
        if self.g.len() == 0 {
            self.new_giant();
        }
        let ghost filled = self.g@;
        let slot = match self.g.pop() {
            Some(s) => s,
            None => false,
        };
        proof {
            assert(track_slot_consumed(old(self)@.track, self@.track, slot)) by {
                if old(self)@.track.len() == 0 {
                    assert(fresh_track(filled) && self@.track == filled.drop_last() && slot
                        == filled.last());
                }
            }
            assert(true_count(self@.track) <= 1) by {
                if old(self)@.track.len() == 0 {
                    assert(true_count(filled) == 1);
                } else {
                    assert(filled == old(self)@.track);
                }
                assert(true_count(filled.drop_last()) <= true_count(filled));
            }
        }
        if !slot {
            return None;
        }
        let m = self.b.max_val();
        let r = match m {
            0 | 1 | 2 | 3 | 6 | 12 | 24 => None,
            48 => {
                let mut v: Vec<u32> = Vec::new();
                v.push(6);
                proof {
                    assert(v@ =~= seq![6u32]);
                }
                Some(v)
            },
            96 => {
                let mut v: Vec<u32> = Vec::new();
                v.push(6);
                v.push(12);
                proof {
                    assert(v@ =~= seq![6u32, 12u32]);
                }
                Some(v)
            },
            _ => {
                let q = m / 192;
                let e = if q == 0 {
                    0
                } else {
                    floor_log2(q)
                };
                proof {
                    assert(e == giant_exp_bound(m));
                    lemma_pow2_25();
                    if q >= 1 {
                        lemma_log2_bounds(q as nat);
                        if spec_log2(q as nat) >= 25 {
                            lemma_pow2_monotone(25, spec_log2(q as nat));
                        }
                    }
                    assert(pow2(e as nat) <= 0x2000000);
                }
                let f = rand_below(&mut self.rng, e as usize + 1) as u32;
                proof {
                    lemma_pow2_monotone(f as nat, e as nat);
                }
                let low = 6 * pow2_u32(f);
                let mut v: Vec<u32> = Vec::new();
                v.push(low);
                v.push(low * 2);
                v.push(low * 4);
                proof {
                    assert(pow2(f as nat) >= 1) by {
                        lemma_pow2_monotone(0, f as nat);
                    }
                    assert(v@ =~= giant_triple(f as nat));
                    assert(giant_candidates_ok(m, v@));
                }
                Some(v)
            },
        };
        proof {
            assert(track_slot_consumed(old(self)@.track, self@.track, slot) && ((r is Some) <==> (
            slot && !giant_barren(old(self)@.board.1))));
        }
        r
    }

    /// Advance the draw state by one move: compute the next preview (bonus
    /// candidates exactly when the consumed slot is set and the high-water
    /// mark warrants them, else a deck draw), install it, and return one
    /// tile picked uniformly from the preview that was showing.
    fn pull(&mut self) -> (c: u32)
        requires
            old(self).wf(),
        ensures
            final(self).wf(),
            final(self)@.board == old(self)@.board,
            exists|k: int| 0 <= k < old(self)@.preview.len() && c == #[trigger] old(
                self,
            )@.preview[k],
            c >= 1,
            draw_advanced(old(self)@.board.1, old(self)@.deck, old(self)@.track, final(self)@),
    {
        let ghost pre = self@;
        let giant = self.check_giant();
        let ghost was_some = giant is Some;
        let ghost tpost = self@.track;
        let new_next = match giant {
            Some(v) => v,
            None => {
                let mut v: Vec<u32> = Vec::new();
                v.push(self.d.next(&mut self.rng));
                v
            },
        };
        let i = rand_below(&mut self.rng, self.next.len());
        let c = self.next[i];
        self.next = new_next;
        proof {
            let slot = choose|slot: bool|
                track_slot_consumed(pre.track, tpost, slot) && (was_some <==> (slot
                    && !giant_barren(pre.board.1)));
            assert(track_slot_consumed(pre.track, self@.track, slot) && if slot && !giant_barren(
                pre.board.1,
            ) {
                giant_candidates_ok(pre.board.1, self@.preview) && self@.deck == pre.deck
            } else {
                self@.preview.len() == 1 && deck_step(pre.deck, self@.deck, self@.preview[0])
            });
        }
        c
    }

    /// The current preview, by copy.
    pub fn next(&self) -> (p: Vec<u32>)
        ensures
            p@ == self@.preview,
    {
        clone_u32_vec(&self.next)
    }

    /// A read-only copy of the board.
    pub fn board(&self) -> (b: Board)
        ensures
            b == self@.board,
    {
        self.b
    }

    /// Whether any move remains on the board.
    pub fn can_move(&self) -> (r: bool)
        ensures
            r == spec_can_move(self@.board.0@),
    {
        self.b.can_move()
    }

    /// Complete a move whose shift freed the cells in `open`: fail when
    /// nothing was freed, otherwise place one tile of the old preview on a
    /// freed cell, advance the preview, and report the terminal state.
    fn finish(&mut self, open: Vec<usize>) -> (r: Result<Vec<u32>, Error>)
        requires
            old(self).wf(),
            forall|t: int|
                0 <= t < open@.len() ==> #[trigger] open@[t] < 16 && old(self)@.board.0@[open@[t] as int]
                    == 0,
        ensures
            final(self).wf(),
            open@.len() == 0 ==> r == Err::<Vec<u32>, Error>(Error::IllegalMove) && final(self)@
                == old(self)@,
            open@.len() > 0 ==> {
                &&& (exists|j: int, k: int|
                    0 <= j < open@.len() && 0 <= k < old(self)@.preview.len() && {
                        let v = #[trigger] old(self)@.preview[k];
                        &&& final(self)@.board.0@ == old(self)@.board.0@.update(
                            #[trigger] open@[j] as int,
                            v,
                        )
                        &&& final(self)@.board.1 == (if v > old(self)@.board.1 {
                            v
                        } else {
                            old(self)@.board.1
                        })
                        &&& seq_sum(final(self)@.board.0@) == seq_sum(old(self)@.board.0@) + v
                    })
                &&& draw_advanced(
                    old(self)@.board.1,
                    old(self)@.deck,
                    old(self)@.track,
                    final(self)@,
                )
                &&& (r == Err::<Vec<u32>, Error>(Error::GameOver) <==> !spec_can_move(
                    final(self)@.board.0@,
                ))
                &&& (r matches Ok(p) ==> p@ == final(self)@.preview)
                &&& (r matches Err(e) ==> e == Error::GameOver)
            },
    {
        if open.len() == 0 {
            return Err(Error::IllegalMove);
        }
        let ghost pre = self@;
        let c = self.pull();
        let j = rand_below(&mut self.rng, open.len());
        let pos = open[j];
        let ghost mid = self@;
        let placed = self.b.set(pos, c);
        proof {
            assert(placed);
            crate::board::lemma_seq_sum_update(mid.board.0@, pos as int, c);
            let slot = choose|slot: bool|
                track_slot_consumed(pre.track, mid.track, slot) && if slot && !giant_barren(
                    pre.board.1,
                ) {
                    giant_candidates_ok(pre.board.1, mid.preview) && mid.deck == pre.deck
                } else {
                    mid.preview.len() == 1 && deck_step(pre.deck, mid.deck, mid.preview[0])
                };
            assert(track_slot_consumed(pre.track, self@.track, slot) && if slot && !giant_barren(
                pre.board.1,
            ) {
                giant_candidates_ok(pre.board.1, self@.preview) && self@.deck == pre.deck
            } else {
                self@.preview.len() == 1 && deck_step(pre.deck, self@.deck, self@.preview[0])
            });
        }
        if !self.b.can_move() {
            return Err(Error::GameOver);
        }
        Ok(self.next())
    }

    /// Shift a direction's lines, then complete the move. See
    /// [`move_ensures`] for the full guarantee shared by the four moves.
    fn do_move(&mut self, d: Dir) -> (r: Result<Vec<u32>, Error>)
        requires
            old(self).wf(),
        ensures
            final(self).wf(),
            move_ensures(old(self)@, final(self)@, d, r),
    {
        let ghost pre = self@;
        proof {
            lemma_move_facts(pre.board.0@, pre.board.1, d, 4);
        }
        let open = match d {
            Dir::Up => self.b.up(),
            Dir::Down => self.b.down(),
            Dir::Left => self.b.left(),
            Dir::Right => self.b.right(),
        };
        let ghost mid = self@;
        let r = self.finish(open);
        proof {
            let (nc, nm, freed) = spec_move(pre.board.0@, pre.board.1, d);
            if freed.len() == 0 {
                assert(mid.board.0 =~= pre.board.0);
            }
        }
        r
    }

    /// Move toward the top edge.
    pub fn up(&mut self) -> (r: Result<Vec<u32>, Error>)
        requires
            old(self).wf(),
        ensures
            final(self).wf(),
            move_ensures(old(self)@, final(self)@, Dir::Up, r),
    {
        self.do_move(Dir::Up)
    }

    /// Move toward the bottom edge.
    pub fn down(&mut self) -> (r: Result<Vec<u32>, Error>)
        requires
            old(self).wf(),
        ensures
            final(self).wf(),
            move_ensures(old(self)@, final(self)@, Dir::Down, r),
    {
        self.do_move(Dir::Down)
    }

    /// Move toward the left edge.
    pub fn left(&mut self) -> (r: Result<Vec<u32>, Error>)
        requires
            old(self).wf(),
        ensures
            final(self).wf(),
            move_ensures(old(self)@, final(self)@, Dir::Left, r),
    {
        self.do_move(Dir::Left)
    }

    /// Move toward the right edge.
    pub fn right(&mut self) -> (r: Result<Vec<u32>, Error>)
        requires
            old(self).wf(),
        ensures
            final(self).wf(),
            move_ensures(old(self)@, final(self)@, Dir::Right, r),
    {
        self.do_move(Dir::Right)
    }

    /// Reseed the generator and reshuffle the hidden state — the deck's and
    /// the track's order — leaving the board and the preview untouched: the
    /// means of decorrelating a simulation branch from a shared present.
    pub fn rerand(&mut self)
        requires
            old(self).wf(),
        ensures
            final(self).wf(),
            final(self)@.board == old(self)@.board,
            final(self)@.preview == old(self)@.preview,
            final(self)@.deck.to_multiset() == old(self)@.deck.to_multiset(),
            final(self)@.deck.len() == old(self)@.deck.len(),
            final(self)@.track.to_multiset() == old(self)@.track.to_multiset(),
            final(self)@.track.len() == old(self)@.track.len(),
    {
        self.rng = fresh_rng();
        let ghost dpre = self.d.contents@;
        shuffle_vec(&mut self.d.contents, &mut self.rng);
        proof {
            assert(self.d.contents@.to_multiset() == dpre.to_multiset());
        }
        let ghost dpost = self.d.contents@;
        let ghost tpre = self.g@;
        shuffle_vec(&mut self.g, &mut self.rng);
        proof {
            lemma_true_count_multiset(tpre);
            lemma_true_count_multiset(self.g@);
            assert(self@.deck == dpost);
            dpre.to_multiset_ensures();
            dpost.to_multiset_ensures();
            assert forall|i: int| 0 <= i < dpost.len() implies 1 <= #[trigger] dpost[i] <= 3 by {
                assert(dpost.contains(dpost[i]));
                assert(dpost.to_multiset().count(dpost[i]) > 0);
                assert(dpre.to_multiset().count(dpost[i]) > 0);
                assert(dpre.contains(dpost[i]));
            }
        }
    }

    /// A new game. The empty board takes the boost tile at boostpos when the
    /// boost is non-zero, and the first bonus cycle is then suppressed (a
    /// blank track); with no boost a fresh track is drawn at once. Eight deck
    /// cards are dealt into distinct empty cells chosen uniformly at random
    /// — the same distribution as retrying random cells until an empty one
    /// is hit, but guaranteed to end. The seeding consumes no track slots,
    /// and one more draw becomes the first preview.
    pub fn new(boost: u32, boostpos: usize) -> (g: Game)
        ensures
            g.wf(),
            g@.preview.len() == 1 && 1 <= g@.preview[0] <= 3,
            nonzero_count(g@.board.0@) == 8 + if boost != 0 && boostpos < 16 {
                1int
            } else {
                0
            },
            boost != 0 && boostpos < 16 ==> g@.board.0@[boostpos as int] == boost,
            boost == 0 ==> fresh_track(g@.track),
            boost != 0 ==> g@.track.len() == 21 && forall|q: int|
                0 <= q < 21 ==> !(#[trigger] g@.track[q]),
            g@.deck.len() == 3,
            forall|i: int|
                0 <= i < 16 && i != spec_boost_cell(boost, boostpos) ==> #[trigger] g@.board.0@[i]
                    == 0 || 1 <= g@.board.0@[i] <= 3,
            g@.deck.to_multiset().insert(g@.preview[0]).add(
                dealt_cards(g@.board.0@, spec_boost_cell(boost, boostpos)),
            ) == full_bag(),
    {
        let mut rng = fresh_rng();
        let d = Deck::new(&mut rng);
        let mut blank: Vec<bool> = Vec::new();
        for i in 0..21
            invariant
                blank@.len() == i,
                forall|q: int| 0 <= q < i ==> !(#[trigger] blank@[q]),
        {
            blank.push(false);
        }
        let mut s = Game { rng, b: Board::default(), d, g: blank, next: Vec::new() };
        let ghost skip = spec_boost_cell(boost, boostpos);
        let ghost empty_cells_seq = s.b.0@;
        s.b.set(boostpos, boost);
        proof {
            lemma_nonzero_count_all_zero(empty_cells_seq);
            if boostpos < 16 {
                crate::board::lemma_nonzero_count_update(empty_cells_seq, boostpos as int, boost);
            }
            crate::board::lemma_nonzero_count_le(s.b.0@);
            lemma_dealt_cards_empty(s.b.0@, skip);
            assert(s@.deck.to_multiset().add(dealt_cards(s.b.0@, skip)) =~= s@.deck.to_multiset());
        }
        if boost == 0 {
            s.new_giant();
        } else {
            proof {
                lemma_true_count_all_false(s.g@);
            }
        }
        let ghost init_nz = nonzero_count(s.b.0@);
        for k in 0..8
            invariant
                s@.deck.len() == 12 - k,
                deck_wf(s@.deck),
                nonzero_count(s@.board.0@) == init_nz + k,
                init_nz == if boost != 0 && boostpos < 16 {
                    1int
                } else {
                    0
                },
                boost != 0 && boostpos < 16 ==> s@.board.0@[boostpos as int] == boost,
                boost == 0 ==> fresh_track(s@.track),
                boost != 0 ==> s@.track.len() == 21 && forall|q: int|
                    0 <= q < 21 ==> !(#[trigger] s@.track[q]),
                true_count(s@.track) <= 1,
                s@.preview.len() == 0,
                forall|i: int|
                    0 <= i < 16 && i != skip ==> #[trigger] s@.board.0@[i] == 0 || 1
                        <= s@.board.0@[i] <= 3,
                skip == spec_boost_cell(boost, boostpos),
                s@.deck.to_multiset().add(dealt_cards(s@.board.0@, skip)) == full_bag(),
        {
            let ghost deck_pre = s@.deck;
            let c = s.d.next(&mut s.rng);
            proof {
                assert(deck_pre.drop_last().push(c) =~= deck_pre);
                deck_pre.to_multiset_ensures();
                assert(s@.deck.to_multiset().insert(c) =~= deck_pre.to_multiset());
            }
            let empties = s.b.empty_cells();
            proof {
                crate::board::lemma_nonzero_count_le(s.b.0@);
            }
            let p = empties[rand_below(&mut s.rng, empties.len())];
            let ghost cells = s.b.0@;
            let placed = s.b.set(p, c);
            proof {
                assert(placed);
                crate::board::lemma_nonzero_count_update(cells, p as int, c);
                lemma_dealt_cards_update(cells, skip, p as int, c);
                assert(s@.deck.to_multiset().add(dealt_cards(s.b.0@, skip))
                    =~= s@.deck.to_multiset().insert(c).add(dealt_cards(cells, skip)));
            }
        }
        let ghost deck_pre = s@.deck;
        let c = s.d.next(&mut s.rng);
        proof {
            assert(deck_pre.drop_last().push(c) =~= deck_pre);
            deck_pre.to_multiset_ensures();
            assert(s@.deck.to_multiset().insert(c) =~= deck_pre.to_multiset());
            assert(s@.deck.to_multiset().insert(c).add(dealt_cards(s.b.0@, skip))
                =~= deck_pre.to_multiset().add(dealt_cards(s.b.0@, skip)));
        }
        s.next.push(c);
        s
    }

    /// The game's parts, for storage or inspection: the board, the deck's
    /// cards, the track's slots, the preview, and a copy of the generator.
    pub fn parts(&self) -> (t: (Board, Vec<u32>, Vec<bool>, Vec<u32>, rand_pcg::Pcg32))
        ensures
            t.0 == self@.board,
            t.1@ == self@.deck,
            t.2@ == self@.track,
            t.3@ == self@.preview,
    {
        (
            self.b,
            clone_u32_vec(&self.d.contents),
            clone_bool_vec(&self.g),
            clone_u32_vec(&self.next),
            clone_rng(&self.rng),
        )
    }

    /// Rebuild a game from stored parts. The preview must offer one to three
    /// non-empty tiles, the deck at most a bag of cards of value 1 to 3, and
    /// the track at most one cycle of slots.
    pub fn from_parts(
        b: Board,
        deck: Vec<u32>,
        track: Vec<bool>,
        preview: Vec<u32>,
        rng: rand_pcg::Pcg32,
    ) -> (g: Game)
        requires
            1 <= preview@.len() <= 3,
            forall|i: int| 0 <= i < preview@.len() ==> #[trigger] preview@[i] >= 1,
            deck_wf(deck@),
            track@.len() <= 21,
            true_count(track@) <= 1,
        ensures
            g.wf(),
            g@.board == b,
            g@.deck == deck@,
            g@.track == track@,
            g@.preview == preview@,
            g@.rng == rng,
    {
        Game { rng, b, d: Deck { contents: deck }, g: track, next: preview }
    }
}

impl Clone for Game {
    /// A full copy of the game; the copy's generator state is its own, so
    /// nothing is promised of the clone's future draws.
    fn clone(&self) -> (g: Game)
        ensures
            g@.board == self@.board,
            g@.deck == self@.deck,
            g@.track == self@.track,
            g@.preview == self@.preview,
            g.wf() <==> self.wf(),
    {
        Game {
            rng: clone_rng(&self.rng),
            b: self.b,
            d: self.d.clone(),
            g: clone_bool_vec(&self.g),
            next: clone_u32_vec(&self.next),
        }
    }
}

} // verus!
