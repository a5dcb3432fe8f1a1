//! The card deck: a shuffled twelve-card bag over four 1s, four 2s and four
//! 3s that refills and reshuffles itself when it runs out.

use vstd::prelude::*;

use crate::rng::shuffle_vec;
use vstd::multiset::Multiset;

verus! {

broadcast use vstd::seq_lib::group_to_multiset_ensures, vstd::multiset::group_multiset_axioms;

/// The full bag: four cards of each value 1, 2 and 3.
pub open spec fn full_bag() -> Multiset<u32> {
    Multiset::empty().insert(1u32).insert(1u32).insert(1u32).insert(1u32).insert(2u32).insert(
        2u32,
    ).insert(2u32).insert(2u32).insert(3u32).insert(3u32).insert(3u32).insert(3u32)
}

/// A deck holds at most one bag's worth of cards, all of value 1, 2 or 3.
pub open spec fn deck_wf(s: Seq<u32>) -> bool {
    s.len() <= 12 && forall|i: int| 0 <= i < s.len() ==> 1 <= #[trigger] s[i] <= 3
}

/// The deck: cards are drawn from the tail of its card sequence.
pub struct Deck {
    pub contents: Vec<u32>,
}

impl View for Deck {
    type V = Seq<u32>;

    open spec fn view(&self) -> Seq<u32> {
        self.contents@
    }
}

/// A full bag holds twelve cards: exactly four of each value 1, 2 and 3 and
/// nothing else, so any twelve consecutive draws that start at a refill
/// return four cards of each value, whatever order the shuffle chose.
pub proof fn lemma_full_bag_draw_counts(s: Seq<u32>)
    requires
        s.to_multiset() == full_bag(),
    ensures
        s.len() == 12,
        s.to_multiset().count(1u32) == 4,
        s.to_multiset().count(2u32) == 4,
        s.to_multiset().count(3u32) == 4,
        forall|v: u32| !(v == 1 || v == 2 || v == 3) ==> s.to_multiset().count(v) == 0,
{
    s.to_multiset_ensures();
    assert(full_bag().len() == 12);
}

/// Twelve consecutive draws that start at a refill return four cards of each
/// value: popping a full shuffled bag from the tail twelve times hands out
/// exactly the bag's cards, whatever order the shuffle chose. `decks` are the
/// thirteen successive deck states and `draws` the twelve cards drawn.
pub proof fn lemma_twelve_draws(decks: Seq<Seq<u32>>, draws: Seq<u32>)
    requires
        decks.len() == 13,
        draws.len() == 12,
        decks[0].to_multiset() == full_bag(),
        forall|i: int|
            0 <= i < 12 ==> #[trigger] decks[i + 1] == decks[i].drop_last() && draws[i]
                == decks[i].last(),
    ensures
        draws.to_multiset() == full_bag(),
        draws.to_multiset().count(1u32) == 4,
        draws.to_multiset().count(2u32) == 4,
        draws.to_multiset().count(3u32) == 4,
{
    decks[0].to_multiset_ensures();
    assert(decks[0].len() == 12);
    lemma_drain_steps(decks, draws, 12);
    assert(decks[12].to_multiset().len() == 0);
    vstd::multiset::lemma_multiset_empty_len(decks[12].to_multiset());
    assert(draws.take(12) =~= draws);
    assert(draws.to_multiset() =~= full_bag());
    lemma_full_bag_draw_counts(draws);
}

/// After i of the twelve pops, the cards drawn so far and the cards left
/// still union back to the bag the refill installed.
proof fn lemma_drain_steps(decks: Seq<Seq<u32>>, draws: Seq<u32>, i: int)
    requires
        decks.len() == 13,
        draws.len() == 12,
        decks[0].len() == 12,
        0 <= i <= 12,
        forall|j: int|
            0 <= j < 12 ==> #[trigger] decks[j + 1] == decks[j].drop_last() && draws[j]
                == decks[j].last(),
    ensures
        decks[i].len() == 12 - i,
        decks[i].to_multiset().add(draws.take(i).to_multiset()) =~= decks[0].to_multiset(),
    decreases i,
{
    if i == 0 {
        assert(draws.take(0).to_multiset() =~= Multiset::<u32>::empty()) by {
            draws.take(0).to_multiset_ensures();
            vstd::multiset::lemma_multiset_empty_len(draws.take(0).to_multiset());
        }
    } else {
        lemma_drain_steps(decks, draws, i - 1);
        let j = i - 1;
        let pre = decks[j];
        pre.to_multiset_ensures();
        assert(decks[j + 1] == decks[j].drop_last() && draws[j] == decks[j].last());
        assert(decks[i] == pre.drop_last() && draws[i - 1] == pre.last());
        assert(pre.drop_last().push(pre.last()) =~= pre);
        assert(decks[i].to_multiset().insert(draws[i - 1]) =~= pre.to_multiset());
        assert(draws.take(i - 1).push(draws[i - 1]) =~= draws.take(i));
        draws.take(i - 1).to_multiset_ensures();
    }
}

/// Every card of a full bag is a 1, a 2 or a 3.
pub proof fn lemma_full_bag_values(s: Seq<u32>)
    requires
        s.to_multiset() == full_bag(),
    ensures
        forall|i: int| 0 <= i < s.len() ==> 1 <= #[trigger] s[i] <= 3,
{
    s.to_multiset_ensures();
    assert forall|i: int| 0 <= i < s.len() implies 1 <= #[trigger] s[i] <= 3 by {
        assert(s.contains(s[i]));
        assert(s.to_multiset().count(s[i]) > 0);
    }
}

impl Deck {
    /// The number of 1s, 2s and 3s currently in the deck.
    pub fn counts(&self) -> (r: [u32; 3])
        requires
            deck_wf(self@),
        ensures
            r@[0] == self@.to_multiset().count(1u32),
            r@[1] == self@.to_multiset().count(2u32),
            r@[2] == self@.to_multiset().count(3u32),
    {
        let mut acc: [u32; 3] = [0u32; 3];
        let n = self.contents.len();
        for i in 0..n
            invariant
                n == self@.len(),
                deck_wf(self@),
                acc@.len() == 3,
                acc@[0] == self@.take(i as int).to_multiset().count(1u32),
                acc@[1] == self@.take(i as int).to_multiset().count(2u32),
                acc@[2] == self@.take(i as int).to_multiset().count(3u32),
                acc@[0] + acc@[1] + acc@[2] <= i,
        {
            let v = self.contents[i];
            proof {
                let t = self@.take(i as int);
                assert(t.push(self@[i as int]) =~= self@.take(i as int + 1));
                t.to_multiset_ensures();
            }
            acc[(v - 1) as usize] = acc[(v - 1) as usize] + 1;
        }
        proof {
            assert(self@.take(n as int) =~= self@);
        }
        acc
    }

    /// A freshly shuffled full deck.
    pub fn new(rng: &mut rand_pcg::Pcg32) -> (d: Deck)
        ensures
            d@.to_multiset() == full_bag(),
            d@.len() == 12,
            deck_wf(d@),
    {
        let d = Deck { contents: Self::newv(rng) };
        proof {
            lemma_full_bag_values(d@);
        }
        d
    }

    /// A new shuffled bag: four of each value, in an order the generator picks.
    fn newv(rng: &mut rand_pcg::Pcg32) -> (v: Vec<u32>)
        ensures
            v@.to_multiset() == full_bag(),
            v@.len() == 12,
    {
        let mut v: Vec<u32> = Vec::new();
        v.push(1);
        v.push(1);
        v.push(1);
        v.push(1);
        v.push(2);
        v.push(2);
        v.push(2);
        v.push(2);
        v.push(3);
        v.push(3);
        v.push(3);
        v.push(3);
        proof {
            assert(Seq::<u32>::empty().to_multiset() =~= Multiset::<u32>::empty()) by {
                Seq::<u32>::empty().to_multiset_ensures();
                vstd::multiset::lemma_multiset_empty_len(Seq::<u32>::empty().to_multiset());
            }
            assert(v@.to_multiset() =~= full_bag());
        }
        shuffle_vec(&mut v, rng);
        v
    }

    /// Draw the next card: pop from the tail, refilling with a freshly
    /// shuffled full bag first when the deck is empty. Between two refills the
    /// deck only shrinks, so the card drawn and the cards left always union
    /// back to the bag the last refill installed. A plain pop leaves the
    /// generator untouched; only a refill draws on it.
    pub fn next(&mut self, rng: &mut rand_pcg::Pcg32) -> (c: u32)
        ensures
            old(self)@.len() > 0 ==> final(self)@ == old(self)@.drop_last() && c == old(self)@.last()
                && *final(rng) == *old(rng),
            old(self)@.len() == 0 ==> final(self)@.to_multiset().insert(c) == full_bag()
                && final(self)@.len() == 11,
            deck_wf(old(self)@) ==> deck_wf(final(self)@) && 1 <= c <= 3,
    {
        if self.contents.len() == 0 {
            self.contents = Self::newv(rng);
            proof {
                lemma_full_bag_values(self@);
            }
        }
        let ghost pre = self@;
        let c = self.contents.pop().unwrap();
        proof {
            pre.to_multiset_ensures();
            assert(pre.drop_last().push(c) =~= pre);
            if old(self)@.len() == 0 {
                assert(pre.drop_last().to_multiset().insert(c) =~= pre.to_multiset());
            }
        }
        c
    }
}

impl Clone for Deck {
    /// A copy of the deck with the same cards in the same order.
    fn clone(&self) -> (d: Deck)
        ensures
            d@ == self@,
    {
        let mut contents: Vec<u32> = Vec::new();
        let n = self.contents.len();
        for i in 0..n
            invariant
                n == self@.len(),
                contents@ == self@.take(i as int),
        {
            contents.push(self.contents[i]);
            proof {
                assert(self@.take(i as int).push(self@[i as int]) =~= self@.take(i as int + 1));
            }
        }
        proof {
            assert(self@.take(n as int) =~= self@);
        }
        Deck { contents }
    }
}

} // verus!
