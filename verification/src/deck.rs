//! The deck: fifty-two distinct cards, shuffled and dealt from the top.

use vstd::prelude::*;
use rand::seq::SliceRandom;
use crate::card::{Card, Rank, Suit};

verus! {

/// The card at position `i` of a fresh deck: suit by suit, ranks ascending
/// within a suit.
pub open spec fn fresh_card(i: int) -> Card {
    Card { rank: Rank::of_value(i % 13 + 2), suit: Suit::at(i / 13) }
}

/// A fresh deck, bottom card first.
pub open spec fn fresh_cards() -> Seq<Card> {
    Seq::new(52, |i: int| fresh_card(i))
}

/// Where a card lies in a fresh deck.
pub open spec fn fresh_position(card: Card) -> int {
    card.suit.index() * 13 + (card.rank.spec_value() - 2)
}

/// A fresh deck holds every card, each exactly once.
pub proof fn lemma_fresh_deck_complete()
    ensures
        fresh_cards().len() == 52,
        fresh_cards().no_duplicates(),
        forall|card: Card| #[trigger] fresh_cards().contains(card),
        forall|card: Card|
            0 <= #[trigger] fresh_position(card) < 52 && fresh_cards()[fresh_position(card)]
                == card,
{
    assert forall|card: Card|
        0 <= #[trigger] fresh_position(card) < 52 && fresh_cards()[fresh_position(card)]
            == card by {
        crate::card::lemma_rank_value(card.rank);
    }
    assert forall|card: Card| #[trigger] fresh_cards().contains(card) by {
        assert(fresh_cards()[fresh_position(card)] == card);
    }
    assert forall|i: int, j: int| 0 <= i < 52 && 0 <= j < 52 && i != j implies fresh_cards()[i]
        != fresh_cards()[j] by {
        assert(fresh_position(fresh_card(i)) == i);
        assert(fresh_position(fresh_card(j)) == j);
    }
}

/// Shuffling rearranges: a sequence without duplicates stays without duplicates.
pub proof fn lemma_rearranged_distinct(before: Seq<Card>, after: Seq<Card>)
    requires
        before.no_duplicates(),
        after.to_multiset() == before.to_multiset(),
    ensures
        after.no_duplicates(),
        after.len() == before.len(),
        forall|card: Card| after.contains(card) <==> before.contains(card),
{
    before.lemma_multiset_has_no_duplicates();
    after.lemma_multiset_has_no_duplicates_conv();
    vstd::seq_lib::to_multiset_len(before);
    vstd::seq_lib::to_multiset_len(after);
    assert forall|card: Card| after.contains(card) <==> before.contains(card) by {
        vstd::seq_lib::to_multiset_contains(before, card);
        vstd::seq_lib::to_multiset_contains(after, card);
    }
}

/// `rand::seq::SliceRandom::shuffle` on the cards, with the generator of
/// `rand::thread_rng`. The shuffle only swaps elements, so what comes back holds
/// the same cards as often as before; in which order is not stated.
#[verifier::external_body]
fn shuffle_cards(cards: &mut Vec<Card>)
    ensures
        final(cards)@.to_multiset() == old(cards)@.to_multiset(),
{
    let mut rng = rand::thread_rng();
    cards.shuffle(&mut rng);
}

/// A deck of cards. The last card of its view is the top of the deck.
#[derive(Debug)]
pub struct Deck {
    cards: Vec<Card>,
}

impl View for Deck {
    type V = Seq<Card>;

    closed spec fn view(&self) -> Seq<Card> {
        self.cards@
    }
}

impl Deck {
    #[verifier::type_invariant]
    closed spec fn distinct(&self) -> bool {
        self.cards@.no_duplicates()
    }

    /// Hands out the cards and leaves the deck empty.
    fn take_cards(&mut self) -> (cards: Vec<Card>)
        ensures
            cards@ == old(self)@,
            cards@.no_duplicates(),
            final(self)@.len() == 0,
    {
        proof {
            use_type_invariant(&*self);
        }
        let mut cards: Vec<Card> = Vec::new();
        std::mem::swap(&mut cards, &mut self.cards);
        cards
    }

    /// A full deck in its fresh order.
    pub fn new() -> (deck: Deck)
        ensures
            deck@ == fresh_cards(),
            deck@.len() == 52,
            deck@.no_duplicates(),
            forall|card: Card| #[trigger] deck@.contains(card),
    {
        let mut cards: Vec<Card> = Vec::new();
        let suits = Suit::all();
        let ranks = Rank::all();
        let mut s: usize = 0;
        while s < 4
            invariant
                0 <= s <= 4,
                cards@.len() == s * 13,
                forall|i: int| 0 <= i < cards@.len() ==> cards@[i] == fresh_card(i),
                forall|i: int| 0 <= i < 4 ==> suits[i] == Suit::at(i),
                forall|i: int| 0 <= i < 13 ==> ranks[i] == Rank::of_value(i + 2),
            decreases 4 - s,
        {
            let mut r: usize = 0;
            while r < 13
                invariant
                    0 <= s < 4,
                    0 <= r <= 13,
                    cards@.len() == s * 13 + r,
                    forall|i: int| 0 <= i < cards@.len() ==> cards@[i] == fresh_card(i),
                    forall|i: int| 0 <= i < 4 ==> suits[i] == Suit::at(i),
                    forall|i: int| 0 <= i < 13 ==> ranks[i] == Rank::of_value(i + 2),
                decreases 13 - r,
            {
                cards.push(Card::new(ranks[r], suits[s]));
                r += 1;
            }
            s += 1;
        }
        proof {
            lemma_fresh_deck_complete();
            assert(cards@ =~= fresh_cards());
        }
        Deck { cards }
    }

    /// Puts the cards in a random order. The deck holds the same cards afterwards.
    pub fn shuffle(&mut self)
        ensures
            final(self)@.to_multiset() == old(self)@.to_multiset(),
            final(self)@.len() == old(self)@.len(),
            final(self)@.no_duplicates(),
            forall|card: Card| final(self)@.contains(card) <==> old(self)@.contains(card),
    {
        proof {
            use_type_invariant(&*self);
        }
        let mut cards = self.take_cards();
        shuffle_cards(&mut cards);
        proof {
            lemma_rearranged_distinct(old(self)@, cards@);
        }
        self.cards = cards;
    }

    /// Takes the top card off the deck, if there is one.
    pub fn deal(&mut self) -> (card: Option<Card>)
        ensures
            old(self)@.len() == 0 ==> card is None && final(self)@ == old(self)@,
            old(self)@.len() > 0 ==> card == Some(old(self)@.last())
                && final(self)@ == old(self)@.drop_last(),
            final(self)@.no_duplicates(),
    {
        proof {
            use_type_invariant(&*self);
        }
        let mut cards = self.take_cards();
        let card = cards.pop();
        self.cards = cards;
        card
    }

    /// Deals up to `count` cards from the top, fewer if the deck runs out.
    pub fn deal_multiple(&mut self, count: usize) -> (dealt: Vec<Card>)
        ensures
            dealt@.len() == dealt_count(old(self)@.len(), count),
            forall|i: int|
                0 <= i < dealt@.len() ==> dealt@[i] == old(self)@[old(self)@.len() - 1 - i],
            final(self)@ == old(self)@.take(old(self)@.len() - dealt@.len()),
            final(self)@.no_duplicates(),
    {
        proof {
            use_type_invariant(&*self);
        }
        let mut cards = self.take_cards();
        let mut dealt: Vec<Card> = Vec::new();
        let mut n: usize = 0;
        while n < count && cards.len() > 0
            invariant
                n <= count,
                n <= old(self)@.len(),
                dealt@.len() == n,
                cards@ == old(self)@.take(old(self)@.len() - n),
                cards@.no_duplicates(),
                forall|i: int| 0 <= i < n ==> dealt@[i] == old(self)@[old(self)@.len() - 1 - i],
            decreases count - n,
        {
            let card = cards.pop();
            match card {
                Some(c) => {
                    dealt.push(c);
                },
                None => {},
            }
            n += 1;
        }
        self.cards = cards;
        dealt
    }

    /// Number of cards left.
    pub fn remaining(&self) -> (n: usize)
        ensures
            n == self@.len(),
            self@.no_duplicates(),
    {
        proof {
            use_type_invariant(self);
        }
        self.cards.len()
    }

    /// Makes the deck full and fresh again.
    pub fn reset(&mut self)
        ensures
            final(self)@ == fresh_cards(),
            final(self)@.len() == 52,
            final(self)@.no_duplicates(),
    {
        *self = Deck::new();
    }
}

/// How many cards a request for `count` cards gets from a deck of `available`.
pub open spec fn dealt_count(available: nat, count: usize) -> nat {
    if count <= available {
        count as nat
    } else {
        available
    }
}

impl Clone for Deck {
    fn clone(&self) -> (deck: Deck)
        ensures
            deck@ == self@,
    {
        proof {
            use_type_invariant(self);
        }
        let cards = self.cards.clone();
        assert(cards@ =~= self.cards@);
        Deck { cards }
    }
}

impl Default for Deck {
    fn default() -> (deck: Deck)
        ensures
            deck@ == fresh_cards(),
    {
        Deck::new()
    }
}

} // verus!
