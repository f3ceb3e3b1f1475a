//! Ranks, suits and cards.

use vstd::prelude::*;

verus! {

/// The four suits. Suits are never ordered, only compared for equality.
#[derive(Debug, Clone, Copy, PartialEq, Eq, Hash, Structural)]
pub enum Suit {
    Hearts,
    Diamonds,
    Clubs,
    Spades,
}

/// The thirteen ranks, from `Two` (lowest) to `Ace` (highest).
#[derive(Debug, Clone, Copy, PartialEq, Eq, PartialOrd, Ord, Hash, Structural)]
pub enum Rank {
    Two,
    Three,
    Four,
    Five,
    Six,
    Seven,
    Eight,
    Nine,
    Ten,
    Jack,
    Queen,
    King,
    Ace,
}

/// A playing card.
#[derive(Debug, Clone, Copy, PartialEq, Eq, Hash, Structural)]
pub struct Card {
    pub rank: Rank,
    pub suit: Suit,
}

impl Suit {
    /// Position of the suit in a fresh deck, 0 to 3.
    pub open spec fn index(self) -> int {
        match self {
            Suit::Hearts => 0,
            Suit::Diamonds => 1,
            Suit::Clubs => 2,
            Suit::Spades => 3,
        }
    }

    /// The suit at position `i` of a fresh deck.
    pub open spec fn at(i: int) -> Suit {
        if i == 0 {
            Suit::Hearts
        } else if i == 1 {
            Suit::Diamonds
        } else if i == 2 {
            Suit::Clubs
        } else {
            Suit::Spades
        }
    }

    /// The one-character symbol of the suit.
    pub open spec fn symbol(self) -> Seq<char> {
        match self {
            Suit::Hearts => "♥"@,
            Suit::Diamonds => "♦"@,
            Suit::Clubs => "♣"@,
            Suit::Spades => "♠"@,
        }
    }

    /// All suits, in the order of a fresh deck.
    pub fn all() -> (suits: [Suit; 4])
        ensures
            forall|i: int| 0 <= i < 4 ==> suits[i] == Suit::at(i),
    {
        [Suit::Hearts, Suit::Diamonds, Suit::Clubs, Suit::Spades]
    }

    /// The suit as text.
    pub fn to_string(&self) -> (text: String)
        ensures
            text@ == self.symbol(),
    {
        match self {
            Suit::Hearts => String::from_str("♥"),
            Suit::Diamonds => String::from_str("♦"),
            Suit::Clubs => String::from_str("♣"),
            Suit::Spades => String::from_str("♠"),
        }
    }
}

impl Rank {
    /// Face value of the rank: 2 for `Two` up to 14 for `Ace`.
    pub open spec fn spec_value(&self) -> u8 {
        match self {
            Rank::Two => 2,
            Rank::Three => 3,
            Rank::Four => 4,
            Rank::Five => 5,
            Rank::Six => 6,
            Rank::Seven => 7,
            Rank::Eight => 8,
            Rank::Nine => 9,
            Rank::Ten => 10,
            Rank::Jack => 11,
            Rank::Queen => 12,
            Rank::King => 13,
            Rank::Ace => 14,
        }
    }

    /// The rank with face value `v`; values below 3 give `Two`, above 13 `Ace`.
    pub open spec fn of_value(v: int) -> Rank {
        if v <= 2 {
            Rank::Two
        } else if v == 3 {
            Rank::Three
        } else if v == 4 {
            Rank::Four
        } else if v == 5 {
            Rank::Five
        } else if v == 6 {
            Rank::Six
        } else if v == 7 {
            Rank::Seven
        } else if v == 8 {
            Rank::Eight
        } else if v == 9 {
            Rank::Nine
        } else if v == 10 {
            Rank::Ten
        } else if v == 11 {
            Rank::Jack
        } else if v == 12 {
            Rank::Queen
        } else if v == 13 {
            Rank::King
        } else {
            Rank::Ace
        }
    }

    /// How the rank is written: `2` to `10`, `J`, `Q`, `K`, `A`.
    pub open spec fn label(self) -> Seq<char> {
        match self {
            Rank::Two => "2"@,
            Rank::Three => "3"@,
            Rank::Four => "4"@,
            Rank::Five => "5"@,
            Rank::Six => "6"@,
            Rank::Seven => "7"@,
            Rank::Eight => "8"@,
            Rank::Nine => "9"@,
            Rank::Ten => "10"@,
            Rank::Jack => "J"@,
            Rank::Queen => "Q"@,
            Rank::King => "K"@,
            Rank::Ace => "A"@,
        }
    }

    /// All ranks in ascending order.
    pub fn all() -> (ranks: [Rank; 13])
        ensures
            forall|i: int| 0 <= i < 13 ==> ranks[i] == Rank::of_value(i + 2),
    {
        [
            Rank::Two,
            Rank::Three,
            Rank::Four,
            Rank::Five,
            Rank::Six,
            Rank::Seven,
            Rank::Eight,
            Rank::Nine,
            Rank::Ten,
            Rank::Jack,
            Rank::Queen,
            Rank::King,
            Rank::Ace,
        ]
    }

    /// Face value of the rank.
    #[verifier::when_used_as_spec(spec_value)]
    pub fn value(&self) -> (v: u8)
        ensures
            v == self.spec_value(),
            2 <= v <= 14,
    {
        match self {
            Rank::Two => 2,
            Rank::Three => 3,
            Rank::Four => 4,
            Rank::Five => 5,
            Rank::Six => 6,
            Rank::Seven => 7,
            Rank::Eight => 8,
            Rank::Nine => 9,
            Rank::Ten => 10,
            Rank::Jack => 11,
            Rank::Queen => 12,
            Rank::King => 13,
            Rank::Ace => 14,
        }
    }

    /// The rank with face value `v`.
    pub fn from_value(v: u8) -> (r: Rank)
        requires
            2 <= v <= 14,
        ensures
            r == Rank::of_value(v as int),
            r.spec_value() == v,
    {
        if v == 2 {
            Rank::Two
        } else if v == 3 {
            Rank::Three
        } else if v == 4 {
            Rank::Four
        } else if v == 5 {
            Rank::Five
        } else if v == 6 {
            Rank::Six
        } else if v == 7 {
            Rank::Seven
        } else if v == 8 {
            Rank::Eight
        } else if v == 9 {
            Rank::Nine
        } else if v == 10 {
            Rank::Ten
        } else if v == 11 {
            Rank::Jack
        } else if v == 12 {
            Rank::Queen
        } else if v == 13 {
            Rank::King
        } else {
            Rank::Ace
        }
    }

    /// The rank as text.
    pub fn to_string(&self) -> (text: String)
        ensures
            text@ == self.label(),
    {
        match self {
            Rank::Two => String::from_str("2"),
            Rank::Three => String::from_str("3"),
            Rank::Four => String::from_str("4"),
            Rank::Five => String::from_str("5"),
            Rank::Six => String::from_str("6"),
            Rank::Seven => String::from_str("7"),
            Rank::Eight => String::from_str("8"),
            Rank::Nine => String::from_str("9"),
            Rank::Ten => String::from_str("10"),
            Rank::Jack => String::from_str("J"),
            Rank::Queen => String::from_str("Q"),
            Rank::King => String::from_str("K"),
            Rank::Ace => String::from_str("A"),
        }
    }
}

/// Every rank has a face value from 2 to 14, and `of_value` undoes `value`.
pub proof fn lemma_rank_value(r: Rank)
    ensures
        2 <= r.spec_value() <= 14,
        Rank::of_value(r.spec_value() as int) == r,
{
}

/// Face values order the ranks: two ranks of one value are the same rank.
pub proof fn lemma_rank_value_injective(a: Rank, b: Rank)
    requires
        a.spec_value() == b.spec_value(),
    ensures
        a == b,
{
    lemma_rank_value(a);
    lemma_rank_value(b);
}

impl Card {
    /// How the card is written: the rank's label, then the suit's symbol.
    pub open spec fn text(self) -> Seq<char> {
        self.rank.label() + self.suit.symbol()
    }

    pub fn new(rank: Rank, suit: Suit) -> (card: Card)
        ensures
            card.rank == rank,
            card.suit == suit,
    {
        Card { rank, suit }
    }

    /// The card as text, such as `K♥`.
    pub fn to_string(&self) -> (text: String)
        ensures
            text@ == self.text(),
    {
        let mut text = self.rank.to_string();
        let suit = self.suit.to_string();
        text.append(suit.as_str());
        text
    }
}

/// How often the card occurs among the cards.
pub open spec fn occurrences(cards: Seq<Card>, card: Card) -> nat
    decreases cards.len(),
{
    if cards.len() == 0 {
        0
    } else {
        occurrences(cards.drop_last(), card) + if cards.last() == card {
            1nat
        } else {
            0nat
        }
    }
}

/// A card put on top is counted once more.
pub proof fn lemma_occurrences_push(cards: Seq<Card>, top: Card, card: Card)
    ensures
        occurrences(cards.push(top), card) == occurrences(cards, card) + if top == card {
            1nat
        } else {
            0nat
        },
{
    assert(cards.push(top).drop_last() =~= cards);
}

/// Cards put after others are counted with them.
pub proof fn lemma_occurrences_add(a: Seq<Card>, b: Seq<Card>, card: Card)
    ensures
        occurrences(a + b, card) == occurrences(a, card) + occurrences(b, card),
    decreases b.len(),
{
    if b.len() == 0 {
        assert(a + b =~= a);
    } else {
        assert((a + b).drop_last() =~= a + b.drop_last());
        lemma_occurrences_add(a, b.drop_last(), card);
    }
}

/// A card occurs at a place among the cards exactly if it is counted.
pub proof fn lemma_occurrences_found(cards: Seq<Card>, card: Card)
    ensures
        occurrences(cards, card) > 0 <==> cards.contains(card),
    decreases cards.len(),
{
    if cards.len() > 0 {
        lemma_occurrences_found(cards.drop_last(), card);
        if cards.last() == card {
            assert(cards[cards.len() - 1] == card);
        } else if cards.contains(card) {
            let i = choose|i: int| 0 <= i < cards.len() && cards[i] == card;
            assert(cards.drop_last()[i] == card);
        } else if cards.drop_last().contains(card) {
            let i = choose|i: int| 0 <= i < cards.drop_last().len() && cards.drop_last()[i] == card;
            assert(cards[i] == card);
        }
    }
}

/// Cards without duplicates are those of which none is counted twice.
pub proof fn lemma_occurrences_distinct(cards: Seq<Card>)
    ensures
        cards.no_duplicates() <==> forall|card: Card| #[trigger] occurrences(cards, card) <= 1,
    decreases cards.len(),
{
    if cards.len() > 0 {
        let front = cards.drop_last();
        let last = cards.last();
        lemma_occurrences_distinct(front);
        lemma_occurrences_found(front, last);
        if cards.no_duplicates() {
            assert forall|i: int, j: int| 0 <= i < front.len() && 0 <= j < front.len() && i
                != j implies front[i] != front[j] by {
                assert(cards[i] != cards[j]);
            }
            assert(!front.contains(last)) by {
                if front.contains(last) {
                    let i = choose|i: int| 0 <= i < front.len() && front[i] == last;
                    assert(cards[i] == cards[cards.len() - 1]);
                }
            }
            assert forall|card: Card| #[trigger] occurrences(cards, card) <= 1 by {
                assert(occurrences(front, card) <= 1);
            }
        }
        if forall|card: Card| #[trigger] occurrences(cards, card) <= 1 {
            assert forall|card: Card| #[trigger] occurrences(front, card) <= 1 by {
                assert(occurrences(cards, card) <= 1);
            }
            assert(occurrences(cards, last) <= 1);
            assert(!front.contains(last));
            assert forall|i: int, j: int| 0 <= i < cards.len() && 0 <= j < cards.len() && i
                != j implies cards[i] != cards[j] by {
                if i < front.len() && j < front.len() {
                    assert(front[i] != front[j]);
                } else if i < front.len() {
                    assert(front[i] == cards[i]);
                } else {
                    assert(front[j] == cards[j]);
                }
            }
        }
    }
}

} // verus!
