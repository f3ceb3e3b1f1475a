use poker_engine::{Card, Rank, Suit};

#[test]
fn test_card_creation() {
    let card = Card::new(Rank::Ace, Suit::Spades);
    assert_eq!(card.rank, Rank::Ace);
    assert_eq!(card.suit, Suit::Spades);
}

#[test]
fn test_card_display() {
    let card = Card::new(Rank::King, Suit::Hearts);
    assert_eq!(card.to_string(), "K♥");
}

#[test]
fn test_rank_ordering() {
    assert!(Rank::Ace > Rank::King);
    assert!(Rank::Two < Rank::Three);
}

#[test]
fn test_rank_value() {
    assert_eq!(Rank::Ace.value(), 14);
    assert_eq!(Rank::Two.value(), 2);
}

#[test]
fn rank_values_cover_two_to_fourteen() {
    let all = Rank::all();
    assert_eq!(all.len(), 13);
    for (i, rank) in all.iter().enumerate() {
        assert_eq!(rank.value() as usize, i + 2);
        assert_eq!(Rank::from_value(rank.value()), *rank);
    }
}

#[test]
fn ranks_are_ordered_by_value() {
    let all = Rank::all();
    for a in all.iter() {
        for b in all.iter() {
            assert_eq!(a < b, a.value() < b.value());
        }
    }
}

#[test]
fn every_card_has_its_text() {
    assert_eq!(Card::new(Rank::Ten, Suit::Diamonds).to_string(), "10♦");
    assert_eq!(Card::new(Rank::Two, Suit::Clubs).to_string(), "2♣");
    assert_eq!(Card::new(Rank::Ace, Suit::Spades).to_string(), "A♠");
    assert_eq!(Card::new(Rank::Jack, Suit::Hearts).to_string(), "J♥");
    assert_eq!(Rank::Queen.to_string(), "Q");
    assert_eq!(Suit::Spades.to_string(), "♠");
}
