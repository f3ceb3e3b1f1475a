use poker_engine::{Card, Deck, Rank, Suit};

#[test]
fn test_new_deck() {
    let deck = Deck::new();
    assert_eq!(deck.remaining(), 52);
}

#[test]
fn test_deal() {
    let mut deck = Deck::new();
    let card = deck.deal();
    assert!(card.is_some());
    assert_eq!(deck.remaining(), 51);
}

#[test]
fn test_deal_multiple() {
    let mut deck = Deck::new();
    let cards = deck.deal_multiple(5);
    assert_eq!(cards.len(), 5);
    assert_eq!(deck.remaining(), 47);
}

#[test]
fn test_shuffle() {
    let mut deck1 = Deck::new();
    let mut deck2 = Deck::new();

    deck1.shuffle();

    let cards1: Vec<_> = (0..52).map(|_| deck1.deal().unwrap()).collect();
    let cards2: Vec<_> = (0..52).map(|_| deck2.deal().unwrap()).collect();

    assert_ne!(cards1, cards2);
}

#[test]
fn test_reset() {
    let mut deck = Deck::new();
    deck.deal_multiple(10);
    assert_eq!(deck.remaining(), 42);

    deck.reset();
    assert_eq!(deck.remaining(), 52);
}

#[test]
fn test_deal_empty_deck() {
    let mut deck = Deck::new();
    deck.deal_multiple(52);
    assert_eq!(deck.remaining(), 0);
    assert!(deck.deal().is_none());
}

#[test]
fn fresh_deck_holds_every_card_once() {
    let mut deck = Deck::new();
    let cards = deck.deal_multiple(52);
    assert_eq!(cards.len(), 52);
    for suit in Suit::all() {
        for rank in Rank::all() {
            let wanted = Card::new(rank, suit);
            assert_eq!(cards.iter().filter(|c| **c == wanted).count(), 1);
        }
    }
}

#[test]
fn fresh_deck_deals_spades_from_the_ace_down() {
    let mut deck = Deck::new();
    assert_eq!(deck.deal(), Some(Card::new(Rank::Ace, Suit::Spades)));
    assert_eq!(deck.deal(), Some(Card::new(Rank::King, Suit::Spades)));
    let rest = deck.deal_multiple(50);
    assert_eq!(rest[0], Card::new(Rank::Queen, Suit::Spades));
    assert_eq!(rest[49], Card::new(Rank::Two, Suit::Hearts));
}

#[test]
fn shuffled_deck_holds_the_same_cards() {
    let mut deck = Deck::new();
    deck.shuffle();
    assert_eq!(deck.remaining(), 52);
    let cards = deck.deal_multiple(52);
    for suit in Suit::all() {
        for rank in Rank::all() {
            let wanted = Card::new(rank, suit);
            assert_eq!(cards.iter().filter(|c| **c == wanted).count(), 1);
        }
    }
}

#[test]
fn shuffle_changes_the_order() {
    let mut fresh = Deck::new();
    let mut shuffled = Deck::new();
    shuffled.shuffle();
    assert_ne!(fresh.deal_multiple(52), shuffled.deal_multiple(52));
}

#[test]
fn deal_multiple_stops_when_the_deck_runs_out() {
    let mut deck = Deck::new();
    deck.deal_multiple(50);
    let last = deck.deal_multiple(5);
    assert_eq!(last.len(), 2);
    assert_eq!(deck.remaining(), 0);
    assert!(deck.deal_multiple(3).is_empty());
    assert!(deck.deal().is_none());
}

#[test]
fn default_deck_is_fresh() {
    let mut deck = Deck::default();
    assert_eq!(deck.remaining(), 52);
    assert_eq!(deck.deal(), Some(Card::new(Rank::Ace, Suit::Spades)));
}
