use poker_engine::{Card, Hand, HandRank, Rank, Suit};

#[test]
fn test_royal_flush() {
    let cards = vec![
        Card::new(Rank::Ace, Suit::Spades),
        Card::new(Rank::King, Suit::Spades),
        Card::new(Rank::Queen, Suit::Spades),
        Card::new(Rank::Jack, Suit::Spades),
        Card::new(Rank::Ten, Suit::Spades),
    ];
    let hand = Hand::evaluate(&cards);
    assert_eq!(hand.rank, HandRank::RoyalFlush);
}

#[test]
fn test_straight_flush() {
    let cards = vec![
        Card::new(Rank::Nine, Suit::Hearts),
        Card::new(Rank::Eight, Suit::Hearts),
        Card::new(Rank::Seven, Suit::Hearts),
        Card::new(Rank::Six, Suit::Hearts),
        Card::new(Rank::Five, Suit::Hearts),
    ];
    let hand = Hand::evaluate(&cards);
    assert_eq!(hand.rank, HandRank::StraightFlush);
}

#[test]
fn test_four_of_a_kind() {
    let cards = vec![
        Card::new(Rank::King, Suit::Spades),
        Card::new(Rank::King, Suit::Hearts),
        Card::new(Rank::King, Suit::Diamonds),
        Card::new(Rank::King, Suit::Clubs),
        Card::new(Rank::Two, Suit::Spades),
    ];
    let hand = Hand::evaluate(&cards);
    assert_eq!(hand.rank, HandRank::FourOfAKind);
}

#[test]
fn test_full_house() {
    let cards = vec![
        Card::new(Rank::Ace, Suit::Spades),
        Card::new(Rank::Ace, Suit::Hearts),
        Card::new(Rank::Ace, Suit::Diamonds),
        Card::new(Rank::King, Suit::Clubs),
        Card::new(Rank::King, Suit::Spades),
    ];
    let hand = Hand::evaluate(&cards);
    assert_eq!(hand.rank, HandRank::FullHouse);
}

#[test]
fn test_flush() {
    let cards = vec![
        Card::new(Rank::Ace, Suit::Clubs),
        Card::new(Rank::Jack, Suit::Clubs),
        Card::new(Rank::Nine, Suit::Clubs),
        Card::new(Rank::Five, Suit::Clubs),
        Card::new(Rank::Three, Suit::Clubs),
    ];
    let hand = Hand::evaluate(&cards);
    assert_eq!(hand.rank, HandRank::Flush);
}

#[test]
fn test_straight() {
    let cards = vec![
        Card::new(Rank::Ten, Suit::Spades),
        Card::new(Rank::Nine, Suit::Hearts),
        Card::new(Rank::Eight, Suit::Diamonds),
        Card::new(Rank::Seven, Suit::Clubs),
        Card::new(Rank::Six, Suit::Spades),
    ];
    let hand = Hand::evaluate(&cards);
    assert_eq!(hand.rank, HandRank::Straight);
}

#[test]
fn test_three_of_a_kind() {
    let cards = vec![
        Card::new(Rank::Queen, Suit::Spades),
        Card::new(Rank::Queen, Suit::Hearts),
        Card::new(Rank::Queen, Suit::Diamonds),
        Card::new(Rank::Five, Suit::Clubs),
        Card::new(Rank::Two, Suit::Spades),
    ];
    let hand = Hand::evaluate(&cards);
    assert_eq!(hand.rank, HandRank::ThreeOfAKind);
}

#[test]
fn test_two_pair() {
    let cards = vec![
        Card::new(Rank::Jack, Suit::Spades),
        Card::new(Rank::Jack, Suit::Hearts),
        Card::new(Rank::Three, Suit::Diamonds),
        Card::new(Rank::Three, Suit::Clubs),
        Card::new(Rank::Two, Suit::Spades),
    ];
    let hand = Hand::evaluate(&cards);
    assert_eq!(hand.rank, HandRank::TwoPair);
}

#[test]
fn test_one_pair() {
    let cards = vec![
        Card::new(Rank::Ten, Suit::Spades),
        Card::new(Rank::Ten, Suit::Hearts),
        Card::new(Rank::Seven, Suit::Diamonds),
        Card::new(Rank::Five, Suit::Clubs),
        Card::new(Rank::Two, Suit::Spades),
    ];
    let hand = Hand::evaluate(&cards);
    assert_eq!(hand.rank, HandRank::OnePair);
}

#[test]
fn test_high_card() {
    let cards = vec![
        Card::new(Rank::Ace, Suit::Spades),
        Card::new(Rank::King, Suit::Hearts),
        Card::new(Rank::Nine, Suit::Diamonds),
        Card::new(Rank::Five, Suit::Clubs),
        Card::new(Rank::Two, Suit::Spades),
    ];
    let hand = Hand::evaluate(&cards);
    assert_eq!(hand.rank, HandRank::HighCard);
}

#[test]
fn test_hand_comparison() {
    let flush = Hand {
        rank: HandRank::Flush,
        cards: vec![],
        kickers: vec![Rank::Ace],
    };
    let straight = Hand {
        rank: HandRank::Straight,
        cards: vec![],
        kickers: vec![Rank::Ace],
    };
    assert!(flush > straight);
}

fn card(rank: Rank, suit: Suit) -> Card {
    Card::new(rank, suit)
}

#[test]
fn wheel_is_a_straight_to_the_five() {
    let cards = vec![
        card(Rank::Ace, Suit::Spades),
        card(Rank::Two, Suit::Hearts),
        card(Rank::Three, Suit::Diamonds),
        card(Rank::Four, Suit::Clubs),
        card(Rank::Five, Suit::Spades),
    ];
    let hand = Hand::evaluate(&cards);
    assert_eq!(hand.rank, HandRank::Straight);
    assert_eq!(hand.kickers, vec![Rank::Five]);
}

#[test]
fn wheel_of_one_suit_is_a_straight_flush() {
    let cards = vec![
        card(Rank::Five, Suit::Hearts),
        card(Rank::Ace, Suit::Hearts),
        card(Rank::Three, Suit::Hearts),
        card(Rank::Two, Suit::Hearts),
        card(Rank::Four, Suit::Hearts),
    ];
    let hand = Hand::evaluate(&cards);
    assert_eq!(hand.rank, HandRank::StraightFlush);
    assert_eq!(hand.kickers, vec![Rank::Five]);
}

#[test]
fn six_high_straight_beats_the_wheel() {
    let wheel = Hand::evaluate(&[
        card(Rank::Ace, Suit::Spades),
        card(Rank::Two, Suit::Hearts),
        card(Rank::Three, Suit::Diamonds),
        card(Rank::Four, Suit::Clubs),
        card(Rank::Five, Suit::Spades),
    ]);
    let six_high = Hand::evaluate(&[
        card(Rank::Six, Suit::Spades),
        card(Rank::Two, Suit::Hearts),
        card(Rank::Three, Suit::Diamonds),
        card(Rank::Four, Suit::Clubs),
        card(Rank::Five, Suit::Spades),
    ]);
    assert!(six_high > wheel);
    assert_eq!(six_high.compare(&wheel), 1);
    assert_eq!(wheel.compare(&six_high), -1);
    assert!(six_high.beats(&wheel));
    assert!(!wheel.beats(&six_high));
}

#[test]
fn kickers_list_the_category_ranks_first() {
    let four = Hand::evaluate(&[
        card(Rank::King, Suit::Spades),
        card(Rank::Two, Suit::Spades),
        card(Rank::King, Suit::Hearts),
        card(Rank::King, Suit::Diamonds),
        card(Rank::King, Suit::Clubs),
    ]);
    assert_eq!(four.kickers, vec![Rank::King, Rank::Two]);

    let full = Hand::evaluate(&[
        card(Rank::King, Suit::Clubs),
        card(Rank::Ace, Suit::Spades),
        card(Rank::King, Suit::Spades),
        card(Rank::Ace, Suit::Hearts),
        card(Rank::King, Suit::Diamonds),
    ]);
    assert_eq!(full.rank, HandRank::FullHouse);
    assert_eq!(full.kickers, vec![Rank::King, Rank::Ace]);

    let flush = Hand::evaluate(&[
        card(Rank::Three, Suit::Clubs),
        card(Rank::Ace, Suit::Clubs),
        card(Rank::Nine, Suit::Clubs),
        card(Rank::Jack, Suit::Clubs),
        card(Rank::Five, Suit::Clubs),
    ]);
    assert_eq!(
        flush.kickers,
        vec![Rank::Ace, Rank::Jack, Rank::Nine, Rank::Five, Rank::Three]
    );

    let straight = Hand::evaluate(&[
        card(Rank::Seven, Suit::Clubs),
        card(Rank::Ten, Suit::Spades),
        card(Rank::Six, Suit::Spades),
        card(Rank::Nine, Suit::Hearts),
        card(Rank::Eight, Suit::Diamonds),
    ]);
    assert_eq!(straight.kickers, vec![Rank::Ten]);

    let three = Hand::evaluate(&[
        card(Rank::Two, Suit::Spades),
        card(Rank::Queen, Suit::Spades),
        card(Rank::Five, Suit::Clubs),
        card(Rank::Queen, Suit::Hearts),
        card(Rank::Queen, Suit::Diamonds),
    ]);
    assert_eq!(three.kickers, vec![Rank::Queen, Rank::Five, Rank::Two]);

    let two_pair = Hand::evaluate(&[
        card(Rank::Three, Suit::Diamonds),
        card(Rank::Jack, Suit::Spades),
        card(Rank::Two, Suit::Spades),
        card(Rank::Three, Suit::Clubs),
        card(Rank::Jack, Suit::Hearts),
    ]);
    assert_eq!(two_pair.kickers, vec![Rank::Jack, Rank::Three, Rank::Two]);

    let pair = Hand::evaluate(&[
        card(Rank::Seven, Suit::Diamonds),
        card(Rank::Ten, Suit::Spades),
        card(Rank::Two, Suit::Spades),
        card(Rank::Ten, Suit::Hearts),
        card(Rank::Five, Suit::Clubs),
    ]);
    assert_eq!(
        pair.kickers,
        vec![Rank::Ten, Rank::Seven, Rank::Five, Rank::Two]
    );

    let high = Hand::evaluate(&[
        card(Rank::Nine, Suit::Diamonds),
        card(Rank::Ace, Suit::Spades),
        card(Rank::Two, Suit::Spades),
        card(Rank::King, Suit::Hearts),
        card(Rank::Five, Suit::Clubs),
    ]);
    assert_eq!(
        high.kickers,
        vec![Rank::Ace, Rank::King, Rank::Nine, Rank::Five, Rank::Two]
    );
}

#[test]
fn hand_cards_are_the_five_in_falling_order() {
    let hand = Hand::evaluate(&[
        card(Rank::Nine, Suit::Diamonds),
        card(Rank::Ace, Suit::Spades),
        card(Rank::Two, Suit::Spades),
        card(Rank::King, Suit::Hearts),
        card(Rank::Five, Suit::Clubs),
    ]);
    assert_eq!(
        hand.cards,
        vec![
            card(Rank::Ace, Suit::Spades),
            card(Rank::King, Suit::Hearts),
            card(Rank::Nine, Suit::Diamonds),
            card(Rank::Five, Suit::Clubs),
            card(Rank::Two, Suit::Spades),
        ]
    );
}

#[test]
fn categories_win_in_their_order_whatever_the_suits() {
    let order = [
        HandRank::HighCard,
        HandRank::OnePair,
        HandRank::TwoPair,
        HandRank::ThreeOfAKind,
        HandRank::Straight,
        HandRank::Flush,
        HandRank::FullHouse,
        HandRank::FourOfAKind,
        HandRank::StraightFlush,
        HandRank::RoyalFlush,
    ];
    for (i, low) in order.iter().enumerate() {
        assert_eq!(low.strength() as usize, i);
        for high in order.iter().skip(i + 1) {
            let weak = Hand { rank: *low, cards: vec![], kickers: vec![Rank::Ace, Rank::Ace] };
            let strong = Hand { rank: *high, cards: vec![], kickers: vec![Rank::Two] };
            assert!(strong > weak);
            assert!(weak < strong);
            assert_eq!(strong.compare(&weak), 1);
        }
    }
}

#[test]
fn equal_categories_are_decided_by_the_first_kicker_that_differs() {
    let a = Hand { rank: HandRank::OnePair, cards: vec![], kickers: vec![Rank::Ten, Rank::Nine, Rank::Five, Rank::Two] };
    let b = Hand { rank: HandRank::OnePair, cards: vec![], kickers: vec![Rank::Ten, Rank::Nine, Rank::Four, Rank::Three] };
    let c = Hand { rank: HandRank::OnePair, cards: vec![], kickers: vec![Rank::Ten, Rank::Nine, Rank::Five, Rank::Two] };
    assert_eq!(a.compare(&b), 1);
    assert_eq!(b.compare(&a), -1);
    assert_eq!(a.compare(&c), 0);
    assert!(a > b);
    assert!(!(a > c) && !(a < c));
    let short = Hand { rank: HandRank::OnePair, cards: vec![], kickers: vec![Rank::Ten, Rank::Nine] };
    assert_eq!(short.compare(&a), -1);
    assert_eq!(a.compare(&short), 1);
}

fn seven() -> Vec<Card> {
    vec![
        card(Rank::Ace, Suit::Spades),
        card(Rank::King, Suit::Spades),
        card(Rank::Two, Suit::Hearts),
        card(Rank::Queen, Suit::Spades),
        card(Rank::Jack, Suit::Spades),
        card(Rank::Two, Suit::Clubs),
        card(Rank::Ten, Suit::Spades),
    ]
}

#[test]
fn seven_cards_give_the_best_of_the_twenty_one_hands() {
    let cards = seven();
    let best = Hand::evaluate(&cards);
    assert_eq!(best.rank, HandRank::RoyalFlush);
    let mut count = 0;
    let mut top: Option<Hand> = None;
    for i in 0..7 {
        for j in (i + 1)..7 {
            let five: Vec<Card> = cards
                .iter()
                .enumerate()
                .filter(|(k, _)| *k != i && *k != j)
                .map(|(_, c)| *c)
                .collect();
            let hand = Hand::evaluate(&five);
            assert!(hand.compare(&best) <= 0);
            count += 1;
            top = match top {
                None => Some(hand),
                Some(t) => if hand.compare(&t) > 0 { Some(hand) } else { Some(t) },
            };
        }
    }
    assert_eq!(count, 21);
    let top = top.unwrap();
    assert_eq!(top.rank, best.rank);
    assert_eq!(top.kickers, best.kickers);
}

#[test]
fn seven_cards_full_house_over_two_triplets() {
    let cards = vec![
        card(Rank::Nine, Suit::Spades),
        card(Rank::Nine, Suit::Hearts),
        card(Rank::Four, Suit::Hearts),
        card(Rank::Nine, Suit::Clubs),
        card(Rank::Four, Suit::Spades),
        card(Rank::Four, Suit::Clubs),
        card(Rank::Ace, Suit::Diamonds),
    ];
    let best = Hand::evaluate(&cards);
    assert_eq!(best.rank, HandRank::FullHouse);
    assert_eq!(best.kickers, vec![Rank::Nine, Rank::Four]);
}

#[test]
fn six_cards_give_the_best_of_the_six_hands() {
    let cards = vec![
        card(Rank::Nine, Suit::Spades),
        card(Rank::Nine, Suit::Hearts),
        card(Rank::Four, Suit::Hearts),
        card(Rank::King, Suit::Clubs),
        card(Rank::Four, Suit::Spades),
        card(Rank::Ace, Suit::Diamonds),
    ];
    let best = Hand::evaluate(&cards);
    assert_eq!(best.rank, HandRank::TwoPair);
    assert_eq!(best.kickers, vec![Rank::Nine, Rank::Four, Rank::Ace]);
    assert_eq!(best.cards.len(), 5);
}

#[test]
fn five_card_helpers_agree_with_evaluate() {
    let cards = vec![
        card(Rank::Ten, Suit::Spades),
        card(Rank::Ten, Suit::Hearts),
        card(Rank::Seven, Suit::Diamonds),
        card(Rank::Five, Suit::Clubs),
        card(Rank::Two, Suit::Spades),
    ];
    let counts = Hand::count_ranks(&cards);
    assert_eq!(counts.len(), 15);
    assert_eq!(counts[10], 2);
    assert_eq!(counts[7], 1);
    assert_eq!(counts[14], 0);
    assert!(!Hand::is_flush(&cards));
    assert!(!Hand::is_straight(&cards));
    assert_eq!(Hand::straight_high(&cards), None);
    assert_eq!(Hand::rank_with_count(&cards, 2), Some(Rank::Ten));
    assert_eq!(Hand::rank_with_count(&cards, 1), Some(Rank::Seven));
    assert_eq!(Hand::rank_with_count(&cards, 3), None);
    assert_eq!(
        Hand::ranks_in_order(&cards),
        vec![Rank::Ten, Rank::Ten, Rank::Seven, Rank::Five, Rank::Two]
    );
    assert_eq!(
        Hand::grouped_kickers(&cards),
        vec![Rank::Ten, Rank::Seven, Rank::Five, Rank::Two]
    );
    let sorted = Hand::sorted_descending(&cards);
    assert_eq!(sorted[0].rank, Rank::Ten);
    assert_eq!(sorted[0].suit, Suit::Spades);
    assert_eq!(sorted[1].suit, Suit::Hearts);
    assert_eq!(sorted[4].rank, Rank::Two);
    assert!(Hand::check_one_pair(&cards, &sorted).is_some());
    assert!(Hand::check_two_pair(&cards, &sorted).is_none());
    assert!(Hand::check_three_of_a_kind(&cards, &sorted).is_none());
    assert!(Hand::check_straight(&cards, &sorted).is_none());
    assert!(Hand::check_flush(&cards, &sorted).is_none());
    assert!(Hand::check_full_house(&cards, &sorted).is_none());
    assert!(Hand::check_four_of_a_kind(&cards, &sorted).is_none());
    assert!(Hand::check_straight_flush(&cards, &sorted).is_none());
    assert!(Hand::check_royal_flush(&cards, &sorted).is_none());
    let hand = Hand::evaluate_five_cards(&cards);
    assert_eq!(hand.rank, HandRank::OnePair);
    assert_eq!(Hand::best_five_card_hand(&seven()).rank, HandRank::RoyalFlush);
}

#[test]
fn cards_of_one_rank_keep_their_order() {
    let hand = Hand::evaluate(&[
        card(Rank::Seven, Suit::Clubs),
        card(Rank::King, Suit::Hearts),
        card(Rank::Seven, Suit::Spades),
        card(Rank::King, Suit::Diamonds),
        card(Rank::Seven, Suit::Hearts),
    ]);
    assert_eq!(hand.rank, HandRank::FullHouse);
    assert_eq!(
        hand.cards,
        vec![
            card(Rank::King, Suit::Hearts),
            card(Rank::King, Suit::Diamonds),
            card(Rank::Seven, Suit::Clubs),
            card(Rank::Seven, Suit::Spades),
            card(Rank::Seven, Suit::Hearts),
        ]
    );
}

#[test]
fn of_equally_good_hands_the_first_found_is_kept() {
    let cards = vec![
        card(Rank::Ace, Suit::Spades),
        card(Rank::Ace, Suit::Hearts),
        card(Rank::King, Suit::Clubs),
        card(Rank::Queen, Suit::Clubs),
        card(Rank::Jack, Suit::Diamonds),
        card(Rank::Jack, Suit::Spades),
        card(Rank::Jack, Suit::Hearts),
    ];
    let hand = Hand::evaluate(&cards);
    assert_eq!(hand.rank, HandRank::FullHouse);
    assert_eq!(hand.kickers, vec![Rank::Jack, Rank::Ace]);
    assert_eq!(
        hand.cards,
        vec![
            card(Rank::Ace, Suit::Spades),
            card(Rank::Ace, Suit::Hearts),
            card(Rank::Jack, Suit::Diamonds),
            card(Rank::Jack, Suit::Spades),
            card(Rank::Jack, Suit::Hearts),
        ]
    );
    let board = vec![
        card(Rank::Ten, Suit::Spades),
        card(Rank::Ten, Suit::Hearts),
        card(Rank::Ten, Suit::Clubs),
        card(Rank::Four, Suit::Clubs),
        card(Rank::Four, Suit::Diamonds),
        card(Rank::Four, Suit::Spades),
        card(Rank::Two, Suit::Hearts),
    ];
    let hand = Hand::evaluate(&board);
    assert_eq!(hand.kickers, vec![Rank::Ten, Rank::Four]);
    assert_eq!(
        hand.cards,
        vec![
            card(Rank::Ten, Suit::Spades),
            card(Rank::Ten, Suit::Hearts),
            card(Rank::Ten, Suit::Clubs),
            card(Rank::Four, Suit::Diamonds),
            card(Rank::Four, Suit::Spades),
        ]
    );
}
