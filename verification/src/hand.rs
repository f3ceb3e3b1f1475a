//! Hand evaluation: the best five-card hand among five to seven cards, and the
//! order in which hands win.
//!
//! What five cards are worth is said by `category` and `kickers_for`, over the
//! number of cards of each rank and suit. `Hand::evaluate` tries every choice of
//! five cards and keeps the first of the best. Hands are ordered by category
//! first and by their kickers next, whatever the suits.

use vstd::prelude::*;
use vstd::slice::slice_to_vec;
use std::cmp::Ordering;
use crate::card::{
    lemma_occurrences_add, lemma_occurrences_push, lemma_rank_value, lemma_rank_value_injective,
    occurrences, Card, Rank,
};

verus! {

/// The ten hand categories, weakest first.
#[derive(Debug, Clone, Copy, PartialEq, Eq, PartialOrd, Ord, Structural)]
pub enum HandRank {
    HighCard,
    OnePair,
    TwoPair,
    ThreeOfAKind,
    Straight,
    Flush,
    FullHouse,
    FourOfAKind,
    StraightFlush,
    RoyalFlush,
}

impl HandRank {
    /// Strength of the category, 0 for `HighCard` up to 9 for `RoyalFlush`.
    pub open spec fn spec_strength(&self) -> u8 {
        match self {
            HandRank::HighCard => 0,
            HandRank::OnePair => 1,
            HandRank::TwoPair => 2,
            HandRank::ThreeOfAKind => 3,
            HandRank::Straight => 4,
            HandRank::Flush => 5,
            HandRank::FullHouse => 6,
            HandRank::FourOfAKind => 7,
            HandRank::StraightFlush => 8,
            HandRank::RoyalFlush => 9,
        }
    }

    /// Strength of the category.
    #[verifier::when_used_as_spec(spec_strength)]
    pub fn strength(&self) -> (n: u8)
        ensures
            n == self.spec_strength(),
    {
        match self {
            HandRank::HighCard => 0,
            HandRank::OnePair => 1,
            HandRank::TwoPair => 2,
            HandRank::ThreeOfAKind => 3,
            HandRank::Straight => 4,
            HandRank::Flush => 5,
            HandRank::FullHouse => 6,
            HandRank::FourOfAKind => 7,
            HandRank::StraightFlush => 8,
            HandRank::RoyalFlush => 9,
        }
    }
}

/// An evaluated hand: its category, the five cards that make it, and the ranks
/// that break ties between hands of one category, most important first.
#[derive(Debug, Clone, PartialEq, Eq)]
pub struct Hand {
    pub rank: HandRank,
    pub cards: Vec<Card>,
    pub kickers: Vec<Rank>,
}

/// What decides between two hands: the category, then the kickers.
pub struct HandValue {
    pub rank: HandRank,
    pub kickers: Seq<Rank>,
}

// ---------------------------------------------------------------------------
// What five cards are worth
// ---------------------------------------------------------------------------
/// How many of the cards have rank `r`.
pub open spec fn rank_count(s: Seq<Card>, r: Rank) -> nat
    decreases s.len(),
{
    if s.len() == 0 {
        0
    } else {
        rank_count(s.drop_last(), r) + if s.last().rank == r {
            1nat
        } else {
            0nat
        }
    }
}

/// Some rank occurs exactly `n` times.
pub open spec fn has_count(s: Seq<Card>, n: nat) -> bool {
    exists|r: Rank| rank_count(s, r) == n
}

/// All cards are of one suit.
pub open spec fn same_suit(s: Seq<Card>) -> bool {
    forall|i: int| 0 <= i < s.len() ==> (#[trigger] s[i]).suit == s[0].suit
}

/// The rank that plays at position `v` of a run. The ace plays high at 14 and
/// low at 1, below the two.
pub open spec fn run_rank(v: int) -> Rank {
    if v == 1 {
        Rank::Ace
    } else {
        Rank::of_value(v)
    }
}

/// The cards hold each of the five ranks of the run that ends at `top`.
pub open spec fn is_run(s: Seq<Card>, top: int) -> bool {
    &&& rank_count(s, run_rank(top)) >= 1
    &&& rank_count(s, run_rank(top - 1)) >= 1
    &&& rank_count(s, run_rank(top - 2)) >= 1
    &&& rank_count(s, run_rank(top - 3)) >= 1
    &&& rank_count(s, run_rank(top - 4)) >= 1
}

/// The top rank of the highest run at or below `top` that the cards hold. The
/// lowest run is the wheel: five, four, three, two, ace, with top rank five.
pub open spec fn straight_top_from(s: Seq<Card>, top: int) -> Option<Rank>
    decreases top,
{
    if top < 5 {
        None
    } else if is_run(s, top) {
        Some(Rank::of_value(top))
    } else {
        straight_top_from(s, top - 1)
    }
}

/// The top rank of the straight that the cards make, if they make one.
pub open spec fn straight_top(s: Seq<Card>) -> Option<Rank> {
    straight_top_from(s, 14)
}

/// The ranks of face value `lo` and above that occur exactly `n` times, highest
/// first, each named once.
pub open spec fn ranks_with_count(s: Seq<Card>, n: nat, lo: int) -> Seq<Rank>
    decreases 15 - lo,
{
    if lo > 14 {
        Seq::empty()
    } else {
        ranks_with_count(s, n, lo + 1) + if rank_count(s, Rank::of_value(lo)) == n {
            seq![Rank::of_value(lo)]
        } else {
            Seq::empty()
        }
    }
}

/// The ranks of the cards of face value `lo` and above, highest first, each as
/// often as it occurs.
pub open spec fn ranks_descending(s: Seq<Card>, lo: int) -> Seq<Rank>
    decreases 15 - lo,
{
    if lo > 14 {
        Seq::empty()
    } else {
        ranks_descending(s, lo + 1) + Seq::new(
            rank_count(s, Rank::of_value(lo)),
            |i: int| Rank::of_value(lo),
        )
    }
}

/// The ranks grouped by how often they occur: those that occur four times, then
/// three times, twice, once; within a group the highest first.
pub open spec fn ranks_grouped(s: Seq<Card>) -> Seq<Rank> {
    ranks_with_count(s, 4, 2) + ranks_with_count(s, 3, 2) + ranks_with_count(s, 2, 2)
        + ranks_with_count(s, 1, 2)
}

/// The category of five cards: the strongest one that they meet.
pub open spec fn category(s: Seq<Card>) -> HandRank {
    if same_suit(s) && straight_top(s) == Some(Rank::Ace) {
        HandRank::RoyalFlush
    } else if same_suit(s) && straight_top(s) is Some {
        HandRank::StraightFlush
    } else if has_count(s, 4) {
        HandRank::FourOfAKind
    } else if has_count(s, 3) && has_count(s, 2) {
        HandRank::FullHouse
    } else if same_suit(s) {
        HandRank::Flush
    } else if straight_top(s) is Some {
        HandRank::Straight
    } else if has_count(s, 3) {
        HandRank::ThreeOfAKind
    } else if ranks_with_count(s, 2, 2).len() == 2 {
        HandRank::TwoPair
    } else if has_count(s, 2) {
        HandRank::OnePair
    } else {
        HandRank::HighCard
    }
}

/// The kickers of five cards taken as a hand of category `rank`. A straight is
/// known by its top rank. A flush and a high card list all five ranks. The other
/// categories list the ranks that make the category first, then the rest.
pub open spec fn kickers_for(s: Seq<Card>, rank: HandRank) -> Seq<Rank> {
    match rank {
        HandRank::RoyalFlush | HandRank::StraightFlush | HandRank::Straight => {
            match straight_top(s) {
                Some(top) => seq![top],
                None => Seq::empty(),
            }
        },
        HandRank::Flush | HandRank::HighCard => ranks_descending(s, 2),
        _ => ranks_grouped(s),
    }
}

/// What five cards are worth as a hand.
pub open spec fn five_card_value(s: Seq<Card>) -> HandValue {
    HandValue { rank: category(s), kickers: kickers_for(s, category(s)) }
}

// ---------------------------------------------------------------------------
// The order of hands
// ---------------------------------------------------------------------------
/// How the kickers `a` stand against `b` from position `i` on: -1 if they lose,
/// 0 if they tie, 1 if they win. The first position that differs decides; kickers
/// that run out first lose.
pub open spec fn kickers_order_from(a: Seq<Rank>, b: Seq<Rank>, i: int) -> int
    decreases a.len() - i,
{
    if i >= a.len() && i >= b.len() {
        0
    } else if i >= a.len() {
        -1
    } else if i >= b.len() {
        1
    } else if a[i].spec_value() < b[i].spec_value() {
        -1
    } else if a[i].spec_value() > b[i].spec_value() {
        1
    } else {
        kickers_order_from(a, b, i + 1)
    }
}

/// How the hand value `a` stands against `b`: -1 if it loses, 0 if they tie, 1
/// if it wins. The category decides first, then the kickers.
pub open spec fn value_order(a: HandValue, b: HandValue) -> int {
    if a.rank.spec_strength() < b.rank.spec_strength() {
        -1
    } else if a.rank.spec_strength() > b.rank.spec_strength() {
        1
    } else {
        kickers_order_from(a.kickers, b.kickers, 0)
    }
}

/// `i` and `j` name a choice of five of the cards: of five cards all, of six
/// all but the card at `i`, of seven all but the cards at `i` and `j`.
pub open spec fn is_pick(s: Seq<Card>, i: int, j: int) -> bool {
    if s.len() == 5 {
        i == 0 && j == 0
    } else if s.len() == 6 {
        0 <= i < 6 && j == i
    } else {
        0 <= i < j < s.len()
    }
}

/// The five cards that the choice `i`, `j` keeps, in their order.
pub open spec fn pick(s: Seq<Card>, i: int, j: int) -> Seq<Card> {
    if s.len() == 5 {
        s
    } else if s.len() == 6 {
        s.remove(i)
    } else {
        s.remove(j).remove(i)
    }
}

/// The cards of the given rank, in their order.
pub open spec fn of_rank(s: Seq<Card>, r: Rank) -> Seq<Card>
    decreases s.len(),
{
    if s.len() == 0 {
        Seq::empty()
    } else if s.last().rank == r {
        of_rank(s.drop_last(), r).push(s.last())
    } else {
        of_rank(s.drop_last(), r)
    }
}

/// The cards of face value `lo` and above in descending order of rank, cards
/// of one rank in the order in which they come.
pub open spec fn cards_descending(s: Seq<Card>, lo: int) -> Seq<Card>
    decreases 15 - lo,
{
    if lo > 14 {
        Seq::empty()
    } else {
        cards_descending(s, lo + 1) + of_rank(s, Rank::of_value(lo))
    }
}

/// The hand is what the five cards `five` make: it is worth what they are
/// worth, and its cards are the five in descending order of rank.
pub open spec fn made_of(hand: Hand, five: Seq<Card>) -> bool {
    &&& hand.value() == five_card_value(five)
    &&& hand.cards@ == cards_descending(five, 2)
}

/// The choice `k`, `l` is tried before the choice `i`, `j`.
pub open spec fn tried_before(k: int, l: int, i: int, j: int) -> bool {
    k < i || (k == i && l < j)
}

/// No choice of five of the cards makes a hand that beats the choice `i`,
/// `j`, and every choice tried before it makes a worse one.
pub open spec fn first_best(s: Seq<Card>, i: int, j: int) -> bool {
    forall|k: int, l: int|
        is_pick(s, k, l) ==> {
            let order = value_order(
                five_card_value(#[trigger] pick(s, k, l)),
                five_card_value(pick(s, i, j)),
            );
            order <= 0 && (tried_before(k, l, i, j) ==> order < 0)
        }
}

/// Of the choices tried before `tried_i`, `tried_j`, none makes a hand that
/// beats the choice `i`, `j`, and every one tried before that choice makes a
/// worse one.
pub open spec fn best_so_far(s: Seq<Card>, i: int, j: int, tried_i: int, tried_j: int) -> bool {
    forall|k: int, l: int|
        is_pick(s, k, l) && tried_before(k, l, tried_i, tried_j) ==> {
            let order = value_order(
                five_card_value(#[trigger] pick(s, k, l)),
                five_card_value(pick(s, i, j)),
            );
            order <= 0 && (tried_before(k, l, i, j) ==> order < 0)
        }
}

/// The hand is the best that five of the cards make: some choice makes it, no
/// choice makes a hand that beats it, and of the choices that make equally
/// good hands it is the first.
pub open spec fn best_of(hand: Hand, s: Seq<Card>) -> bool {
    exists|i: int, j: int|
        is_pick(s, i, j) && made_of(hand, #[trigger] pick(s, i, j)) && first_best(s, i, j)
}

/// `value` is what the best hand of five of the cards is worth.
pub open spec fn is_best_value(s: Seq<Card>, value: HandValue) -> bool {
    &&& exists|i: int, j: int| is_pick(s, i, j)
        && value == five_card_value(#[trigger] pick(s, i, j))
    &&& forall|i: int, j: int|
        is_pick(s, i, j) ==> value_order(five_card_value(#[trigger] pick(s, i, j)), value) <= 0
}

/// What the best hand of five of the cards is worth.
pub open spec fn best_value(s: Seq<Card>) -> HandValue {
    choose|value: HandValue| is_best_value(s, value)
}

proof fn lemma_kickers_order_flips(a: Seq<Rank>, b: Seq<Rank>, i: int)
    requires
        0 <= i,
    ensures
        -1 <= kickers_order_from(a, b, i) <= 1,
        kickers_order_from(a, b, i) == -kickers_order_from(b, a, i),
    decreases a.len() - i,
{
    if i < a.len() && i < b.len() && a[i].spec_value() == b[i].spec_value() {
        lemma_kickers_order_flips(a, b, i + 1);
    }
}

proof fn lemma_kickers_order_tie(a: Seq<Rank>, b: Seq<Rank>, i: int)
    requires
        0 <= i,
    ensures
        kickers_order_from(a, b, i) == 0 <==> (a.len() <= i && b.len() <= i) || (a.len() == b.len()
            && forall|k: int| i <= k < a.len() ==> a[k] == b[k]),
    decreases a.len() - i,
{
    if i < a.len() && i < b.len() {
        if a[i].spec_value() == b[i].spec_value() {
            lemma_rank_value_injective(a[i], b[i]);
            lemma_kickers_order_tie(a, b, i + 1);
        }
    }
}

proof fn lemma_kickers_order_chains(a: Seq<Rank>, b: Seq<Rank>, c: Seq<Rank>, i: int)
    requires
        0 <= i,
        kickers_order_from(a, b, i) <= 0,
        kickers_order_from(b, c, i) <= 0,
    ensures
        kickers_order_from(a, c, i) <= 0,
        kickers_order_from(a, b, i) < 0 || kickers_order_from(b, c, i) < 0 ==> kickers_order_from(
            a,
            c,
            i,
        ) < 0,
    decreases a.len() - i,
{
    if i < a.len() && i < b.len() && i < c.len() {
        if a[i].spec_value() == b[i].spec_value() && b[i].spec_value() == c[i].spec_value() {
            lemma_kickers_order_chains(a, b, c, i + 1);
        }
    }
}

/// Of two hand values exactly one holds: the first loses, they tie, or the first
/// wins. Swapping the two swaps losing and winning. They tie exactly when they
/// have the same category and the same kickers.
pub proof fn lemma_order_total(a: HandValue, b: HandValue)
    ensures
        value_order(a, b) == -1 || value_order(a, b) == 0 || value_order(a, b) == 1,
        value_order(a, b) == -value_order(b, a),
        value_order(a, b) == 0 <==> a.rank == b.rank && a.kickers == b.kickers,
{
    lemma_kickers_order_flips(a.kickers, b.kickers, 0);
    lemma_kickers_order_tie(a.kickers, b.kickers, 0);
    if a.rank.spec_strength() == b.rank.spec_strength() {
        if value_order(a, b) == 0 {
            assert(a.kickers =~= b.kickers);
        }
    }
}

/// The order of hand values is transitive: a value that does not beat a second,
/// which does not beat a third, does not beat the third; and it loses to the
/// third if either step is a loss.
pub proof fn lemma_order_transitive(a: HandValue, b: HandValue, c: HandValue)
    requires
        value_order(a, b) <= 0,
        value_order(b, c) <= 0,
    ensures
        value_order(a, c) <= 0,
        value_order(a, b) < 0 || value_order(b, c) < 0 ==> value_order(a, c) < 0,
{
    lemma_kickers_order_flips(a.kickers, b.kickers, 0);
    lemma_kickers_order_flips(b.kickers, c.kickers, 0);
    if a.rank.spec_strength() == b.rank.spec_strength() && b.rank.spec_strength()
        == c.rank.spec_strength() {
        lemma_kickers_order_chains(a.kickers, b.kickers, c.kickers, 0);
    }
}

/// A stronger category wins whatever the kickers, and so whatever the suits:
/// royal flush over straight flush over four of a kind over full house over
/// flush over straight over three of a kind over two pair over one pair over
/// high card.
pub proof fn lemma_category_decides(a: HandValue, b: HandValue)
    requires
        a.rank.spec_strength() > b.rank.spec_strength(),
    ensures
        value_order(a, b) == 1,
        value_order(b, a) == -1,
        HandRank::RoyalFlush.spec_strength() > HandRank::StraightFlush.spec_strength(),
        HandRank::StraightFlush.spec_strength() > HandRank::FourOfAKind.spec_strength(),
        HandRank::FourOfAKind.spec_strength() > HandRank::FullHouse.spec_strength(),
        HandRank::FullHouse.spec_strength() > HandRank::Flush.spec_strength(),
        HandRank::Flush.spec_strength() > HandRank::Straight.spec_strength(),
        HandRank::Straight.spec_strength() > HandRank::ThreeOfAKind.spec_strength(),
        HandRank::ThreeOfAKind.spec_strength() > HandRank::TwoPair.spec_strength(),
        HandRank::TwoPair.spec_strength() > HandRank::OnePair.spec_strength(),
        HandRank::OnePair.spec_strength() > HandRank::HighCard.spec_strength(),
{
}

/// Evaluating the cards gives the greatest of the hands that five of them
/// make, which of seven cards are twenty-one: a hand that is the best of the
/// cards is beaten by no choice of five, and two hands that are each the best
/// of the same cards are the same in category, kickers and cards.
pub proof fn lemma_best_is_greatest(hand: Hand, other: Hand, s: Seq<Card>)
    requires
        best_of(hand, s),
        best_of(other, s),
    ensures
        forall|i: int, j: int|
            is_pick(s, i, j) ==> value_order(
                five_card_value(#[trigger] pick(s, i, j)),
                hand.value(),
            ) <= 0,
        hand.rank == other.rank,
        hand.kickers@ == other.kickers@,
        hand.cards@ == other.cards@,
{
    let (i, j) = choose|i: int, j: int|
        is_pick(s, i, j) && made_of(hand, #[trigger] pick(s, i, j)) && first_best(s, i, j);
    let (k, l) = choose|k: int, l: int|
        is_pick(s, k, l) && made_of(other, #[trigger] pick(s, k, l)) && first_best(s, k, l);
    let mine = five_card_value(pick(s, i, j));
    let theirs = five_card_value(pick(s, k, l));
    assert(value_order(five_card_value(pick(s, i, j)), theirs) <= 0);
    assert(value_order(five_card_value(pick(s, k, l)), mine) <= 0);
    lemma_order_total(mine, theirs);
    if tried_before(k, l, i, j) {
        assert(value_order(five_card_value(pick(s, k, l)), mine) < 0);
    } else if tried_before(i, j, k, l) {
        assert(value_order(five_card_value(pick(s, i, j)), theirs) < 0);
    } else {
        if s.len() == 6 {
            assert(j == i && l == k);
        }
        assert(i == k && j == l);
    }
    assert forall|a: int, b: int| is_pick(s, a, b) implies value_order(
        five_card_value(#[trigger] pick(s, a, b)),
        hand.value(),
    ) <= 0 by {
        assert(value_order(five_card_value(pick(s, a, b)), mine) <= 0);
    }
}

/// The best hand of the cards is worth `best_value` of them.
pub proof fn lemma_best_value(hand: Hand, s: Seq<Card>)
    requires
        best_of(hand, s),
    ensures
        hand.value() == best_value(s),
        is_best_value(s, best_value(s)),
{
    let (i, j) = choose|i: int, j: int|
        is_pick(s, i, j) && made_of(hand, #[trigger] pick(s, i, j)) && first_best(s, i, j);
    assert forall|a: int, b: int| is_pick(s, a, b) implies value_order(
        five_card_value(#[trigger] pick(s, a, b)),
        hand.value(),
    ) <= 0 by {
        assert(value_order(five_card_value(pick(s, a, b)), five_card_value(pick(s, i, j))) <= 0);
    }
    assert(is_best_value(s, hand.value()));
    let other = best_value(s);
    let (k, l) = choose|k: int, l: int|
        is_pick(s, k, l) && other == five_card_value(#[trigger] pick(s, k, l));
    assert(value_order(five_card_value(pick(s, i, j)), other) <= 0);
    assert(value_order(five_card_value(pick(s, k, l)), hand.value()) <= 0);
    lemma_order_total(hand.value(), other);
    assert(hand.value().kickers =~= other.kickers);
}

/// The cards of a rank are as many as are counted of it, they are of that
/// rank, and each card of the rank is among them as often as among all.
pub proof fn lemma_of_rank(s: Seq<Card>, r: Rank, card: Card)
    ensures
        of_rank(s, r).len() == rank_count(s, r),
        forall|k: int| 0 <= k < of_rank(s, r).len() ==> (#[trigger] of_rank(s, r)[k]).rank == r,
        occurrences(of_rank(s, r), card) == if card.rank == r {
            occurrences(s, card)
        } else {
            0
        },
    decreases s.len(),
{
    if s.len() > 0 {
        lemma_of_rank(s.drop_last(), r, card);
        if s.last().rank == r {
            lemma_occurrences_push(of_rank(s.drop_last(), r), s.last(), card);
        }
    }
}

/// One more card is one more among the cards of its rank.
pub proof fn lemma_of_rank_step(s: Seq<Card>, i: int, r: Rank)
    requires
        0 <= i < s.len(),
    ensures
        of_rank(s.take(i + 1), r) == if s[i].rank == r {
            of_rank(s.take(i), r).push(s[i])
        } else {
            of_rank(s.take(i), r)
        },
{
    assert(s.take(i + 1).drop_last() =~= s.take(i));
}

/// How many of the cards have a face value of `lo` or above.
pub open spec fn count_from(s: Seq<Card>, lo: int) -> nat
    decreases 15 - lo,
{
    if lo > 14 {
        0
    } else {
        count_from(s, lo + 1) + rank_count(s, Rank::of_value(lo))
    }
}

proof fn lemma_count_from_push(s: Seq<Card>, card: Card, lo: int)
    requires
        2 <= lo,
    ensures
        count_from(s.push(card), lo) == count_from(s, lo) + if card.rank.spec_value() >= lo {
            1nat
        } else {
            0nat
        },
    decreases 15 - lo,
{
    if lo <= 14 {
        lemma_count_from_push(s, card, lo + 1);
        assert(s.push(card).drop_last() =~= s);
        lemma_rank_value(card.rank);
    }
}

proof fn lemma_count_from_all(s: Seq<Card>)
    ensures
        count_from(s, 2) == s.len(),
    decreases s.len(),
{
    if s.len() == 0 {
        reveal_with_fuel(count_from, 15);
    } else {
        lemma_count_from_all(s.drop_last());
        lemma_count_from_push(s.drop_last(), s.last(), 2);
        assert(s.drop_last().push(s.last()) =~= s);
        lemma_rank_value(s.last().rank);
    }
}

proof fn lemma_cards_descending_from(s: Seq<Card>, lo: int, card: Card)
    requires
        2 <= lo,
    ensures
        cards_descending(s, lo).len() == count_from(s, lo),
        forall|k: int|
            0 <= k < cards_descending(s, lo).len() ==> (#[trigger] cards_descending(
                s,
                lo,
            )[k]).rank.spec_value() >= lo,
        ranks_fall(cards_descending(s, lo)),
        occurrences(cards_descending(s, lo), card) == if card.rank.spec_value() >= lo {
            occurrences(s, card)
        } else {
            0
        },
    decreases 15 - lo,
{
    if lo <= 14 {
        let above = cards_descending(s, lo + 1);
        let here = of_rank(s, Rank::of_value(lo));
        lemma_cards_descending_from(s, lo + 1, card);
        lemma_of_rank(s, Rank::of_value(lo), card);
        lemma_occurrences_add(above, here, card);
        lemma_rank_value(card.rank);
        assert forall|a: int, b: int| 0 <= a <= b < (above + here).len() implies (#[trigger] (above
            + here)[a]).rank.spec_value() >= (#[trigger] (above + here)[b]).rank.spec_value() by {
            if b < above.len() {
                assert(above[a].rank.spec_value() >= above[b].rank.spec_value());
            } else if a < above.len() {
                assert(above[a].rank.spec_value() >= lo + 1);
                assert(here[b - above.len()].rank == Rank::of_value(lo));
            } else {
                assert(here[a - above.len()].rank == Rank::of_value(lo));
                assert(here[b - above.len()].rank == Rank::of_value(lo));
            }
        }
        assert forall|k: int| 0 <= k < (above + here).len() implies (#[trigger] (above
            + here)[k]).rank.spec_value() >= lo by {
            if k < above.len() {
                assert(above[k].rank.spec_value() >= lo + 1);
            } else {
                assert(here[k - above.len()].rank == Rank::of_value(lo));
            }
        }
    } else {
        lemma_rank_value(card.rank);
    }
}

/// The cards in descending order are the same cards, each as often as before,
/// and their ranks fall.
pub proof fn lemma_cards_descending(s: Seq<Card>)
    ensures
        cards_descending(s, 2).len() == s.len(),
        ranks_fall(cards_descending(s, 2)),
        forall|card: Card|
            #[trigger] occurrences(cards_descending(s, 2), card) == occurrences(s, card),
{
    lemma_count_from_all(s);
    assert forall|card: Card|
        #[trigger] occurrences(cards_descending(s, 2), card) == occurrences(s, card) by {
        lemma_cards_descending_from(s, 2, card);
        lemma_rank_value(card.rank);
    }
    lemma_cards_descending_from(s, 2, s[0]);
}

/// The cards are in descending order of rank.
pub open spec fn ranks_fall(s: Seq<Card>) -> bool {
    forall|i: int, j: int|
        0 <= i <= j < s.len() ==> (#[trigger] s[i]).rank.spec_value() >= (
        #[trigger] s[j]).rank.spec_value()
}

/// No rank occurs more often than there are cards.
pub proof fn lemma_rank_count_bound(s: Seq<Card>, r: Rank)
    ensures
        rank_count(s, r) <= s.len(),
    decreases s.len(),
{
    if s.len() > 0 {
        lemma_rank_count_bound(s.drop_last(), r);
    }
}

/// One more card adds one to the count of its rank and nothing to the others.
pub proof fn lemma_rank_count_step(s: Seq<Card>, i: int, r: Rank)
    requires
        0 <= i < s.len(),
    ensures
        rank_count(s.take(i + 1), r) == rank_count(s.take(i), r) + if s[i].rank == r {
            1nat
        } else {
            0nat
        },
{
    assert(s.take(i + 1).drop_last() =~= s.take(i));
}

impl Hand {
    /// What decides between this hand and another.
    pub open spec fn value(&self) -> HandValue {
        HandValue { rank: self.rank, kickers: self.kickers@ }
    }

    /// Counts the cards of each rank. Entry `v` of the result, for a face value
    /// `v` from 2 to 14, is the number of cards of that rank.
    pub fn count_ranks(cards: &[Card]) -> (counts: Vec<usize>)
        ensures
            counts@.len() == 15,
            counts@[0] == 0,
            counts@[1] == 0,
            forall|v: int|
                2 <= v <= 14 ==> #[trigger] counts@[v] == rank_count(cards@, Rank::of_value(v)),
    {
        let mut counts: Vec<usize> = Vec::new();
        let mut k: usize = 0;
        while k < 15
            invariant
                k <= 15,
                counts@.len() == k,
                forall|v: int| 0 <= v < k ==> counts@[v] == 0,
            decreases 15 - k,
        {
            counts.push(0);
            k += 1;
        }
        let mut i: usize = 0;
        while i < cards.len()
            invariant
                i <= cards@.len(),
                counts@.len() == 15,
                counts@[0] == 0,
                counts@[1] == 0,
                forall|v: int|
                    2 <= v <= 14 ==> #[trigger] counts@[v] == rank_count(
                        cards@.take(i as int),
                        Rank::of_value(v),
                    ),
            decreases cards@.len() - i,
        {
            let v = cards[i].rank.value() as usize;
            proof {
                lemma_rank_value(cards@[i as int].rank);
                lemma_rank_count_bound(cards@.take(i as int), Rank::of_value(v as int));
                assert forall|w: int| 2 <= w <= 14 implies rank_count(
                    cards@.take(i + 1),
                    Rank::of_value(w),
                ) == rank_count(cards@.take(i as int), Rank::of_value(w)) + if w == v {
                    1nat
                } else {
                    0nat
                } by {
                    lemma_rank_count_step(cards@, i as int, Rank::of_value(w));
                }
            }
            let n = counts[v];
            counts.set(v, n + 1);
            i += 1;
        }
        assert(cards@.take(cards@.len() as int) =~= cards@);
        counts
    }

    /// Whether all cards are of one suit.
    pub fn is_flush(cards: &[Card]) -> (flush: bool)
        requires
            cards@.len() > 0,
        ensures
            flush == same_suit(cards@),
    {
        let first = cards[0].suit;
        let mut i: usize = 0;
        while i < cards.len()
            invariant
                i <= cards@.len(),
                cards@.len() > 0,
                first == cards@[0].suit,
                forall|k: int| 0 <= k < i ==> (#[trigger] cards@[k]).suit == first,
            decreases cards@.len() - i,
        {
            if cards[i].suit != first {
                return false;
            }
            i += 1;
        }
        true
    }

    /// The top rank of the straight that the cards make, if they make one.
    pub fn straight_high(cards: &[Card]) -> (top: Option<Rank>)
        ensures
            top == straight_top(cards@),
    {
        let counts = Self::count_ranks(cards);
        let mut t: usize = 14;
        while t >= 5
            invariant
                4 <= t <= 14,
                counts@.len() == 15,
                forall|v: int|
                    2 <= v <= 14 ==> #[trigger] counts@[v] == rank_count(
                        cards@,
                        Rank::of_value(v),
                    ),
                straight_top(cards@) == straight_top_from(cards@, t as int),
            decreases t,
        {
            let low = if t == 5 {
                14
            } else {
                t - 4
            };
            if counts[t] >= 1 && counts[t - 1] >= 1 && counts[t - 2] >= 1 && counts[t - 3] >= 1
                && counts[low] >= 1 {
                assert(is_run(cards@, t as int));
                return Some(Rank::from_value(t as u8));
            }
            assert(!is_run(cards@, t as int));
            t -= 1;
        }
        None
    }

    /// Whether the cards make a straight, the wheel included.
    pub fn is_straight(cards: &[Card]) -> (straight: bool)
        ensures
            straight == (straight_top(cards@) is Some),
    {
        Self::straight_high(cards).is_some()
    }

    /// The highest rank that occurs exactly `n` times, if there is one.
    pub fn rank_with_count(cards: &[Card], n: usize) -> (found: Option<Rank>)
        ensures
            found is Some <==> has_count(cards@, n as nat),
            found matches Some(r) ==> rank_count(cards@, r) == n && forall|other: Rank|
                rank_count(cards@, other) == n ==> other.spec_value() <= r.spec_value(),
    {
        let counts = Self::count_ranks(cards);
        let mut v: usize = 14;
        while v >= 2
            invariant
                1 <= v <= 14,
                counts@.len() == 15,
                forall|w: int|
                    2 <= w <= 14 ==> #[trigger] counts@[w] == rank_count(
                        cards@,
                        Rank::of_value(w),
                    ),
                forall|w: int| v < w <= 14 ==> rank_count(cards@, Rank::of_value(w)) != n,
            decreases v,
        {
            if counts[v] == n {
                let r = Rank::from_value(v as u8);
                proof {
                    assert forall|other: Rank| rank_count(cards@, other) == n implies
                        other.spec_value() <= r.spec_value() by {
                        lemma_rank_value(other);
                    }
                }
                return Some(r);
            }
            v -= 1;
        }
        proof {
            assert forall|r: Rank| rank_count(cards@, r) != n by {
                lemma_rank_value(r);
            }
        }
        None
    }

    /// Appends to `out` the ranks that occur exactly `n` times, highest first.
    pub fn push_ranks_with_count(cards: &[Card], n: usize, out: &mut Vec<Rank>)
        ensures
            final(out)@ == old(out)@ + ranks_with_count(cards@, n as nat, 2),
    {
        let counts = Self::count_ranks(cards);
        let mut v: usize = 14;
        while v >= 2
            invariant
                1 <= v <= 14,
                counts@.len() == 15,
                forall|w: int|
                    2 <= w <= 14 ==> #[trigger] counts@[w] == rank_count(
                        cards@,
                        Rank::of_value(w),
                    ),
                out@ == old(out)@ + ranks_with_count(cards@, n as nat, v + 1),
            decreases v,
        {
            if counts[v] == n {
                out.push(Rank::from_value(v as u8));
            }
            assert(out@ =~= old(out)@ + ranks_with_count(cards@, n as nat, v as int));
            v -= 1;
        }
    }

    /// The ranks of the cards, highest first, each as often as it occurs.
    pub fn ranks_in_order(cards: &[Card]) -> (ranks: Vec<Rank>)
        ensures
            ranks@ == ranks_descending(cards@, 2),
    {
        let counts = Self::count_ranks(cards);
        let mut ranks: Vec<Rank> = Vec::new();
        let mut v: usize = 14;
        while v >= 2
            invariant
                1 <= v <= 14,
                counts@.len() == 15,
                forall|w: int|
                    2 <= w <= 14 ==> #[trigger] counts@[w] == rank_count(
                        cards@,
                        Rank::of_value(w),
                    ),
                ranks@ == ranks_descending(cards@, v + 1),
            decreases v,
        {
            let rank = Rank::from_value(v as u8);
            let mut k: usize = 0;
            while k < counts[v]
                invariant
                    2 <= v <= 14,
                    counts@.len() == 15,
                    k <= counts@[v as int],
                    rank == Rank::of_value(v as int),
                    ranks@ == ranks_descending(cards@, v + 1) + Seq::new(
                        k as nat,
                        |i: int| Rank::of_value(v as int),
                    ),
                decreases counts@[v as int] - k,
            {
                ranks.push(rank);
                assert(ranks@ =~= ranks_descending(cards@, v + 1) + Seq::new(
                    (k + 1) as nat,
                    |i: int| Rank::of_value(v as int),
                ));
                k += 1;
            }
            v -= 1;
        }
        ranks
    }

    /// The ranks grouped by how often they occur, the most frequent first.
    pub fn grouped_kickers(cards: &[Card]) -> (ranks: Vec<Rank>)
        ensures
            ranks@ == ranks_grouped(cards@),
    {
        let mut ranks: Vec<Rank> = Vec::new();
        Self::push_ranks_with_count(cards, 4, &mut ranks);
        Self::push_ranks_with_count(cards, 3, &mut ranks);
        Self::push_ranks_with_count(cards, 2, &mut ranks);
        Self::push_ranks_with_count(cards, 1, &mut ranks);
        ranks
    }

    /// The cards in descending order of rank. Cards of one rank keep their order.
    pub fn sorted_descending(cards: &[Card]) -> (sorted: Vec<Card>)
        ensures
            sorted@ == cards_descending(cards@, 2),
            sorted@.len() == cards@.len(),
            ranks_fall(sorted@),
            forall|card: Card| #[trigger] occurrences(sorted@, card) == occurrences(cards@, card),
    {
        let mut sorted: Vec<Card> = Vec::new();
        let mut v: u8 = 14;
        while v >= 2
            invariant
                1 <= v <= 14,
                sorted@ == cards_descending(cards@, v + 1),
            decreases v,
        {
            let ghost above = sorted@;
            let mut i: usize = 0;
            while i < cards.len()
                invariant
                    i <= cards@.len(),
                    2 <= v <= 14,
                    sorted@ == above + of_rank(cards@.take(i as int), Rank::of_value(v as int)),
                decreases cards@.len() - i,
            {
                proof {
                    lemma_of_rank_step(cards@, i as int, Rank::of_value(v as int));
                    lemma_rank_value(cards@[i as int].rank);
                }
                if cards[i].rank.value() == v {
                    sorted.push(cards[i]);
                }
                assert(sorted@ =~= above + of_rank(
                    cards@.take(i + 1),
                    Rank::of_value(v as int),
                ));
                i += 1;
            }
            assert(cards@.take(cards@.len() as int) =~= cards@);
            v -= 1;
        }
        proof {
            lemma_cards_descending(cards@);
        }
        sorted
    }

    /// A copy of the cards.
    fn copy_cards(cards: &Vec<Card>) -> (copy: Vec<Card>)
        ensures
            copy@ == cards@,
    {
        let copy = cards.clone();
        assert(copy@ =~= cards@);
        copy
    }

    /// A straight flush whose top rank is the ace. `shown` becomes the hand's cards.
    pub fn check_royal_flush(cards: &[Card], shown: &Vec<Card>) -> (hand: Option<Hand>)
        requires
            cards@.len() > 0,
        ensures
            hand is Some <==> same_suit(cards@) && straight_top(cards@) == Some(Rank::Ace),
            hand matches Some(h) ==> h.rank == HandRank::RoyalFlush && h.kickers@ == kickers_for(
                cards@,
                HandRank::RoyalFlush,
            ) && h.cards@ == shown@,
    {
        match Self::check_straight_flush(cards, shown) {
            Some(hand) => {
                if hand.kickers[0] == Rank::Ace {
                    Some(Hand { rank: HandRank::RoyalFlush, cards: hand.cards,
                        kickers: hand.kickers })
                } else {
                    None
                }
            },
            None => None,
        }
    }

    /// Five cards of one suit that make a straight.
    pub fn check_straight_flush(cards: &[Card], shown: &Vec<Card>) -> (hand: Option<Hand>)
        requires
            cards@.len() > 0,
        ensures
            hand is Some <==> same_suit(cards@) && straight_top(cards@) is Some,
            hand matches Some(h) ==> h.rank == HandRank::StraightFlush && h.kickers@
                == kickers_for(cards@, HandRank::StraightFlush) && h.kickers@.len() == 1
                && h.cards@ == shown@,
    {
        if Self::is_flush(cards) {
            match Self::straight_high(cards) {
                Some(top) => {
                    let mut kickers: Vec<Rank> = Vec::new();
                    kickers.push(top);
                    assert(kickers@ =~= seq![top]);
                    Some(
                        Hand {
                            rank: HandRank::StraightFlush,
                            cards: Self::copy_cards(shown),
                            kickers,
                        },
                    )
                },
                None => None,
            }
        } else {
            None
        }
    }

    /// Four cards of one rank.
    pub fn check_four_of_a_kind(cards: &[Card], shown: &Vec<Card>) -> (hand: Option<Hand>)
        ensures
            hand is Some <==> has_count(cards@, 4),
            hand matches Some(h) ==> h.rank == HandRank::FourOfAKind && h.kickers@ == kickers_for(
                cards@,
                HandRank::FourOfAKind,
            ) && h.cards@ == shown@,
    {
        if Self::rank_with_count(cards, 4).is_some() {
            Some(
                Hand {
                    rank: HandRank::FourOfAKind,
                    cards: Self::copy_cards(shown),
                    kickers: Self::grouped_kickers(cards),
                },
            )
        } else {
            None
        }
    }

    /// Three cards of one rank and two of another.
    pub fn check_full_house(cards: &[Card], shown: &Vec<Card>) -> (hand: Option<Hand>)
        ensures
            hand is Some <==> has_count(cards@, 3) && has_count(cards@, 2),
            hand matches Some(h) ==> h.rank == HandRank::FullHouse && h.kickers@ == kickers_for(
                cards@,
                HandRank::FullHouse,
            ) && h.cards@ == shown@,
    {
        if Self::rank_with_count(cards, 3).is_some() && Self::rank_with_count(cards, 2).is_some() {
            Some(
                Hand {
                    rank: HandRank::FullHouse,
                    cards: Self::copy_cards(shown),
                    kickers: Self::grouped_kickers(cards),
                },
            )
        } else {
            None
        }
    }

    /// Five cards of one suit.
    pub fn check_flush(cards: &[Card], shown: &Vec<Card>) -> (hand: Option<Hand>)
        requires
            cards@.len() > 0,
        ensures
            hand is Some <==> same_suit(cards@),
            hand matches Some(h) ==> h.rank == HandRank::Flush && h.kickers@ == kickers_for(
                cards@,
                HandRank::Flush,
            ) && h.cards@ == shown@,
    {
        if Self::is_flush(cards) {
            Some(
                Hand {
                    rank: HandRank::Flush,
                    cards: Self::copy_cards(shown),
                    kickers: Self::ranks_in_order(cards),
                },
            )
        } else {
            None
        }
    }

    /// Five ranks in a row, the wheel included.
    pub fn check_straight(cards: &[Card], shown: &Vec<Card>) -> (hand: Option<Hand>)
        ensures
            hand is Some <==> straight_top(cards@) is Some,
            hand matches Some(h) ==> h.rank == HandRank::Straight && h.kickers@ == kickers_for(
                cards@,
                HandRank::Straight,
            ) && h.cards@ == shown@,
    {
        match Self::straight_high(cards) {
            Some(top) => {
                let mut kickers: Vec<Rank> = Vec::new();
                kickers.push(top);
                assert(kickers@ =~= seq![top]);
                Some(Hand { rank: HandRank::Straight, cards: Self::copy_cards(shown), kickers })
            },
            None => None,
        }
    }

    /// Three cards of one rank.
    pub fn check_three_of_a_kind(cards: &[Card], shown: &Vec<Card>) -> (hand: Option<Hand>)
        ensures
            hand is Some <==> has_count(cards@, 3),
            hand matches Some(h) ==> h.rank == HandRank::ThreeOfAKind && h.kickers@
                == kickers_for(cards@, HandRank::ThreeOfAKind) && h.cards@ == shown@,
    {
        if Self::rank_with_count(cards, 3).is_some() {
            Some(
                Hand {
                    rank: HandRank::ThreeOfAKind,
                    cards: Self::copy_cards(shown),
                    kickers: Self::grouped_kickers(cards),
                },
            )
        } else {
            None
        }
    }

    /// Two ranks that each occur twice.
    pub fn check_two_pair(cards: &[Card], shown: &Vec<Card>) -> (hand: Option<Hand>)
        ensures
            hand is Some <==> ranks_with_count(cards@, 2, 2).len() == 2,
            hand matches Some(h) ==> h.rank == HandRank::TwoPair && h.kickers@ == kickers_for(
                cards@,
                HandRank::TwoPair,
            ) && h.cards@ == shown@,
    {
        let mut pairs: Vec<Rank> = Vec::new();
        Self::push_ranks_with_count(cards, 2, &mut pairs);
        assert(pairs@ =~= ranks_with_count(cards@, 2, 2));
        if pairs.len() == 2 {
            Some(
                Hand {
                    rank: HandRank::TwoPair,
                    cards: Self::copy_cards(shown),
                    kickers: Self::grouped_kickers(cards),
                },
            )
        } else {
            None
        }
    }

    /// Two cards of one rank.
    pub fn check_one_pair(cards: &[Card], shown: &Vec<Card>) -> (hand: Option<Hand>)
        ensures
            hand is Some <==> has_count(cards@, 2),
            hand matches Some(h) ==> h.rank == HandRank::OnePair && h.kickers@ == kickers_for(
                cards@,
                HandRank::OnePair,
            ) && h.cards@ == shown@,
    {
        if Self::rank_with_count(cards, 2).is_some() {
            Some(
                Hand {
                    rank: HandRank::OnePair,
                    cards: Self::copy_cards(shown),
                    kickers: Self::grouped_kickers(cards),
                },
            )
        } else {
            None
        }
    }

    /// The hand that exactly five cards make. Its cards are the five in
    /// descending order of rank.
    pub fn evaluate_five_cards(cards: &[Card]) -> (hand: Hand)
        requires
            cards@.len() == 5,
        ensures
            made_of(hand, cards@),
    {
        let sorted = Self::sorted_descending(cards);
        if let Some(hand) = Self::check_royal_flush(cards, &sorted) {
            return hand;
        }
        if let Some(hand) = Self::check_straight_flush(cards, &sorted) {
            return hand;
        }
        if let Some(hand) = Self::check_four_of_a_kind(cards, &sorted) {
            return hand;
        }
        if let Some(hand) = Self::check_full_house(cards, &sorted) {
            return hand;
        }
        if let Some(hand) = Self::check_flush(cards, &sorted) {
            return hand;
        }
        if let Some(hand) = Self::check_straight(cards, &sorted) {
            return hand;
        }
        if let Some(hand) = Self::check_three_of_a_kind(cards, &sorted) {
            return hand;
        }
        if let Some(hand) = Self::check_two_pair(cards, &sorted) {
            return hand;
        }
        if let Some(hand) = Self::check_one_pair(cards, &sorted) {
            return hand;
        }
        let kickers = Self::ranks_in_order(cards);
        Hand { rank: HandRank::HighCard, cards: sorted, kickers }
    }

    /// How this hand stands against `other`: -1 if it loses, 0 if they tie, 1 if
    /// it wins.
    pub fn compare(&self, other: &Hand) -> (order: i8)
        ensures
            order == value_order(self.value(), other.value()),
    {
        let mine = self.rank.strength();
        let theirs = other.rank.strength();
        if mine < theirs {
            return -1;
        }
        if mine > theirs {
            return 1;
        }
        let mut i: usize = 0;
        while i < self.kickers.len() && i < other.kickers.len()
            invariant
                i <= self.kickers@.len(),
                i <= other.kickers@.len(),
                self.rank.spec_strength() == other.rank.spec_strength(),
                kickers_order_from(self.kickers@, other.kickers@, 0) == kickers_order_from(
                    self.kickers@,
                    other.kickers@,
                    i as int,
                ),
            decreases self.kickers@.len() - i,
        {
            let a = self.kickers[i].value();
            let b = other.kickers[i].value();
            if a < b {
                return -1;
            }
            if a > b {
                return 1;
            }
            i += 1;
        }
        if i < other.kickers.len() {
            -1
        } else if i < self.kickers.len() {
            1
        } else {
            0
        }
    }

    /// Whether this hand beats `other`.
    pub fn beats(&self, other: &Hand) -> (wins: bool)
        ensures
            wins == (value_order(self.value(), other.value()) == 1),
    {
        self.compare(other) == 1
    }

    /// The best hand that five of six or seven cards make. Every choice of five
    /// is evaluated; of equally good hands the first found is kept.
    pub fn best_five_card_hand(cards: &[Card]) -> (hand: Hand)
        requires
            6 <= cards@.len() <= 7,
        ensures
            best_of(hand, cards@),
    {
        let n = cards.len();
        let mut best: Option<Hand> = None;
        let ghost mut at: (int, int) = (0, 0);
        let mut i: usize = 0;
        while i < n
            invariant
                i <= n,
                n == cards@.len(),
                6 <= n <= 7,
                i > 0 ==> best is Some,
                best matches Some(b) ==> is_pick(cards@, at.0, at.1) && made_of(
                    b,
                    pick(cards@, at.0, at.1),
                ) && best_so_far(cards@, at.0, at.1, i as int, 0) && tried_before(
                    at.0,
                    at.1,
                    i as int,
                    0,
                ),
            decreases n - i,
        {
            if n == 6 {
                let mut five = slice_to_vec(cards);
                five.remove(i);
                let hand = Self::evaluate_five_cards(five.as_slice());
                proof {
                    lemma_kept(cards@, best, hand, at, (i as int, i as int), (i as int, 0));
                }
                match best {
                    None => {
                        best = Some(hand);
                        proof {
                            at = (i as int, i as int);
                        }
                    },
                    Some(current) => {
                        if hand.beats(&current) {
                            best = Some(hand);
                            proof {
                                at = (i as int, i as int);
                            }
                        } else {
                            best = Some(current);
                        }
                    },
                }
                assert(best_so_far(cards@, at.0, at.1, i + 1, 0)) by {
                    assert(best_so_far(cards@, at.0, at.1, i as int, i + 1));
                }
            } else {
                let mut j: usize = i + 1;
                while j < n
                    invariant
                        i < j <= n,
                        n == cards@.len(),
                        n == 7,
                        i > 0 || j > 1 ==> best is Some,
                        best matches Some(b) ==> is_pick(cards@, at.0, at.1) && made_of(
                            b,
                            pick(cards@, at.0, at.1),
                        ) && best_so_far(cards@, at.0, at.1, i as int, j as int) && tried_before(
                            at.0,
                            at.1,
                            i as int,
                            j as int,
                        ),
                    decreases n - j,
                {
                    let mut five = slice_to_vec(cards);
                    five.remove(j);
                    five.remove(i);
                    let hand = Self::evaluate_five_cards(five.as_slice());
                    proof {
                        lemma_kept(
                            cards@,
                            best,
                            hand,
                            at,
                            (i as int, j as int),
                            (i as int, j as int),
                        );
                    }
                    match best {
                        None => {
                            best = Some(hand);
                            proof {
                                at = (i as int, j as int);
                            }
                        },
                        Some(current) => {
                            if hand.beats(&current) {
                                best = Some(hand);
                                proof {
                                    at = (i as int, j as int);
                                }
                            } else {
                                best = Some(current);
                            }
                        },
                    }
                    j += 1;
                }
            }
            i += 1;
        }
        best.unwrap()
    }

    /// The best five-card hand that five, six or seven cards make.
    pub fn evaluate(cards: &[Card]) -> (hand: Hand)
        requires
            5 <= cards@.len() <= 7,
        ensures
            best_of(hand, cards@),
    {
        if cards.len() == 5 {
            let hand = Self::evaluate_five_cards(cards);
            proof {
                lemma_order_total(hand.value(), hand.value());
                assert(is_pick(cards@, 0, 0) && made_of(hand, pick(cards@, 0, 0)) && first_best(
                    cards@,
                    0,
                    0,
                ));
            }
            hand
        } else {
            Self::best_five_card_hand(cards)
        }
    }
}

/// Trying one more choice keeps the search in order. The hand of the new
/// choice `new` takes the place of the best one so far, at `at`, if it beats
/// it, or if there is none yet; then every choice tried before makes a worse
/// hand. Else the best so far stays the first of the best.
proof fn lemma_kept(
    s: Seq<Card>,
    best: Option<Hand>,
    hand: Hand,
    at: (int, int),
    new: (int, int),
    tried: (int, int),
)
    requires
        is_pick(s, new.0, new.1),
        made_of(hand, pick(s, new.0, new.1)),
        s.len() == 6 ==> tried == (new.0, 0int),
        s.len() != 6 ==> tried == new,
        6 <= s.len() <= 7,
        best matches Some(b) ==> is_pick(s, at.0, at.1) && made_of(b, pick(s, at.0, at.1))
            && best_so_far(s, at.0, at.1, tried.0, tried.1) && tried_before(
            at.0,
            at.1,
            tried.0,
            tried.1,
        ),
        best is None ==> forall|k: int, l: int|
            is_pick(s, k, l) ==> !tried_before(k, l, tried.0, tried.1),
    ensures
        ({
            let next = (new.0, new.1 + 1);
            let kept = if best is None || value_order(hand.value(), best->0.value()) == 1 {
                new
            } else {
                at
            };
            best_so_far(s, kept.0, kept.1, next.0, next.1)
        }),
{
    let mine = five_card_value(pick(s, new.0, new.1));
    lemma_order_total(mine, mine);
    let next = (new.0, new.1 + 1);
    match best {
        None => {
            assert forall|k: int, l: int|
                is_pick(s, k, l) && tried_before(k, l, next.0, next.1) implies {
                let order = value_order(five_card_value(#[trigger] pick(s, k, l)), mine);
                order <= 0 && (tried_before(k, l, new.0, new.1) ==> order < 0)
            } by {
                assert(!tried_before(k, l, tried.0, tried.1));
                assert(k == new.0 && l == new.1);
            }
        },
        Some(held) => {
            let theirs = five_card_value(pick(s, at.0, at.1));
            lemma_order_total(mine, theirs);
            lemma_order_total(theirs, mine);
            if value_order(mine, theirs) == 1 {
                assert forall|k: int, l: int|
                    is_pick(s, k, l) && tried_before(k, l, next.0, next.1) implies {
                    let order = value_order(five_card_value(#[trigger] pick(s, k, l)), mine);
                    order <= 0 && (tried_before(k, l, new.0, new.1) ==> order < 0)
                } by {
                    if tried_before(k, l, tried.0, tried.1) {
                        lemma_order_transitive(five_card_value(pick(s, k, l)), theirs, mine);
                    } else {
                        assert(k == new.0 && l == new.1);
                    }
                }
            } else {
                assert forall|k: int, l: int|
                    is_pick(s, k, l) && tried_before(k, l, next.0, next.1) implies {
                    let order = value_order(five_card_value(#[trigger] pick(s, k, l)), theirs);
                    order <= 0 && (tried_before(k, l, at.0, at.1) ==> order < 0)
                } by {
                    if !tried_before(k, l, tried.0, tried.1) {
                        assert(k == new.0 && l == new.1);
                    }
                }
            }
        },
    }
}

impl PartialOrd for Hand {
    /// Hands are ordered by category, then by kickers; the cards do not count.
    fn partial_cmp(&self, other: &Hand) -> (order: Option<Ordering>) {
        let standing = self.compare(other);
        if standing < 0 {
            Some(Ordering::Less)
        } else if standing > 0 {
            Some(Ordering::Greater)
        } else {
            Some(Ordering::Equal)
        }
    }
}

impl vstd::std_specs::cmp::PartialOrdSpecImpl for Hand {
    open spec fn obeys_partial_cmp_spec() -> bool {
        true
    }

    open spec fn partial_cmp_spec(&self, other: &Hand) -> Option<Ordering> {
        if value_order(self.value(), other.value()) < 0 {
            Some(Ordering::Less)
        } else if value_order(self.value(), other.value()) > 0 {
            Some(Ordering::Greater)
        } else {
            Some(Ordering::Equal)
        }
    }
}

} // verus!
