use rummy_sim::card::{Card, CardSet, CardSuit, CardValue};
use rummy_sim::score::{all_possible_plays, AceStatus, Play, PlayKind, PlayedCards};

use CardSuit::{Clubs, Diamonds, Hearts, Spades};

fn card(value_index: usize, suit: CardSuit) -> Card {
    Card { value: CardValue::from_index(value_index), suit }
}

fn cards(v: Vec<(usize, CardSuit)>) -> Vec<Card> {
    v.into_iter().map(|(i, s)| card(i, s)).collect()
}

fn set(v: Vec<(usize, CardSuit)>) -> CardSet {
    CardSet::from_vec(&cards(v))
}

/// A play as (kind, cards used, cards acquired), each card list in canonical order.
type Described = (PlayKind, Vec<Card>, Vec<Card>);

fn describe(p: &Play) -> Described {
    (p.kind, p.cards_used.as_ordered_list(), p.cards_acquired.as_ordered_list())
}

fn expect(kind: PlayKind, used: Vec<(usize, CardSuit)>, acquired: Vec<(usize, CardSuit)>) -> Described {
    (kind, set(used).as_ordered_list(), set(acquired).as_ordered_list())
}

fn run(status: Option<AceStatus>) -> PlayKind {
    PlayKind::StraightFlush { ace_status: status }
}

fn plays_of(hand: &CardSet, pile: &Vec<Card>, table: &PlayedCards) -> Vec<Described> {
    all_possible_plays(hand, pile, table).iter().map(describe).collect()
}

fn table(runs: Vec<(usize, CardSuit)>, multiples: Vec<(usize, CardSuit)>) -> PlayedCards {
    PlayedCards { straight_flush_played: set(runs), multiple_played: set(multiples) }
}

#[test]
fn scenario_mixed_hand_and_pile() {
    let hand = set(vec![
        (1, Clubs),
        (2, Clubs),
        (1, Spades),
        (1, Diamonds),
        (0, Diamonds),
        (0, Clubs),
        (5, Hearts),
    ]);
    let pile = cards(vec![(6, Clubs), (10, Hearts), (0, Spades), (4, Spades)]);
    let played = table(
        vec![],
        vec![(5, Clubs), (5, Spades), (5, Diamonds), (10, Clubs), (10, Spades), (10, Diamonds)],
    );
    let plays = plays_of(&hand, &pile, &played);
    assert_eq!(
        plays,
        vec![
            // Aces: two in hand and one in the pile, which pulls the Five above it.
            expect(
                PlayKind::Multiple,
                vec![(0, Spades), (0, Clubs), (0, Diamonds)],
                vec![(0, Spades), (4, Spades)],
            ),
            expect(PlayKind::Multiple, vec![(1, Spades), (1, Clubs), (1, Diamonds)], vec![]),
            // Six added to the melded Sixes; not from the pile.
            expect(PlayKind::Multiple, vec![(5, Hearts)], vec![]),
            // Jack of the pile added to the melded Jacks.
            expect(
                PlayKind::Multiple,
                vec![(10, Hearts)],
                vec![(10, Hearts), (0, Spades), (4, Spades)],
            ),
            expect(run(Some(AceStatus::Low)), vec![(0, Clubs), (1, Clubs), (2, Clubs)], vec![]),
        ]
    );
    // No multiple of Sevens or Fives: a single card of an unmelded rank.
    assert!(!plays.iter().any(|p| p.0 == PlayKind::Multiple
        && p.1.iter().any(|c| c.value == CardValue::Seven || c.value == CardValue::Five)));
}

#[test]
fn extensions_and_new_runs() {
    let hand = set(vec![
        (2, Spades),
        (10, Spades),
        (0, Hearts),
        (1, Hearts),
        (2, Hearts),
        (5, Clubs),
        (4, Clubs),
        (9, Clubs),
        (4, Diamonds),
        (5, Diamonds),
        (6, Diamonds),
        (7, Diamonds),
    ]);
    let pile: Vec<Card> = vec![];
    let played = table(
        vec![
            (11, Spades),
            (12, Spades),
            (0, Spades),
            (6, Clubs),
            (7, Clubs),
            (8, Clubs),
            (10, Clubs),
            (11, Clubs),
            (12, Clubs),
            (1, Diamonds),
            (2, Diamonds),
            (3, Diamonds),
        ],
        vec![],
    );
    let plays = plays_of(&hand, &pile, &played);
    assert_eq!(
        plays,
        vec![
            expect(run(None), vec![(10, Spades)], vec![]),
            expect(run(None), vec![(4, Clubs), (5, Clubs)], vec![]),
            expect(run(None), vec![(5, Clubs)], vec![]),
            expect(run(None), vec![(9, Clubs)], vec![]),
            expect(run(None), vec![(4, Diamonds), (5, Diamonds)], vec![]),
            expect(run(None), vec![(4, Diamonds)], vec![]),
            expect(run(Some(AceStatus::Low)), vec![(0, Hearts), (1, Hearts), (2, Hearts)], vec![]),
            expect(run(None), vec![(4, Diamonds), (5, Diamonds), (6, Diamonds)], vec![]),
            expect(
                run(None),
                vec![(4, Diamonds), (5, Diamonds), (6, Diamonds), (7, Diamonds)],
                vec![],
            ),
            expect(run(None), vec![(5, Diamonds), (6, Diamonds), (7, Diamonds)], vec![]),
        ]
    );
}

#[test]
fn aces_extend_alone_and_runs_reach_the_high_ace() {
    let hand = set(vec![
        (0, Hearts),
        (0, Diamonds),
        (0, Spades),
        (1, Spades),
        (2, Spades),
        (3, Spades),
        (4, Spades),
        (8, Spades),
        (9, Spades),
        (10, Spades),
        (11, Spades),
        (12, Spades),
    ]);
    let pile = cards(vec![(6, Clubs)]);
    let played = table(
        vec![
            (3, Clubs),
            (4, Clubs),
            (5, Clubs),
            (7, Clubs),
            (8, Clubs),
            (9, Clubs),
            (9, Hearts),
            (10, Hearts),
            (11, Hearts),
            (12, Hearts),
            (1, Diamonds),
            (2, Diamonds),
            (3, Diamonds),
            (5, Spades),
            (6, Spades),
            (7, Spades),
        ],
        vec![],
    );
    let plays = plays_of(&hand, &pile, &played);
    let spades = |v: Vec<usize>| -> Vec<(usize, CardSuit)> { v.into_iter().map(|i| (i, Spades)).collect() };
    let low = Some(AceStatus::Low);
    let high = Some(AceStatus::High);
    assert_eq!(
        plays,
        vec![
            expect(PlayKind::Multiple, vec![(0, Spades), (0, Hearts), (0, Diamonds)], vec![]),
            expect(run(None), spades(vec![3, 4]), vec![]),
            expect(run(None), spades(vec![4]), vec![]),
            expect(run(None), spades(vec![8, 9]), vec![]),
            expect(run(None), spades(vec![8]), vec![]),
            expect(run(high), vec![(0, Hearts)], vec![]),
            expect(run(None), vec![(6, Clubs)], vec![(6, Clubs)]),
            expect(run(low), vec![(0, Diamonds)], vec![]),
            expect(run(low), spades(vec![0, 1, 2]), vec![]),
            expect(run(low), spades(vec![0, 1, 2, 3]), vec![]),
            expect(run(low), spades(vec![0, 1, 2, 3, 4]), vec![]),
            expect(run(None), spades(vec![1, 2, 3]), vec![]),
            expect(run(None), spades(vec![1, 2, 3, 4]), vec![]),
            expect(run(None), spades(vec![2, 3, 4]), vec![]),
            expect(run(None), spades(vec![8, 9, 10]), vec![]),
            expect(run(None), spades(vec![8, 9, 10, 11]), vec![]),
            expect(run(None), spades(vec![8, 9, 10, 11, 12]), vec![]),
            expect(run(high), spades(vec![8, 9, 10, 11, 12, 0]), vec![]),
            expect(run(None), spades(vec![9, 10, 11]), vec![]),
            expect(run(None), spades(vec![9, 10, 11, 12]), vec![]),
            expect(run(high), spades(vec![9, 10, 11, 12, 0]), vec![]),
            expect(run(None), spades(vec![10, 11, 12]), vec![]),
            expect(run(high), spades(vec![10, 11, 12, 0]), vec![]),
            expect(run(high), spades(vec![11, 12, 0]), vec![]),
        ]
    );
}

#[test]
fn three_suits_give_one_multiple() {
    let hand = set(vec![(7, Spades), (7, Hearts), (7, Diamonds)]);
    let plays = plays_of(&hand, &vec![], &table(vec![], vec![]));
    assert_eq!(
        plays,
        vec![expect(PlayKind::Multiple, vec![(7, Spades), (7, Hearts), (7, Diamonds)], vec![])]
    );
}

#[test]
fn four_suits_give_five_multiples() {
    let hand = set(vec![(3, Spades), (3, Hearts), (3, Clubs), (3, Diamonds)]);
    let plays = plays_of(&hand, &vec![], &table(vec![], vec![]));
    assert_eq!(
        plays,
        vec![
            expect(PlayKind::Multiple, vec![(3, Hearts), (3, Clubs), (3, Diamonds)], vec![]),
            expect(PlayKind::Multiple, vec![(3, Spades), (3, Clubs), (3, Diamonds)], vec![]),
            expect(PlayKind::Multiple, vec![(3, Spades), (3, Hearts), (3, Diamonds)], vec![]),
            expect(PlayKind::Multiple, vec![(3, Spades), (3, Hearts), (3, Clubs)], vec![]),
            expect(
                PlayKind::Multiple,
                vec![(3, Spades), (3, Hearts), (3, Clubs), (3, Diamonds)],
                vec![],
            ),
        ]
    );
}

#[test]
fn single_card_needs_a_melded_rank() {
    let hand = set(vec![(8, Clubs)]);
    assert!(plays_of(&hand, &vec![], &table(vec![], vec![])).is_empty());
    let melded = table(vec![], vec![(8, Spades), (8, Hearts), (8, Diamonds)]);
    assert_eq!(
        plays_of(&hand, &vec![], &melded),
        vec![expect(PlayKind::Multiple, vec![(8, Clubs)], vec![])]
    );
    let melded_four = table(vec![], vec![(2, Spades), (2, Hearts), (2, Diamonds), (2, Clubs)]);
    let hand_two = set(vec![(8, Clubs), (8, Hearts)]);
    assert!(plays_of(&hand_two, &vec![], &melded_four).is_empty());
}

#[test]
fn queen_king_ace_is_high_and_ace_two_three_is_low() {
    let hand = set(vec![(11, Hearts), (12, Hearts), (0, Hearts)]);
    assert_eq!(
        plays_of(&hand, &vec![], &table(vec![], vec![])),
        vec![expect(
            run(Some(AceStatus::High)),
            vec![(0, Hearts), (11, Hearts), (12, Hearts)],
            vec![]
        )]
    );
    let hand = set(vec![(0, Clubs), (1, Clubs), (2, Clubs)]);
    assert_eq!(
        plays_of(&hand, &vec![], &table(vec![], vec![])),
        vec![expect(run(Some(AceStatus::Low)), vec![(0, Clubs), (1, Clubs), (2, Clubs)], vec![])]
    );
}

#[test]
fn king_ace_two_is_no_run() {
    let hand = set(vec![(12, Spades), (0, Spades), (1, Spades)]);
    let plays = plays_of(&hand, &vec![], &table(vec![], vec![]));
    assert!(plays.is_empty());
}

#[test]
fn ace_next_to_a_run_extends_alone() {
    // Two and Three of Diamonds melded: the Ace goes below, never with the King.
    let hand = set(vec![(0, Diamonds), (12, Diamonds)]);
    let melded = table(vec![(1, Diamonds), (2, Diamonds), (3, Diamonds)], vec![]);
    assert_eq!(
        plays_of(&hand, &vec![], &melded),
        vec![expect(run(Some(AceStatus::Low)), vec![(0, Diamonds)], vec![])]
    );
    // A Two next to a run starting at Three does take the Ace with it.
    let hand = set(vec![(0, Clubs), (1, Clubs)]);
    let melded = table(vec![(2, Clubs), (3, Clubs), (4, Clubs)], vec![]);
    assert_eq!(
        plays_of(&hand, &vec![], &melded),
        vec![
            expect(run(None), vec![(0, Clubs), (1, Clubs)], vec![]),
            expect(run(None), vec![(1, Clubs)], vec![]),
        ]
    );
}

#[test]
fn pickup_takes_the_card_and_all_above() {
    let hand = set(vec![(6, Hearts), (6, Spades)]);
    let pile = cards(vec![(6, Clubs), (9, Diamonds), (2, Hearts)]);
    let plays = plays_of(&hand, &pile, &table(vec![], vec![]));
    assert_eq!(
        plays,
        vec![expect(
            PlayKind::Multiple,
            vec![(6, Spades), (6, Hearts), (6, Clubs)],
            vec![(6, Clubs), (9, Diamonds), (2, Hearts)]
        )]
    );
}

#[test]
fn pickup_from_the_top_takes_one_card() {
    let hand = set(vec![(6, Hearts), (6, Spades)]);
    let pile = cards(vec![(9, Diamonds), (2, Hearts), (6, Clubs)]);
    let plays = plays_of(&hand, &pile, &table(vec![], vec![]));
    assert_eq!(
        plays,
        vec![expect(
            PlayKind::Multiple,
            vec![(6, Spades), (6, Hearts), (6, Clubs)],
            vec![(6, Clubs)]
        )]
    );
}

#[test]
fn same_inputs_same_plays_and_inputs_unchanged() {
    let hand = set(vec![(4, Spades), (5, Spades), (6, Spades), (4, Hearts), (4, Clubs)]);
    let pile = cards(vec![(4, Diamonds), (7, Spades)]);
    let played = table(vec![(8, Spades), (9, Spades), (10, Spades)], vec![]);
    let first = plays_of(&hand, &pile, &played);
    let second = plays_of(&hand, &pile, &played);
    assert_eq!(first, second);
    assert!(!first.is_empty());
    assert_eq!(hand.as_ordered_list().len(), 5);
    assert_eq!(pile, cards(vec![(4, Diamonds), (7, Spades)]));
    assert_eq!(played.straight_flush_played.as_ordered_list().len(), 3);
}

#[test]
fn no_cards_no_plays() {
    assert!(plays_of(&CardSet::new(), &vec![], &table(vec![], vec![])).is_empty());
}

#[test]
fn full_suit_runs_stop_at_thirteen_cards() {
    let hand = set((0..13).map(|i| (i, Hearts)).collect());
    let plays = plays_of(&hand, &vec![], &table(vec![], vec![]));
    assert!(plays.iter().all(|p| p.1.len() <= 13));
    let longest: Vec<&Described> = plays.iter().filter(|p| p.1.len() == 13).collect();
    // From the low Ace up to the King, and from the Two up to the high Ace.
    assert_eq!(longest.len(), 2);
    assert_eq!(longest[0].0, run(Some(AceStatus::Low)));
    assert_eq!(longest[1].0, run(Some(AceStatus::High)));
}
