use rummy_sim::card::{Card, CardSet, CardSuit, CardValue, NUM_CARD_VALUES, NUM_SUITS};

fn card(value_index: usize, suit: CardSuit) -> Card {
    Card { value: CardValue::from_index(value_index), suit }
}

#[test]
fn value_index_round_trip() {
    for i in 0..NUM_CARD_VALUES {
        assert_eq!(CardValue::from_index(i).index(), i);
    }
    assert_eq!(CardValue::Ace.index(), 0);
    assert_eq!(CardValue::Two.index(), 1);
    assert_eq!(CardValue::King.index(), 12);
    assert_eq!(CardValue::from_index(10), CardValue::Jack);
}

#[test]
fn value_next_and_prev_wrap_around() {
    assert_eq!(CardValue::King.next(), CardValue::Ace);
    assert_eq!(CardValue::Ace.prev(), CardValue::King);
    assert_eq!(CardValue::Ace.next(), CardValue::Two);
    assert_eq!(CardValue::Two.prev(), CardValue::Ace);
    assert_eq!(CardValue::Nine.next(), CardValue::Ten);
    assert_eq!(CardValue::Queen.prev(), CardValue::Jack);
}

#[test]
fn value_iter_goes_from_ace_to_king() {
    let all: Vec<CardValue> = CardValue::iter().collect();
    assert_eq!(all.len(), 13);
    assert_eq!(all[0], CardValue::Ace);
    assert_eq!(all[1], CardValue::Two);
    assert_eq!(all[12], CardValue::King);
}

#[test]
fn suit_index_and_iter() {
    for i in 0..NUM_SUITS {
        assert_eq!(CardSuit::from_index(i).index(), i);
    }
    let all: Vec<CardSuit> = CardSuit::iter().collect();
    assert_eq!(all, vec![CardSuit::Spades, CardSuit::Hearts, CardSuit::Clubs, CardSuit::Diamonds]);
}

#[test]
fn card_labels() {
    assert_eq!(card(0, CardSuit::Spades).to_string(), "A:S");
    assert_eq!(card(9, CardSuit::Hearts).to_string(), "10:H");
    assert_eq!(card(10, CardSuit::Clubs).to_string(), "J:C");
    assert_eq!(card(12, CardSuit::Diamonds).to_string(), "K:D");
    assert_eq!(card(1, CardSuit::Diamonds).to_string(), "2:D");
}

#[test]
fn card_set_add_remove_contains() {
    let mut s = CardSet::new();
    let c = card(4, CardSuit::Hearts);
    let d = card(4, CardSuit::Clubs);
    assert!(!s.contains(&c));
    s.add(&c);
    assert!(s.contains(&c));
    assert!(!s.contains(&d));
    s.add(&d);
    s.remove(&c);
    assert!(!s.contains(&c));
    assert!(s.contains(&d));
}

#[test]
fn card_set_ordered_list_is_by_suit_then_rank() {
    let s = CardSet::from_vec(&vec![
        card(12, CardSuit::Diamonds),
        card(3, CardSuit::Spades),
        card(0, CardSuit::Hearts),
        card(0, CardSuit::Spades),
    ]);
    let list = s.as_ordered_list();
    assert_eq!(
        list,
        vec![
            card(0, CardSuit::Spades),
            card(3, CardSuit::Spades),
            card(0, CardSuit::Hearts),
            card(12, CardSuit::Diamonds),
        ]
    );
    assert!(CardSet::new().as_ordered_list().is_empty());
}

#[test]
fn card_set_inner_map_rows_by_suit() {
    let s = CardSet::from_vec(&vec![card(5, CardSuit::Clubs), card(12, CardSuit::Spades)]);
    let map = s.inner_map();
    assert!(map[2][5]);
    assert!(map[0][12]);
    assert!(!map[1][5]);
    let count = map.iter().map(|row| row.iter().filter(|b| **b).count()).sum::<usize>();
    assert_eq!(count, 2);
}
