use vstd::prelude::*;
use vstd::std_specs::iter::IteratorSpec;

verus! {

pub const NUM_CARD_VALUES: usize = 13;

pub const NUM_SUITS: usize = 4;

pub const NUM_POSSIBLE_CARDS: usize = NUM_CARD_VALUES * NUM_SUITS;

#[derive(Clone, Copy, Debug, PartialEq, Eq, Structural)]
pub enum CardValue {
    King,
    Queen,
    Jack,
    Ten,
    Nine,
    Eight,
    Seven,
    Six,
    Five,
    Four,
    Three,
    Two,
    Ace,
}

impl CardValue {
    /// Rank order with the Ace lowest: Ace is 0, King is 12.
    pub open spec fn spec_index(&self) -> usize {
        match self {
            CardValue::Ace => 0,
            CardValue::Two => 1,
            CardValue::Three => 2,
            CardValue::Four => 3,
            CardValue::Five => 4,
            CardValue::Six => 5,
            CardValue::Seven => 6,
            CardValue::Eight => 7,
            CardValue::Nine => 8,
            CardValue::Ten => 9,
            CardValue::Jack => 10,
            CardValue::Queen => 11,
            CardValue::King => 12,
        }
    }

    pub open spec fn spec_from_index(i: int) -> CardValue {
        if i == 0 {
            CardValue::Ace
        } else if i == 1 {
            CardValue::Two
        } else if i == 2 {
            CardValue::Three
        } else if i == 3 {
            CardValue::Four
        } else if i == 4 {
            CardValue::Five
        } else if i == 5 {
            CardValue::Six
        } else if i == 6 {
            CardValue::Seven
        } else if i == 7 {
            CardValue::Eight
        } else if i == 8 {
            CardValue::Nine
        } else if i == 9 {
            CardValue::Ten
        } else if i == 10 {
            CardValue::Jack
        } else if i == 11 {
            CardValue::Queen
        } else {
            CardValue::King
        }
    }

    #[verifier::when_used_as_spec(spec_index)]
    pub fn index(&self) -> (r: usize)
        ensures
            r == self.spec_index(),
            r < NUM_CARD_VALUES,
    {
        match self {
            CardValue::Ace => 0,
            CardValue::Two => 1,
            CardValue::Three => 2,
            CardValue::Four => 3,
            CardValue::Five => 4,
            CardValue::Six => 5,
            CardValue::Seven => 6,
            CardValue::Eight => 7,
            CardValue::Nine => 8,
            CardValue::Ten => 9,
            CardValue::Jack => 10,
            CardValue::Queen => 11,
            CardValue::King => 12,
        }
    }

    pub fn from_index(i: usize) -> (r: CardValue)
        requires
            i < NUM_CARD_VALUES,
        ensures
            r.index() == i,
            r == CardValue::spec_from_index(i as int),
    {
        match i {
            0 => CardValue::Ace,
            1 => CardValue::Two,
            2 => CardValue::Three,
            3 => CardValue::Four,
            4 => CardValue::Five,
            5 => CardValue::Six,
            6 => CardValue::Seven,
            7 => CardValue::Eight,
            8 => CardValue::Nine,
            9 => CardValue::Ten,
            10 => CardValue::Jack,
            11 => CardValue::Queen,
            _ => CardValue::King,
        }
    }

    /// The rank above, with the King followed by the Ace.
    pub open spec fn spec_next(&self) -> CardValue {
        CardValue::spec_from_index((self.index() + 1) % 13)
    }

    /// The rank below, with the Ace preceded by the King.
    pub open spec fn spec_prev(&self) -> CardValue {
        CardValue::spec_from_index((self.index() + 12) % 13)
    }

    #[verifier::when_used_as_spec(spec_next)]
    pub fn next(&self) -> (r: CardValue)
        ensures
            r == self.spec_next(),
            r.index() == (self.index() + 1) % 13,
    {
        if let CardValue::King = self {
            CardValue::Ace
        } else {
            let index = self.index();
            CardValue::from_index(index + 1)
        }
    }

    #[verifier::when_used_as_spec(spec_prev)]
    pub fn prev(&self) -> (r: CardValue)
        ensures
            r == self.spec_prev(),
            r.index() == (self.index() + 12) % 13,
    {
        if let CardValue::Ace = self {
            CardValue::King
        } else {
            let index = self.index();
            CardValue::from_index(index - 1)
        }
    }

    /// All thirteen ranks, Ace first and King last.
    pub open spec fn all() -> Seq<CardValue> {
        Seq::new(13, |i: int| CardValue::spec_from_index(i))
    }

    pub fn iter() -> (r: std::vec::IntoIter<CardValue>)
        ensures
            r.remaining() == CardValue::all(),
    {
        let mut v: Vec<CardValue> = Vec::new();
        for i in 0..NUM_CARD_VALUES
            invariant
                v@ == CardValue::all().take(i as int),
        {
            v.push(Self::from_index(i));
            assert(v@ =~= CardValue::all().take(i + 1));
        }
        assert(v@ =~= CardValue::all());
        v.into_iter()
    }
}

#[derive(Clone, Copy, Debug, PartialEq, Eq, Structural)]
pub enum CardSuit {
    Spades,
    Hearts,
    Clubs,
    Diamonds,
}

impl CardSuit {
    pub open spec fn spec_index(&self) -> usize {
        match self {
            CardSuit::Spades => 0,
            CardSuit::Hearts => 1,
            CardSuit::Clubs => 2,
            CardSuit::Diamonds => 3,
        }
    }

    pub open spec fn spec_from_index(i: int) -> CardSuit {
        if i == 0 {
            CardSuit::Spades
        } else if i == 1 {
            CardSuit::Hearts
        } else if i == 2 {
            CardSuit::Clubs
        } else {
            CardSuit::Diamonds
        }
    }

    #[verifier::when_used_as_spec(spec_index)]
    pub fn index(&self) -> (r: usize)
        ensures
            r == self.spec_index(),
            r < NUM_SUITS,
    {
        match self {
            CardSuit::Spades => 0,
            CardSuit::Hearts => 1,
            CardSuit::Clubs => 2,
            CardSuit::Diamonds => 3,
        }
    }

    pub fn from_index(i: usize) -> (r: CardSuit)
        requires
            i < NUM_SUITS,
        ensures
            r.index() == i,
            r == CardSuit::spec_from_index(i as int),
    {
        match i {
            0 => CardSuit::Spades,
            1 => CardSuit::Hearts,
            2 => CardSuit::Clubs,
            _ => CardSuit::Diamonds,
        }
    }

    /// All four suits in their fixed order.
    pub open spec fn all() -> Seq<CardSuit> {
        Seq::new(4, |i: int| CardSuit::spec_from_index(i))
    }

    pub fn iter() -> (r: std::vec::IntoIter<CardSuit>)
        ensures
            r.remaining() == CardSuit::all(),
    {
        let mut v: Vec<CardSuit> = Vec::new();
        for i in 0..NUM_SUITS
            invariant
                v@ == CardSuit::all().take(i as int),
        {
            v.push(Self::from_index(i));
            assert(v@ =~= CardSuit::all().take(i + 1));
        }
        assert(v@ =~= CardSuit::all());
        v.into_iter()
    }
}

#[derive(Clone, Copy, Debug, PartialEq, Eq, Structural)]
pub struct Card {
    pub suit: CardSuit,
    pub value: CardValue,
}

/// The short label of a rank: "A", "2" to "10", "J", "Q", "K".
pub open spec fn value_label(v: CardValue) -> Seq<char> {
    match v {
        CardValue::Ace => seq!['A'],
        CardValue::Two => seq!['2'],
        CardValue::Three => seq!['3'],
        CardValue::Four => seq!['4'],
        CardValue::Five => seq!['5'],
        CardValue::Six => seq!['6'],
        CardValue::Seven => seq!['7'],
        CardValue::Eight => seq!['8'],
        CardValue::Nine => seq!['9'],
        CardValue::Ten => seq!['1', '0'],
        CardValue::Jack => seq!['J'],
        CardValue::Queen => seq!['Q'],
        CardValue::King => seq!['K'],
    }
}

/// The one-letter label of a suit.
pub open spec fn suit_label(s: CardSuit) -> Seq<char> {
    match s {
        CardSuit::Spades => seq!['S'],
        CardSuit::Hearts => seq!['H'],
        CardSuit::Clubs => seq!['C'],
        CardSuit::Diamonds => seq!['D'],
    }
}

impl Card {
    /// Position of the card in the canonical order: by suit, then by rank.
    pub open spec fn position(&self) -> int {
        self.suit.index() * 13 + self.value.index()
    }

    pub fn to_string(&self) -> (r: String)
        ensures
            r@ == value_label(self.value) + seq![':'] + suit_label(self.suit),
    {
        let suit_str = match self.suit {
            CardSuit::Spades => "S",
            CardSuit::Hearts => "H",
            CardSuit::Clubs => "C",
            CardSuit::Diamonds => "D",
        };
        let value_str = match self.value {
            CardValue::Ace => "A",
            CardValue::Two => "2",
            CardValue::Three => "3",
            CardValue::Four => "4",
            CardValue::Five => "5",
            CardValue::Six => "6",
            CardValue::Seven => "7",
            CardValue::Eight => "8",
            CardValue::Nine => "9",
            CardValue::Ten => "10",
            CardValue::Jack => "J",
            CardValue::Queen => "Q",
            CardValue::King => "K",
        };
        proof {
            reveal_strlit("S");
            reveal_strlit("H");
            reveal_strlit("C");
            reveal_strlit("D");
            reveal_strlit("A");
            reveal_strlit("2");
            reveal_strlit("3");
            reveal_strlit("4");
            reveal_strlit("5");
            reveal_strlit("6");
            reveal_strlit("7");
            reveal_strlit("8");
            reveal_strlit("9");
            reveal_strlit("10");
            reveal_strlit("J");
            reveal_strlit("Q");
            reveal_strlit("K");
            reveal_strlit(":");
        }
        let mut r = value_str.to_owned();
        r.append(":");
        r.append(suit_str);
        r
    }
}


/// A set of cards, held as a table with one slot per suit and rank.
#[derive(Clone, Copy)]
pub struct CardSet {
    map: [[bool; NUM_CARD_VALUES]; NUM_SUITS],
}

impl View for CardSet {
    type V = Set<Card>;

    closed spec fn view(&self) -> Set<Card> {
        Set::new(|c: Card| self.map[c.suit.index() as int][c.value.index() as int])
    }
}

/// Two cards with the same position are the same card.
pub proof fn lemma_position_injective(a: Card, b: Card)
    ensures
        0 <= a.position() < 52,
        a.position() == b.position() <==> a == b,
{
}

impl CardSet {
    pub fn as_ordered_list(&self) -> (r: Vec<Card>)
        ensures
            forall|i: int, j: int| 0 <= i < j < r@.len() ==> r@[i].position() < r@[j].position(),
            forall|c: Card| self@.contains(c) <==> r@.contains(c),
    {
        let mut v: Vec<Card> = Vec::new();
        for suit in 0..NUM_SUITS
            invariant
                forall|i: int, j: int| 0 <= i < j < v@.len() ==> v@[i].position() < v@[j].position(),
                forall|i: int| 0 <= i < v@.len() ==> v@[i].position() < suit * 13,
                forall|c: Card| (self@.contains(c) && c.position() < suit * 13) <==> v@.contains(c),
        {
            for value in 0..NUM_CARD_VALUES
                invariant
                    suit < NUM_SUITS,
                    forall|i: int, j: int| 0 <= i < j < v@.len() ==> v@[i].position() < v@[j].position(),
                    forall|i: int| 0 <= i < v@.len() ==> v@[i].position() < suit * 13 + value,
                    forall|c: Card|
                        (self@.contains(c) && c.position() < suit * 13 + value) <==> v@.contains(c),
            {
                if self.map[suit][value] {
                    let c = Card { suit: CardSuit::from_index(suit), value: CardValue::from_index(value) };
                    let ghost old_v = v@;
                    v.push(c);
                    assert forall|d: Card|
                        (self@.contains(d) && d.position() < suit * 13 + value + 1) <==> v@.contains(d) by {
                        if v@.contains(d) && d != c {
                            let k = choose|k: int| 0 <= k < v@.len() && v@[k] == d;
                            assert(old_v[k] == d);
                        }
                        if d == c {
                            assert(v@[v@.len() - 1] == d);
                        } else if self@.contains(d) && d.position() < suit * 13 + value + 1 {
                            assert(old_v.contains(d));
                            let k = choose|k: int| 0 <= k < old_v.len() && old_v[k] == d;
                            assert(v@[k] == d);
                        }
                    }
                } else {
                    assert forall|d: Card|
                        (self@.contains(d) && d.position() < suit * 13 + value + 1) <==> v@.contains(d) by {
                        if d.position() == suit * 13 + value {
                            assert(d.suit.index() == suit && d.value.index() == value);
                        }
                    }
                }
            }
        }
        v
    }

    pub fn new() -> (r: CardSet)
        ensures
            r@ == Set::<Card>::empty(),
    {
        let map = [[false; NUM_CARD_VALUES]; NUM_SUITS];
        let r = CardSet { map };
        assert(r@ =~= Set::<Card>::empty());
        r
    }

    fn set_value(&mut self, card: &Card, b: bool) -> (r: Result<(), ()>)
        ensures
            r is Err <==> old(self)@.contains(*card) == b,
            r is Err ==> final(self)@ == old(self)@,
            r is Ok && b ==> final(self)@ == old(self)@.insert(*card),
            r is Ok && !b ==> final(self)@ == old(self)@.remove(*card),
    {
        let suit_index = card.suit.index();
        let value_index = card.value.index();
        let old_value = self.map[suit_index][value_index];
        if old_value == b {
            Err(())
        } else {
            self.map[suit_index][value_index] = b;
            proof {
                assert forall|c: Card| c != *card implies
                    self.map[c.suit.index() as int][c.value.index() as int]
                        == old(self).map[c.suit.index() as int][c.value.index() as int] by {
                    lemma_position_injective(c, *card);
                }
                if b {
                    assert(self@ =~= old(self)@.insert(*card));
                } else {
                    assert(self@ =~= old(self)@.remove(*card));
                }
            }
            Ok(())
        }
    }

    /// Adds a card that the set does not hold yet.
    pub fn add(&mut self, card: &Card)
        requires
            !old(self)@.contains(*card),
        ensures
            final(self)@ == old(self)@.insert(*card),
    {
        let result = self.set_value(card, true);
    }

    /// Removes a card that the set holds.
    pub fn remove(&mut self, card: &Card)
        requires
            old(self)@.contains(*card),
        ensures
            final(self)@ == old(self)@.remove(*card),
    {
        let result = self.set_value(card, false);
    }

    pub fn contains(&self, card: &Card) -> (r: bool)
        ensures
            r == self@.contains(*card),
    {
        let suit_index = card.suit.index();
        let value_index = card.value.index();
        self.map[suit_index][value_index]
    }

    /// The backing table: row by suit index, column by rank index.
    pub fn inner_map(&self) -> (r: &[[bool; NUM_CARD_VALUES]; NUM_SUITS])
        ensures
            forall|s: int, v: int| 0 <= s < 4 && 0 <= v < 13 ==> r[s][v] == self@.contains(
                Card { suit: CardSuit::spec_from_index(s), value: CardValue::spec_from_index(v) },
            ),
    {
        &self.map
    }

    /// Builds a set from a list without repeated cards.
    pub fn from_vec(v: &Vec<Card>) -> (r: CardSet)
        requires
            v@.no_duplicates(),
        ensures
            r@ == v@.to_set(),
    {
        let mut card_set = CardSet::new();
        for i in 0..v.len()
            invariant
                v@.no_duplicates(),
                card_set@ == v@.take(i as int).to_set(),
        {
            let card = &v[i];
            assert(!v@.take(i as int).contains(*card)) by {
                if v@.take(i as int).contains(*card) {
                    let k = choose|k: int| 0 <= k < i && v@.take(i as int)[k] == *card;
                    assert(v@[k] == v@[i as int]);
                }
            }
            assert(!card_set@.contains(*card));
            card_set.add(card);
            let ghost prefix = v@.take(i + 1);
            assert(prefix == v@.take(i as int).push(*card));
            assert forall|x: Card| prefix.contains(x) <==> (v@.take(i as int).contains(x) || x == *card) by {
                if prefix.contains(x) && x != *card {
                    let k = choose|k: int| 0 <= k < prefix.len() && prefix[k] == x;
                    assert(v@.take(i as int)[k] == x);
                }
                if x == *card {
                    assert(prefix[i as int] == x);
                }
                if v@.take(i as int).contains(x) {
                    let k = choose|k: int| 0 <= k < i && v@.take(i as int)[k] == x;
                    assert(prefix[k] == x);
                }
            }
            assert(card_set@ =~= v@.take(i + 1).to_set());
        }
        assert(v@.take(v@.len() as int) == v@);
        card_set
    }
}

} // verus!
