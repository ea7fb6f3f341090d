use vstd::prelude::*;
use crate::card::{Card, CardSet, CardSuit, CardValue, NUM_CARD_VALUES, NUM_SUITS};

verus! {

const HIGH_ACE_INDEX: usize = 13;

const LOW_ACE_INDEX: usize = 0;

pub struct Play {
    pub kind: PlayKind,
    pub cards_used: CardSet,
    /// Cards that the player takes on along with this play, because it uses a
    /// card below the top of the discard pile.
    pub cards_acquired: CardSet,
}

#[derive(Clone, Copy, Debug, PartialEq, Eq, Structural)]
pub enum PlayKind {
    StraightFlush { ace_status: Option<AceStatus> },
    Multiple,
}

#[derive(Clone, Copy, Debug, PartialEq, Eq, Structural)]
pub enum AceStatus {
    High,
    Low,
}

pub struct PlayedCards {
    pub straight_flush_played: CardSet,
    pub multiple_played: CardSet,
}

pub struct PlayMetadata {
    pub player_index: usize,
}

/// What a play is made of: its kind, the cards it uses, the cards it picks up.
pub type PlayModel = (PlayKind, Set<Card>, Set<Card>);

impl View for Play {
    type V = PlayModel;

    open spec fn view(&self) -> PlayModel {
        (self.kind, self.cards_used@, self.cards_acquired@)
    }
}

/// The card of suit index `s` and rank index `v`.
pub open spec fn card_at(s: int, v: int) -> Card {
    Card { suit: CardSuit::spec_from_index(s), value: CardValue::spec_from_index(v) }
}

pub proof fn lemma_card_at(c: Card, s: int, v: int)
    ensures
        card_at(c.suit.index() as int, c.value.index() as int) == c,
        0 <= s < 4 && 0 <= v < 13 ==> card_at(s, v).suit.index() == s && card_at(s, v).value.index()
            == v,
{
}

/// The pickup rule. The discard pile is stored bottom first, top last; a play
/// that uses a pile card takes that card and every card stacked above it.
pub open spec fn pickup(used: Set<Card>, pile: Seq<Card>) -> Set<Card> {
    Set::new(
        |c: Card|
            exists|i: int, j: int|
                0 <= i <= j < pile.len() && #[trigger] used.contains(pile[i]) && #[trigger] pile[j] == c,
    )
}

/// Every card of the hand and of the discard pile.
pub open spec fn playable(hand: Set<Card>, pile: Seq<Card>) -> Set<Card> {
    hand.union(pile.to_set())
}

/// A planned play: its kind and the cards it uses.
pub type PlanStep = (PlayKind, Set<Card>);

/// The plays in `plays` are, one for one, the planned ones, each with the
/// cards that the pickup rule gives it.
pub open spec fn realizes(plays: Seq<Play>, plan: Seq<PlanStep>, pile: Seq<Card>) -> bool {
    &&& plays.len() == plan.len()
    &&& forall|i: int|
        0 <= i < plays.len() ==> #[trigger] plays[i]@ == (plan[i].0, plan[i].1, pickup(plan[i].1, pile))
}

pub proof fn lemma_realizes_push(
    plays: Seq<Play>,
    plan: Seq<PlanStep>,
    pile: Seq<Card>,
    play: Play,
    step: PlanStep,
)
    requires
        realizes(plays, plan, pile),
        play@ == (step.0, step.1, pickup(step.1, pile)),
    ensures
        realizes(plays.push(play), plan.push(step), pile),
{
    assert forall|i: int| 0 <= i < plays.len() + 1 implies #[trigger] plays.push(play)[i]@ == (
        plan.push(step)[i].0,
        plan.push(step)[i].1,
        pickup(plan.push(step)[i].1, pile),
    ) by {
        if i < plays.len() {
            assert(plays.push(play)[i] == plays[i]);
            assert(plan.push(step)[i] == plan[i]);
        }
    }
}

// ---------------------------------------------------------------------------
// Multiples of a kind

/// How many of the first `n` suits hold the card of rank index `v` in `s`.
pub open spec fn suit_count_upto(s: Set<Card>, v: int, n: int) -> int
    decreases n,
{
    if n <= 0 {
        0
    } else {
        suit_count_upto(s, v, n - 1) + if s.contains(card_at(n - 1, v)) {
            1int
        } else {
            0int
        }
    }
}

/// How many suits of rank index `v` are in `s`.
pub open spec fn suit_count(s: Set<Card>, v: int) -> int {
    suit_count_upto(s, v, 4)
}

/// The cards of rank index `v` in `s`.
pub open spec fn rank_cards(s: Set<Card>, v: int) -> Set<Card> {
    s.filter(|c: Card| c.value.index() == v)
}

/// Every rank is melded as a multiple in none, three or four suits.
pub open spec fn valid_multiples(m: Set<Card>) -> bool {
    forall|v: int| 0 <= v < 13 ==> #[trigger] suit_count(m, v) == 0 || suit_count(m, v) == 3
        || suit_count(m, v) == 4
}

/// The multiple plays of rank index `v`, given the playable cards `p` and the
/// cards `m` melded as multiples.
pub open spec fn multiple_plan_for_rank(p: Set<Card>, m: Set<Card>, v: int) -> Seq<PlanStep> {
    let n = suit_count(p, v);
    let cards = rank_cards(p, v);
    if n == 1 {
        if suit_count(m, v) >= 3 {
            seq![(PlayKind::Multiple, cards)]
        } else {
            seq![]
        }
    } else if n == 3 {
        seq![(PlayKind::Multiple, cards)]
    } else if n == 4 {
        seq![
            (PlayKind::Multiple, cards.remove(card_at(0, v))),
            (PlayKind::Multiple, cards.remove(card_at(1, v))),
            (PlayKind::Multiple, cards.remove(card_at(2, v))),
            (PlayKind::Multiple, cards.remove(card_at(3, v))),
            (PlayKind::Multiple, cards),
        ]
    } else {
        seq![]
    }
}

/// The multiple plays of the first `n` ranks, rank by rank.
pub open spec fn multiples_plan(p: Set<Card>, m: Set<Card>, n: int) -> Seq<PlanStep>
    decreases n,
{
    if n <= 0 {
        seq![]
    } else {
        multiples_plan(p, m, n - 1) + multiple_plan_for_rank(p, m, n - 1)
    }
}

// ---------------------------------------------------------------------------
// Extensions of runs already on the table

/// The card of the same suit one rank up, the King followed by the Ace.
pub open spec fn next_card(c: Card) -> Card {
    Card { suit: c.suit, value: c.value.spec_next() }
}

/// The card of the same suit one rank down, the Ace preceded by the King.
pub open spec fn prev_card(c: Card) -> Card {
    Card { suit: c.suit, value: c.value.spec_prev() }
}

/// The plays that put `c` next to a melded run: `c` alone, and, where `c` is
/// not an Ace, `c` with the card `further` beyond it if that is playable.
pub open spec fn extension_pieces(p: Set<Card>, c: Card, further: Card, status: AceStatus) -> Seq<
    PlanStep,
> {
    let is_ace = c.value == CardValue::Ace;
    let kind = PlayKind::StraightFlush { ace_status: if is_ace { Some(status) } else { None } };
    if !is_ace && p.contains(further) {
        seq![(kind, set![c, further]), (kind, set![c])]
    } else {
        seq![(kind, set![c])]
    }
}

/// The extension plays of card `c`: below a run whose lowest card is one rank
/// up, else above a run whose highest card is one rank down.
pub open spec fn extension_plan_for_card(p: Set<Card>, sf: Set<Card>, c: Card) -> Seq<PlanStep> {
    if !p.contains(c) {
        seq![]
    } else if sf.contains(next_card(c)) {
        extension_pieces(p, c, prev_card(c), AceStatus::Low)
    } else if sf.contains(prev_card(c)) {
        extension_pieces(p, c, next_card(c), AceStatus::High)
    } else {
        seq![]
    }
}

/// The extension plays of the first `n` ranks of suit index `s`.
pub open spec fn extension_plan_suit(p: Set<Card>, sf: Set<Card>, s: int, n: int) -> Seq<PlanStep>
    decreases n,
{
    if n <= 0 {
        seq![]
    } else {
        extension_plan_suit(p, sf, s, n - 1) + extension_plan_for_card(p, sf, card_at(s, n - 1))
    }
}

/// The extension plays of the first `n` suits, suit by suit.
pub open spec fn extensions_plan(p: Set<Card>, sf: Set<Card>, n: int) -> Seq<PlanStep>
    decreases n,
{
    if n <= 0 {
        seq![]
    } else {
        extensions_plan(p, sf, n - 1) + extension_plan_suit(p, sf, n - 1, 13)
    }
}

// ---------------------------------------------------------------------------
// New runs
//
// Along each suit the ranks stand on a line of fourteen places: 0 to 12 are
// Ace (low) to King, and place 13 is the Ace again, above the King.

/// The rank index that place `i` stands for.
pub open spec fn spec_mod_index(i: int) -> int {
    if i == 13 {
        0
    } else {
        i
    }
}

/// Place `i` of suit index `s` exists and its card is in `p`.
pub open spec fn has_place(p: Set<Card>, s: int, i: int) -> bool {
    0 <= i <= 13 && p.contains(card_at(s, spec_mod_index(i)))
}

/// Rank index `v` stands at one of the `k` places from place `i` on.
pub open spec fn in_run(i: int, k: int, v: int) -> bool {
    (i <= v < i + k) || (v == 0 && i <= 13 < i + k)
}

/// The cards of the `k` places of suit index `s` from place `i` on.
pub open spec fn run_cards(s: int, i: int, k: int) -> Set<Card> {
    Set::new(|c: Card| c.suit.index() == s && in_run(i, k, c.value.index() as int))
}

/// Where the Ace stands in the `k` places from place `i` on.
pub open spec fn run_status(i: int, k: int) -> Option<AceStatus> {
    if i == 0 && k > 0 {
        Some(AceStatus::Low)
    } else if i + k > 13 {
        Some(AceStatus::High)
    } else {
        None
    }
}

/// The run play of the `k` places of suit index `s` from place `i` on.
pub open spec fn run_step(s: int, i: int, k: int) -> PlanStep {
    (PlayKind::StraightFlush { ace_status: run_status(i, k) }, run_cards(s, i, k))
}

/// The length of the longest run from place `i` on that extends one of length
/// `k`: each further place is taken while its card is playable, up to thirteen
/// cards.
pub open spec fn run_end(p: Set<Card>, s: int, i: int, k: int) -> int
    decreases 13 - k,
{
    if k < 13 && has_place(p, s, i + k) {
        run_end(p, s, i, k + 1)
    } else {
        k
    }
}

/// The run plays from place `i` of every length from 3 up to `k` excluded.
pub open spec fn runs_upto(s: int, i: int, k: int) -> Seq<PlanStep>
    decreases k,
{
    if k <= 3 {
        seq![]
    } else {
        runs_upto(s, i, k - 1).push(run_step(s, i, k - 1))
    }
}

/// The new runs that start at place `i` of suit index `s`: none unless its
/// first three places are playable, else one of each length up to the longest.
pub open spec fn run_plan_at(p: Set<Card>, s: int, i: int) -> Seq<PlanStep> {
    if has_place(p, s, i) && has_place(p, s, i + 1) && has_place(p, s, i + 2) {
        runs_upto(s, i, run_end(p, s, i, 3) + 1)
    } else {
        seq![]
    }
}

/// The new runs that start at the first `n` places of suit index `s`.
pub open spec fn run_plan_suit(p: Set<Card>, s: int, n: int) -> Seq<PlanStep>
    decreases n,
{
    if n <= 0 {
        seq![]
    } else {
        run_plan_suit(p, s, n - 1) + run_plan_at(p, s, n - 1)
    }
}

/// The new runs of the first `n` suits, suit by suit.
pub open spec fn runs_plan(p: Set<Card>, n: int) -> Seq<PlanStep>
    decreases n,
{
    if n <= 0 {
        seq![]
    } else {
        runs_plan(p, n - 1) + run_plan_suit(p, n - 1, 13)
    }
}

/// Every play that can be made with the playable cards `p`, given the cards
/// `sf` melded as runs and `m` melded as multiples: first the multiples, rank
/// by rank; then the extensions of melded runs; then the new runs.
pub open spec fn plays_plan(p: Set<Card>, sf: Set<Card>, m: Set<Card>) -> Seq<PlanStep> {
    multiples_plan(p, m, 13) + extensions_plan(p, sf, 4) + runs_plan(p, 4)
}

// ---------------------------------------------------------------------------
// Executable part

impl Play {
    fn make(cards_used: CardSet, kind: PlayKind, discard_pile: &Vec<Card>) -> (r: Play)
        requires
            discard_pile@.no_duplicates(),
        ensures
            r@ == (kind, cards_used@, pickup(cards_used@, discard_pile@)),
    {
        let mut cards_acquired = CardSet::new();
        let ghost pile = discard_pile@;
        let ghost used = cards_used@;

        let mut in_adding_mode = false;
        for n in 0..discard_pile.len()
            invariant
                pile == discard_pile@,
                used == cards_used@,
                pile.no_duplicates(),
                in_adding_mode == exists|i: int| 0 <= i < n && #[trigger] used.contains(pile[i]),
                cards_acquired@ == pickup(used, pile.take(n as int)),
        {
            let discarded_card = &discard_pile[n];
            if !in_adding_mode && cards_used.contains(discarded_card) {
                in_adding_mode = true;
            }
            let ghost before = pickup(used, pile.take(n as int));
            proof {
                let pre = pile.take(n as int);
                assert forall|c: Card| before.contains(c) implies exists|j: int| 0 <= j < n && pile[j] == c by {
                    let (i, j) = choose|i: int, j: int| #![auto]
                        0 <= i <= j < pre.len() && used.contains(pre[i]) && pre[j] == c;
                    assert(pile[j] == c);
                }
                assert(!before.contains(pile[n as int])) by {
                    if before.contains(pile[n as int]) {
                        let j = choose|j: int| 0 <= j < n && pile[j] == pile[n as int];
                    }
                }
            }
            if in_adding_mode {
                cards_acquired.add(discarded_card);
            }
            proof {
                let pre = pile.take(n as int);
                let post = pile.take(n + 1);
                let after = pickup(used, post);
                assert forall|c: Card| after.contains(c) <==> (before.contains(c) || (in_adding_mode && c == pile[n as int])) by {
                    if after.contains(c) {
                        let (i, j) = choose|i: int, j: int| #![auto]
                            0 <= i <= j < post.len() && used.contains(post[i]) && post[j] == c;
                        if j < n {
                            assert(pre[i] == pile[i]);
                            assert(pre[j] == pile[j]);
                        } else {
                            assert(used.contains(pile[i]));
                        }
                    }
                    if before.contains(c) {
                        let (i, j) = choose|i: int, j: int| #![auto]
                            0 <= i <= j < pre.len() && used.contains(pre[i]) && pre[j] == c;
                        assert(post[i] == pile[i]);
                        assert(post[j] == pile[j]);
                    }
                    if in_adding_mode && c == pile[n as int] {
                        let i = choose|i: int| 0 <= i < n + 1 && #[trigger] used.contains(pile[i]);
                        assert(post[i] == pile[i]);
                        assert(post[n as int] == pile[n as int]);
                    }
                }
                assert(cards_acquired@ =~= after);
            }
        }
        assert(pile.take(pile.len() as int) == pile);
        Play { cards_used, cards_acquired, kind }
    }
}


fn all_suits_with_value(s: &CardSet, value: CardValue) -> (r: Vec<CardSuit>)
    ensures
        r@.len() == suit_count(s@, value.index() as int),
        r@.len() <= 4,
        forall|i: int, j: int| 0 <= i < j < r@.len() ==> r@[i].index() < r@[j].index(),
        forall|su: CardSuit| r@.contains(su) <==> s@.contains(Card { value, suit: su }),
{
    let ghost v = value.index() as int;
    let mut found_suits: Vec<CardSuit> = Vec::new();
    for i in 0..NUM_SUITS
        invariant
            v == value.index(),
            found_suits@.len() == suit_count_upto(s@, v, i as int),
            found_suits@.len() <= i,
            forall|a: int| 0 <= a < found_suits@.len() ==> found_suits@[a].index() < i,
            forall|a: int, b: int|
                0 <= a < b < found_suits@.len() ==> found_suits@[a].index() < found_suits@[b].index(),
            forall|su: CardSuit|
                found_suits@.contains(su) <==> (su.index() < i && s@.contains(Card { value, suit: su })),
    {
        let suit = CardSuit::from_index(i);
        let card = Card { value, suit };
        proof {
            lemma_card_at(card, 0, 0);
        }
        let ghost before = found_suits@;
        if s.contains(&card) {
            found_suits.push(suit);
            assert forall|su: CardSuit|
                found_suits@.contains(su) <==> (su.index() < i + 1 && s@.contains(Card { value, suit: su })) by {
                if su.index() == i {
                    assert(su == suit);
                }
                if found_suits@.contains(su) && su != suit {
                    let k = choose|k: int| 0 <= k < found_suits@.len() && found_suits@[k] == su;
                    assert(k < before.len());
                    assert(before[k] == su);
                    assert(before.contains(su));
                }
                if su == suit {
                    assert(found_suits@[found_suits@.len() - 1] == su);
                } else if su.index() < i + 1 && s@.contains(Card { value, suit: su }) {
                    assert(before.contains(su));
                    let k = choose|k: int| 0 <= k < before.len() && before[k] == su;
                    assert(found_suits@[k] == su);
                }
            }
        } else {
            assert forall|su: CardSuit|
                found_suits@.contains(su) <==> (su.index() < i + 1 && s@.contains(Card { value, suit: su })) by {
                if su.index() == i {
                    assert(su == suit);
                }
            }
        }
    }
    found_suits
}

impl PlayedCards {
    fn value_was_played_as_multiple(&self, value: CardValue) -> (r: bool)
        requires
            valid_multiples(self.multiple_played@),
        ensures
            r == (suit_count(self.multiple_played@, value.index() as int) >= 3),
    {
        let ghost v = value.index() as int;
        let mut num_times: usize = 0;
        for i in 0..NUM_SUITS
            invariant
                v == value.index(),
                num_times == suit_count_upto(self.multiple_played@, v, i as int),
                num_times <= i,
        {
            let suit = CardSuit::from_index(i);
            let card = Card { value, suit };
            proof {
                lemma_card_at(card, 0, 0);
            }
            if self.multiple_played.contains(&card) {
                num_times += 1;
            }
        }
        assert(suit_count(self.multiple_played@, v) == num_times);
        num_times >= 3
    }
}

fn playable_cards(hand: &CardSet, discard_pile: &Vec<Card>) -> (r: CardSet)
    requires
        discard_pile@.no_duplicates(),
        forall|i: int| 0 <= i < discard_pile@.len() ==> !hand@.contains(#[trigger] discard_pile@[i]),
    ensures
        r@ == playable(hand@, discard_pile@),
{
    let mut s = *hand;
    let ghost pile = discard_pile@;
    for n in 0..discard_pile.len()
        invariant
            pile == discard_pile@,
            pile.no_duplicates(),
            forall|i: int| 0 <= i < pile.len() ==> !hand@.contains(#[trigger] pile[i]),
            s@ == hand@.union(pile.take(n as int).to_set()),
    {
        let card = &discard_pile[n];
        let ghost pre = pile.take(n as int);
        let ghost post = pile.take(n + 1);
        assert(!pre.contains(*card)) by {
            if pre.contains(*card) {
                let k = choose|k: int| 0 <= k < pre.len() && pre[k] == *card;
                assert(pile[k] == pile[n as int]);
            }
        }
        s.add(card);
        assert forall|x: Card| post.contains(x) <==> (pre.contains(x) || x == *card) by {
            if post.contains(x) && x != *card {
                let k = choose|k: int| 0 <= k < post.len() && post[k] == x;
                assert(pre[k] == x);
            }
            if x == *card {
                assert(post[n as int] == x);
            }
            if pre.contains(x) {
                let k = choose|k: int| 0 <= k < pre.len() && pre[k] == x;
                assert(post[k] == x);
            }
        }
        assert(s@ =~= hand@.union(post.to_set()));
    }
    assert(pile.take(pile.len() as int) == pile);
    s
}

fn bounded_cardset_contains(set: &CardSet, suit: CardSuit, index: usize) -> (r: bool)
    ensures
        r == has_place(set@, suit.index() as int, index as int),
{
    if index > HIGH_ACE_INDEX {
        return false;
    }
    let mod_index = mod_value_index(index);
    let card = Card { suit, value: CardValue::from_index(mod_index) };
    proof {
        lemma_card_at(card, 0, 0);
    }
    set.contains(&card)
}

fn mod_value_index(value_index: usize) -> (r: usize)
    requires
        value_index <= HIGH_ACE_INDEX,
    ensures
        r == spec_mod_index(value_index as int),
        r < NUM_CARD_VALUES,
{
    if value_index == HIGH_ACE_INDEX {
        LOW_ACE_INDEX
    } else {
        value_index
    }
}

fn ace_status_of_index(value_index: usize) -> (r: Option<AceStatus>)
    ensures
        value_index == LOW_ACE_INDEX ==> r == Some(AceStatus::Low),
        value_index == HIGH_ACE_INDEX ==> r == Some(AceStatus::High),
        value_index != LOW_ACE_INDEX && value_index != HIGH_ACE_INDEX ==> r is None,
{
    match value_index {
        LOW_ACE_INDEX => Some(AceStatus::Low),
        HIGH_ACE_INDEX => Some(AceStatus::High),
        _ => None,
    }
}


proof fn lemma_realizes_concat_push(
    plays: Seq<Play>,
    plan: Seq<PlanStep>,
    piece: Seq<PlanStep>,
    pile: Seq<Card>,
    play: Play,
    step: PlanStep,
)
    requires
        realizes(plays, plan + piece, pile),
        play@ == (step.0, step.1, pickup(step.1, pile)),
    ensures
        realizes(plays.push(play), plan + piece.push(step), pile),
{
    lemma_realizes_push(plays, plan + piece, pile, play, step);
    assert((plan + piece).push(step) =~= plan + piece.push(step));
}

fn generate_straight_extensions(
    playable_cards: &CardSet,
    card: &Card,
    additional_card: &Card,
    ace_status_value: AceStatus,
    plays: &mut Vec<Play>,
    discard_pile: &Vec<Card>,
    Ghost(plan): Ghost<Seq<PlanStep>>,
)
    requires
        discard_pile@.no_duplicates(),
        *additional_card != *card,
        realizes(old(plays)@, plan, discard_pile@),
    ensures
        realizes(
            final(plays)@,
            plan + extension_pieces(playable_cards@, *card, *additional_card, ace_status_value),
            discard_pile@,
        ),
{
    let ghost piece = extension_pieces(playable_cards@, *card, *additional_card, ace_status_value);
    let mut cards_used = CardSet::new();
    cards_used.add(card);

    let ace_status = match card.value {
        CardValue::Ace => Some(ace_status_value),
        _ => None,
    };
    let value_is_not_ace = ace_status.is_none();
    let kind = PlayKind::StraightFlush { ace_status };
    assert(plan + seq![] =~= plan);
    let ghost mut made: Seq<PlanStep> = seq![];

    if value_is_not_ace && playable_cards.contains(additional_card) {
        let mut other_cards_used = cards_used;
        other_cards_used.add(additional_card);
        let play = Play::make(other_cards_used, kind, discard_pile);
        proof {
            assert(other_cards_used@ =~= set![*card, *additional_card]);
            lemma_realizes_concat_push(plays@, plan, made, discard_pile@, play, piece[0]);
            made = made.push(piece[0]);
        }
        plays.push(play);
    }

    let play = Play::make(cards_used, kind, discard_pile);
    proof {
        assert(cards_used@ =~= set![*card]);
        lemma_realizes_concat_push(plays@, plan, made, discard_pile@, play, piece[piece.len() - 1]);
        made = made.push(piece[piece.len() - 1]);
        assert(made =~= piece);
    }
    plays.push(play);
}

/// The card at place `i` of the line of `suit`.
fn card_of_index(suit: CardSuit, i: usize) -> (r: Card)
    requires
        i <= HIGH_ACE_INDEX,
    ensures
        r == card_at(suit.index() as int, spec_mod_index(i as int)),
{
    let mod_index = mod_value_index(i);
    let value = CardValue::from_index(mod_index);
    let r = Card { suit, value };
    proof {
        lemma_card_at(r, 0, 0);
    }
    r
}

/// The run of `k` places from place `i` grows by the card of the next place,
/// which it does not hold yet.
proof fn lemma_run_grows(s: int, i: int, k: int)
    requires
        0 <= s < 4,
        0 <= i,
        0 <= k < 13,
        i + k <= 13,
    ensures
        !run_cards(s, i, k).contains(card_at(s, spec_mod_index(i + k))),
        run_cards(s, i, k).insert(card_at(s, spec_mod_index(i + k))) == run_cards(s, i, k + 1),
{
    let c = card_at(s, spec_mod_index(i + k));
    lemma_card_at(c, s, spec_mod_index(i + k));
    assert forall|d: Card| #[trigger] run_cards(s, i, k + 1).contains(d) <==> (run_cards(s, i, k).contains(d) || d == c) by {
        lemma_card_at(d, s, spec_mod_index(i + k));
    }
    assert(run_cards(s, i, k).insert(c) =~= run_cards(s, i, k + 1));
}

fn generate_standalone_plays(
    playable_cards: &CardSet,
    suit: CardSuit,
    value_index: usize,
    plays: &mut Vec<Play>,
    discard_pile: &Vec<Card>,
    Ghost(plan): Ghost<Seq<PlanStep>>,
)
    requires
        value_index < NUM_CARD_VALUES,
        has_place(playable_cards@, suit.index() as int, value_index as int),
        has_place(playable_cards@, suit.index() as int, value_index + 1),
        has_place(playable_cards@, suit.index() as int, value_index + 2),
        discard_pile@.no_duplicates(),
        realizes(old(plays)@, plan, discard_pile@),
    ensures
        realizes(
            final(plays)@,
            plan + runs_upto(
                suit.index() as int,
                value_index as int,
                run_end(playable_cards@, suit.index() as int, value_index as int, 3) + 1,
            ),
            discard_pile@,
        ),
{
    let ghost s = suit.index() as int;
    let ghost vi = value_index as int;
    let ghost p = playable_cards@;
    let mut set = CardSet::new();
    let mut ace_status: Option<AceStatus> = None;
    assert(set@ =~= run_cards(s, vi, 0));
    for i in value_index..(value_index + 3)
        invariant
            s == suit.index(),
            vi == value_index,
            vi + 2 <= 13,
            set@ == run_cards(s, vi, i - vi),
            ace_status == run_status(vi, i - vi),
    {
        let single_ace_status = ace_status_of_index(i);
        if ace_status.is_none() {
            ace_status = single_ace_status;
        }
        let card = card_of_index(suit, i);
        proof {
            lemma_run_grows(s, vi, i - vi);
        }
        set.add(&card);
    }

    let play = Play::make(set, PlayKind::StraightFlush { ace_status }, discard_pile);
    proof {
        assert(plan + seq![] =~= plan);
        lemma_realizes_concat_push(plays@, plan, seq![], discard_pile@, play, run_step(s, vi, 3));
        assert(runs_upto(s, vi, 3) =~= seq![]);
        assert(runs_upto(s, vi, 4) =~= seq![].push(run_step(s, vi, 3)));
    }
    plays.push(play);

    let mut extra_index = value_index + 3;
    while extra_index < value_index + NUM_CARD_VALUES && bounded_cardset_contains(
        playable_cards,
        suit,
        extra_index,
    )
        invariant
            s == suit.index(),
            vi == value_index,
            p == playable_cards@,
            value_index < NUM_CARD_VALUES,
            vi + 3 <= extra_index <= vi + 13,
            discard_pile@.no_duplicates(),
            set@ == run_cards(s, vi, extra_index - vi),
            ace_status == run_status(vi, extra_index - vi),
            realizes(plays@, plan + runs_upto(s, vi, extra_index - vi + 1), discard_pile@),
            run_end(p, s, vi, 3) == run_end(p, s, vi, extra_index - vi),
        decreases value_index + NUM_CARD_VALUES - extra_index,
    {
        let ghost k = extra_index - vi;
        let card = card_of_index(suit, extra_index);
        proof {
            lemma_run_grows(s, vi, k);
        }
        set.add(&card);

        let single_ace_status = ace_status_of_index(extra_index);
        if ace_status.is_none() {
            ace_status = single_ace_status;
        }

        let play = Play::make(set, PlayKind::StraightFlush { ace_status }, discard_pile);
        proof {
            lemma_realizes_concat_push(plays@, plan, runs_upto(s, vi, k + 1), discard_pile@, play, run_step(s, vi, k + 1));
            assert(runs_upto(s, vi, k + 2) == runs_upto(s, vi, k + 1).push(run_step(s, vi, k + 1)));
        }
        plays.push(play);

        extra_index += 1;
    }
}


/// The cards of one rank in `p`, read off the list of its suits.
proof fn lemma_rank_cards_by_suit(p: Set<Card>, value: CardValue, suits: Seq<CardSuit>)
    requires
        forall|su: CardSuit| suits.contains(su) <==> p.contains(Card { value, suit: su }),
    ensures
        forall|c: Card|
            #[trigger] rank_cards(p, value.index() as int).contains(c) <==> (c.value == value
                && suits.contains(c.suit)),
{
    assert forall|c: Card|
        #[trigger] rank_cards(p, value.index() as int).contains(c) <==> (c.value == value
            && suits.contains(c.suit)) by {
        if c.value.index() == value.index() {
            assert(c.value == value);
            assert(c == Card { value, suit: c.suit });
        }
    }
}

/// The cards of rank `value` whose suit index is below `n` and is not `skip`.
spec fn suit_prefix_cards(value: CardValue, n: int, skip: int) -> Set<Card> {
    Set::new(|c: Card| c.value == value && c.suit.index() < n && c.suit.index() != skip)
}

/// Adds the cards of rank `value` of every suit but the one of index `skip`.
fn rank_set_without(value: CardValue, skip: usize) -> (r: CardSet)
    ensures
        r@ == suit_prefix_cards(value, 4, skip as int),
{
    let mut set = CardSet::new();
    assert(set@ =~= suit_prefix_cards(value, 0, skip as int));
    for i in 0..NUM_SUITS
        invariant
            set@ == suit_prefix_cards(value, i as int, skip as int),
    {
        let card = Card { value, suit: CardSuit::from_index(i) };
        if i != skip {
            set.add(&card);
        }
        assert forall|c: Card| #[trigger] suit_prefix_cards(value, i + 1, skip as int).contains(c)
            <==> (suit_prefix_cards(value, i as int, skip as int).contains(c) || (i != skip && c == card)) by {
            if c.suit.index() == i && c.value == value {
                assert(c.suit == card.suit);
            }
        }
        assert(set@ =~= suit_prefix_cards(value, i + 1, skip as int));
    }
    set
}

fn generate_multiple_plays(
    playable_cards: &CardSet,
    played_cards: &PlayedCards,
    value: CardValue,
    plays: &mut Vec<Play>,
    discard_pile: &Vec<Card>,
    Ghost(plan): Ghost<Seq<PlanStep>>,
)
    requires
        discard_pile@.no_duplicates(),
        valid_multiples(played_cards.multiple_played@),
        realizes(old(plays)@, plan, discard_pile@),
    ensures
        realizes(
            final(plays)@,
            plan + multiple_plan_for_rank(
                playable_cards@,
                played_cards.multiple_played@,
                value.index() as int,
            ),
            discard_pile@,
        ),
{
    let ghost v = value.index() as int;
    let ghost p = playable_cards@;
    let ghost piece = multiple_plan_for_rank(p, played_cards.multiple_played@, v);
    let ghost cards = rank_cards(p, v);
    let matching_suits = all_suits_with_value(playable_cards, value);
    let num_suits = matching_suits.len();
    proof {
        lemma_rank_cards_by_suit(p, value, matching_suits@);
        assert(plan + seq![] =~= plan);
    }

    if num_suits == 1 {
        if played_cards.value_was_played_as_multiple(value) {
            let suit = matching_suits[num_suits - 1];
            let card = Card { value, suit };

            let mut cards_used = CardSet::new();
            cards_used.add(&card);

            let play = Play::make(cards_used, PlayKind::Multiple, discard_pile);
            proof {
                assert forall|su: CardSuit| matching_suits@.contains(su) <==> su == suit by {
                    if matching_suits@.contains(su) {
                        let k = choose|k: int| 0 <= k < 1 && matching_suits@[k] == su;
                    }
                }
                assert(cards_used@ =~= cards);
                lemma_realizes_concat_push(plays@, plan, seq![], discard_pile@, play, piece[0]);
                assert(seq![].push(piece[0]) =~= piece);
            }
            plays.push(play);
        } else {
            assert(piece =~= seq![]);
        }
    } else if num_suits == 3 {
        let mut cards_used = CardSet::new();
        for i in 0..num_suits
            invariant
                num_suits == matching_suits@.len(),
                forall|a: int, b: int|
                    0 <= a < b < matching_suits@.len() ==> matching_suits@[a].index()
                        < matching_suits@[b].index(),
                forall|c: Card|
                    #[trigger] cards_used@.contains(c) <==> (c.value == value && exists|k: int|
                        0 <= k < i && matching_suits@[k] == c.suit),
        {
            let card = Card { value, suit: matching_suits[i] };
            assert(!cards_used@.contains(card)) by {
                if cards_used@.contains(card) {
                    let k = choose|k: int| 0 <= k < i && matching_suits@[k] == card.suit;
                }
            }
            cards_used.add(&card);
            assert forall|c: Card|
                #[trigger] cards_used@.contains(c) <==> (c.value == value && exists|k: int|
                    0 <= k < i + 1 && matching_suits@[k] == c.suit) by {
                if c.value == value && c.suit == matching_suits@[i as int] {
                    assert(c == card);
                }
                if c.value == value && exists|k: int| 0 <= k < i + 1 && matching_suits@[k] == c.suit {
                    let k = choose|k: int| 0 <= k < i + 1 && matching_suits@[k] == c.suit;
                    if k < i {
                        assert(exists|k: int| 0 <= k < i && matching_suits@[k] == c.suit);
                    }
                }
            }
        }
        let play = Play::make(cards_used, PlayKind::Multiple, discard_pile);
        proof {
            assert forall|c: Card| #[trigger] cards_used@.contains(c) <==> cards.contains(c) by {
                if cards.contains(c) {
                    assert(matching_suits@.contains(c.suit));
                    let k = choose|k: int| 0 <= k < matching_suits@.len() && matching_suits@[k] == c.suit;
                }
            }
            assert(cards_used@ =~= cards);
            lemma_realizes_concat_push(plays@, plan, seq![], discard_pile@, play, piece[0]);
            assert(seq![].push(piece[0]) =~= piece);
        }
        plays.push(play);
    } else if num_suits == 4 {
        proof {
            let ms = matching_suits@;
            assert(ms[0].index() < ms[1].index());
            assert(ms[1].index() < ms[2].index());
            assert(ms[2].index() < ms[3].index());
            assert(ms[3].index() < 4);
            assert forall|su: CardSuit| #[trigger] matching_suits@.contains(su) by {
                assert(matching_suits@[0].index() == 0);
                assert(matching_suits@[1].index() == 1);
                assert(matching_suits@[2].index() == 2);
                assert(matching_suits@[3].index() == 3);
                if su.index() == 0 {
                    assert(matching_suits@[0] == su);
                } else if su.index() == 1 {
                    assert(matching_suits@[1] == su);
                } else if su.index() == 2 {
                    assert(matching_suits@[2] == su);
                } else {
                    assert(matching_suits@[3] == su);
                }
            }
        }
        let ghost mut made: Seq<PlanStep> = seq![];
        for j in 0..NUM_SUITS
            invariant
                v == value.index(),
                discard_pile@.no_duplicates(),
                forall|c: Card| #[trigger] cards.contains(c) <==> c.value == value,
                piece.len() == 5,
                forall|k: int| 0 <= k < 4 ==> #[trigger] piece[k] == (PlayKind::Multiple, cards.remove(card_at(k, v))),
                made == piece.take(j as int),
                realizes(plays@, plan + made, discard_pile@),
        {
            let three_card_set = rank_set_without(value, j);
            let play = Play::make(three_card_set, PlayKind::Multiple, discard_pile);
            proof {
                let c_j = card_at(j as int, v);
                lemma_card_at(c_j, j as int, v);
                assert forall|c: Card| #[trigger] three_card_set@.contains(c) <==> cards.remove(c_j).contains(c) by {
                    if c.value == value && c.suit.index() == j {
                        lemma_card_at(c, 0, 0);
                    }
                }
                assert(three_card_set@ =~= cards.remove(c_j));
                lemma_realizes_concat_push(plays@, plan, made, discard_pile@, play, piece[j as int]);
                made = made.push(piece[j as int]);
                assert(made =~= piece.take(j + 1));
            }
            plays.push(play);
        }

        let four_card_move_set = rank_set_without(value, NUM_SUITS);
        let four_play = Play::make(four_card_move_set, PlayKind::Multiple, discard_pile);
        proof {
            assert(four_card_move_set@ =~= cards);
            lemma_realizes_concat_push(plays@, plan, made, discard_pile@, four_play, piece[4]);
            made = made.push(piece[4]);
            assert(made =~= piece);
        }
        plays.push(four_play);
    } else {
        assert(piece =~= seq![]);
    }
}

/// Every legal play for a hand, a discard pile stored bottom first, and the
/// cards on the table; the inputs are only read.
pub fn all_possible_plays(
    hand: &CardSet,
    discard_pile: &Vec<Card>,
    played_cards: &PlayedCards,
) -> (r: Vec<Play>)
    requires
        discard_pile@.no_duplicates(),
        forall|i: int| 0 <= i < discard_pile@.len() ==> !hand@.contains(#[trigger] discard_pile@[i]),
        valid_multiples(played_cards.multiple_played@),
    ensures
        realizes(
            r@,
            plays_plan(
                playable(hand@, discard_pile@),
                played_cards.straight_flush_played@,
                played_cards.multiple_played@,
            ),
            discard_pile@,
        ),
{
    let playable_cards = playable_cards(hand, discard_pile);
    let ghost p = playable_cards@;
    let ghost sf = played_cards.straight_flush_played@;
    let ghost m = played_cards.multiple_played@;
    let mut plays: Vec<Play> = Vec::new();

    // Multiples, rank by rank.
    for value_index in 0..NUM_CARD_VALUES
        invariant
            p == playable_cards@,
            m == played_cards.multiple_played@,
            discard_pile@.no_duplicates(),
            valid_multiples(m),
            realizes(plays@, multiples_plan(p, m, value_index as int), discard_pile@),
    {
        let value = CardValue::from_index(value_index);
        generate_multiple_plays(
            &playable_cards,
            played_cards,
            value,
            &mut plays,
            discard_pile,
            Ghost(multiples_plan(p, m, value_index as int)),
        );
    }

    // Single cards and pairs that extend a run on the table.
    let ghost base = multiples_plan(p, m, 13);
    assert(base + extensions_plan(p, sf, 0) =~= base);
    for suit_index in 0..NUM_SUITS
        invariant
            p == playable_cards@,
            sf == played_cards.straight_flush_played@,
            discard_pile@.no_duplicates(),
            realizes(plays@, base + extensions_plan(p, sf, suit_index as int), discard_pile@),
    {
        let suit = CardSuit::from_index(suit_index);
        let ghost done = base + extensions_plan(p, sf, suit_index as int);
        assert(done + extension_plan_suit(p, sf, suit_index as int, 0) =~= done);
        for value_index in 0..NUM_CARD_VALUES
            invariant
                p == playable_cards@,
                sf == played_cards.straight_flush_played@,
                discard_pile@.no_duplicates(),
                suit.index() == suit_index,
                suit_index < NUM_SUITS,
                realizes(plays@, done + extension_plan_suit(p, sf, suit_index as int, value_index as int), discard_pile@),
        {
            let value = CardValue::from_index(value_index);
            let card = Card { suit, value };
            let ghost before = done + extension_plan_suit(p, sf, suit_index as int, value_index as int);
            proof {
                lemma_card_at(card, 0, 0);
                assert(before + seq![] =~= before);
            }
            if playable_cards.contains(&card) {
                let next_card = Card { suit, value: value.next() };
                let prev_card = Card { suit, value: value.prev() };
                if played_cards.straight_flush_played.contains(&next_card) {
                    generate_straight_extensions(
                        &playable_cards,
                        &card,
                        &prev_card,
                        AceStatus::Low,
                        &mut plays,
                        discard_pile,
                        Ghost(before),
                    );
                } else if played_cards.straight_flush_played.contains(&prev_card) {
                    generate_straight_extensions(
                        &playable_cards,
                        &card,
                        &next_card,
                        AceStatus::High,
                        &mut plays,
                        discard_pile,
                        Ghost(before),
                    );
                }
            }
            assert(before + extension_plan_for_card(p, sf, card_at(suit_index as int, value_index as int))
                =~= done + extension_plan_suit(p, sf, suit_index as int, value_index + 1));
        }
        assert(done + extension_plan_suit(p, sf, suit_index as int, 13)
            =~= base + extensions_plan(p, sf, suit_index + 1));
    }

    // New runs of three cards or more.
    let ghost base2 = base + extensions_plan(p, sf, 4);
    assert(base2 + runs_plan(p, 0) =~= base2);
    for suit_index in 0..NUM_SUITS
        invariant
            p == playable_cards@,
            discard_pile@.no_duplicates(),
            realizes(plays@, base2 + runs_plan(p, suit_index as int), discard_pile@),
    {
        let suit = CardSuit::from_index(suit_index);
        let ghost done = base2 + runs_plan(p, suit_index as int);
        assert(done + run_plan_suit(p, suit_index as int, 0) =~= done);
        for value_index in LOW_ACE_INDEX..HIGH_ACE_INDEX
            invariant
                p == playable_cards@,
                discard_pile@.no_duplicates(),
                suit.index() == suit_index,
                realizes(plays@, done + run_plan_suit(p, suit_index as int, value_index as int), discard_pile@),
        {
            let ghost before = done + run_plan_suit(p, suit_index as int, value_index as int);
            let has_card = bounded_cardset_contains(&playable_cards, suit, value_index);
            let has_next = bounded_cardset_contains(&playable_cards, suit, value_index + 1);
            let next_has_next = bounded_cardset_contains(&playable_cards, suit, value_index + 2);
            if has_card && has_next && next_has_next {
                generate_standalone_plays(
                    &playable_cards,
                    suit,
                    value_index,
                    &mut plays,
                    discard_pile,
                    Ghost(before),
                );
            } else {
                assert(before + seq![] =~= before);
            }
            assert(before + run_plan_at(p, suit_index as int, value_index as int)
                =~= done + run_plan_suit(p, suit_index as int, value_index + 1));
        }
        assert(done + run_plan_suit(p, suit_index as int, 13) =~= base2 + runs_plan(p, suit_index + 1));
    }
    assert(base2 + runs_plan(p, 4) =~= plays_plan(p, sf, m));
    plays
}


// ---------------------------------------------------------------------------
// Laws

/// The pickup rule takes every pile card that a play uses; it takes nothing
/// when the play uses no pile card; and a play that uses the bottom card of a
/// pile of three takes the whole pile.
pub proof fn law_pickup(used: Set<Card>, pile: Seq<Card>)
    ensures
        forall|i: int|
            0 <= i < pile.len() && #[trigger] used.contains(pile[i]) ==> pickup(used, pile).contains(
                pile[i],
            ),
        (forall|i: int| 0 <= i < pile.len() ==> !#[trigger] used.contains(pile[i])) ==> pickup(
            used,
            pile,
        ) == Set::<Card>::empty(),
        pile.len() == 3 && used.contains(pile[0]) ==> pickup(used, pile) == set![
            pile[0],
            pile[1],
            pile[2],
        ],
{
    assert forall|i: int|
        0 <= i < pile.len() && #[trigger] used.contains(pile[i]) implies pickup(used, pile).contains(
            pile[i],
        ) by {
        assert(used.contains(pile[i]) && pile[i] == pile[i]);
    }
    if forall|i: int| 0 <= i < pile.len() ==> !#[trigger] used.contains(pile[i]) {
        assert(pickup(used, pile) =~= Set::<Card>::empty());
    }
    if pile.len() == 3 && used.contains(pile[0]) {
        assert forall|c: Card| #[trigger] pickup(used, pile).contains(c) <==> set![pile[0], pile[1], pile[2]].contains(c) by {
            if c == pile[1] {
                assert(used.contains(pile[0]) && pile[1] == c);
            }
            if c == pile[2] {
                assert(used.contains(pile[0]) && pile[2] == c);
            }
        }
        assert(pickup(used, pile) =~= set![pile[0], pile[1], pile[2]]);
    }
}

/// Two lists of plays computed from the same hand, discard pile and table are
/// the same, play for play.
pub proof fn law_same_inputs_same_plays(
    hand: Set<Card>,
    pile: Seq<Card>,
    straight_flush_played: Set<Card>,
    multiple_played: Set<Card>,
    first: Seq<Play>,
    second: Seq<Play>,
)
    requires
        realizes(
            first,
            plays_plan(playable(hand, pile), straight_flush_played, multiple_played),
            pile,
        ),
        realizes(
            second,
            plays_plan(playable(hand, pile), straight_flush_played, multiple_played),
            pile,
        ),
    ensures
        first.len() == second.len(),
        forall|i: int| 0 <= i < first.len() ==> #[trigger] first[i]@ == second[i]@,
{
    assert forall|i: int| 0 <= i < first.len() implies #[trigger] first[i]@ == second[i]@ by {
        assert(first[i]@ == second[i]@);
    }
}

/// An Ace next to a melded run gives one extension play, the Ace alone, with
/// the side it takes; never a pair reaching past it.
pub proof fn law_ace_extends_alone(p: Set<Card>, sf: Set<Card>, c: Card)
    requires
        c.value == CardValue::Ace,
    ensures
        extension_plan_for_card(p, sf, c).len() <= 1,
        p.contains(c) && sf.contains(next_card(c)) ==> extension_plan_for_card(p, sf, c) == seq![
            (PlayKind::StraightFlush { ace_status: Some(AceStatus::Low) }, set![c]),
        ],
        p.contains(c) && !sf.contains(next_card(c)) && sf.contains(prev_card(c))
            ==> extension_plan_for_card(p, sf, c) == seq![
            (PlayKind::StraightFlush { ace_status: Some(AceStatus::High) }, set![c]),
        ],
{
}


/// A planned multiple play that uses a card of rank index `v`.
pub open spec fn is_multiple_of_rank(st: PlanStep, v: int) -> bool {
    st.0 == PlayKind::Multiple && exists|c: Card| #[trigger] st.1.contains(c) && c.value.index() == v
}

/// The planned multiple plays of rank index `v`, in order.
pub open spec fn multiples_of_rank(plan: Seq<PlanStep>, v: int) -> Seq<PlanStep> {
    plan.filter(|st: PlanStep| is_multiple_of_rank(st, v))
}

proof fn lemma_filter_keeps_all(s: Seq<PlanStep>, v: int)
    requires
        forall|i: int| 0 <= i < s.len() ==> is_multiple_of_rank(#[trigger] s[i], v),
    ensures
        multiples_of_rank(s, v) == s,
    decreases s.len(),
{
    reveal(Seq::filter);
    if s.len() > 0 {
        lemma_filter_keeps_all(s.drop_last(), v);
        assert(s.drop_last().push(s.last()) =~= s);
    }
}

proof fn lemma_filter_drops_all(s: Seq<PlanStep>, v: int)
    requires
        forall|i: int| 0 <= i < s.len() ==> !is_multiple_of_rank(#[trigger] s[i], v),
    ensures
        multiples_of_rank(s, v) == Seq::<PlanStep>::empty(),
{
    let pred = |st: PlanStep| is_multiple_of_rank(st, v);
    assert(s.all(|x: PlanStep| !pred(x)));
    s.lemma_all_neg_filter_empty(pred);
    assert(multiples_of_rank(s, v) =~= Seq::<PlanStep>::empty());
}

/// No planned play of `plan` is a multiple.
pub open spec fn all_straight(plan: Seq<PlanStep>) -> bool {
    forall|i: int| 0 <= i < plan.len() ==> (#[trigger] plan[i]).0 != PlayKind::Multiple
}

proof fn lemma_all_straight_concat(a: Seq<PlanStep>, b: Seq<PlanStep>)
    requires
        all_straight(a),
        all_straight(b),
    ensures
        all_straight(a + b),
{
    assert forall|i: int| 0 <= i < (a + b).len() implies (#[trigger] (a + b)[i]).0 != PlayKind::Multiple by {
        if i < a.len() {
            assert((a + b)[i] == a[i]);
        } else {
            assert((a + b)[i] == b[i - a.len()]);
        }
    }
}

proof fn lemma_extensions_straight(p: Set<Card>, sf: Set<Card>, n: int)
    ensures
        all_straight(extensions_plan(p, sf, n)),
    decreases n,
{
    if n > 0 {
        lemma_extensions_straight(p, sf, n - 1);
        lemma_extension_suit_straight(p, sf, n - 1, 13);
        lemma_all_straight_concat(extensions_plan(p, sf, n - 1), extension_plan_suit(p, sf, n - 1, 13));
    }
}

proof fn lemma_extension_suit_straight(p: Set<Card>, sf: Set<Card>, s: int, n: int)
    ensures
        all_straight(extension_plan_suit(p, sf, s, n)),
    decreases n,
{
    if n > 0 {
        lemma_extension_suit_straight(p, sf, s, n - 1);
        lemma_all_straight_concat(
            extension_plan_suit(p, sf, s, n - 1),
            extension_plan_for_card(p, sf, card_at(s, n - 1)),
        );
    }
}

proof fn lemma_runs_upto_straight(s: int, i: int, k: int)
    ensures
        all_straight(runs_upto(s, i, k)),
    decreases k,
{
    if k > 3 {
        lemma_runs_upto_straight(s, i, k - 1);
        lemma_all_straight_concat(runs_upto(s, i, k - 1), seq![run_step(s, i, k - 1)]);
        assert(runs_upto(s, i, k - 1).push(run_step(s, i, k - 1)) == runs_upto(s, i, k - 1) + seq![run_step(s, i, k - 1)]);
    }
}

proof fn lemma_run_suit_straight(p: Set<Card>, s: int, n: int)
    ensures
        all_straight(run_plan_suit(p, s, n)),
    decreases n,
{
    if n > 0 {
        lemma_run_suit_straight(p, s, n - 1);
        lemma_runs_upto_straight(s, n - 1, run_end(p, s, n - 1, 3) + 1);
        lemma_all_straight_concat(run_plan_suit(p, s, n - 1), run_plan_at(p, s, n - 1));
    }
}

proof fn lemma_runs_straight(p: Set<Card>, n: int)
    ensures
        all_straight(runs_plan(p, n)),
    decreases n,
{
    if n > 0 {
        lemma_runs_straight(p, n - 1);
        lemma_run_suit_straight(p, n - 1, 13);
        lemma_all_straight_concat(runs_plan(p, n - 1), run_plan_suit(p, n - 1, 13));
    }
}

proof fn lemma_suit_count_terms(s: Set<Card>, v: int)
    ensures
        suit_count(s, v) == (if s.contains(card_at(0, v)) { 1int } else { 0int }) + (if s.contains(
            card_at(1, v),
        ) {
            1int
        } else {
            0int
        }) + (if s.contains(card_at(2, v)) { 1int } else { 0int }) + (if s.contains(card_at(3, v)) {
            1int
        } else {
            0int
        }),
{
    reveal_with_fuel(suit_count_upto, 5);
}

/// Each multiple play planned for rank index `w` uses cards of that rank, at
/// least one.
proof fn lemma_rank_piece(p: Set<Card>, m: Set<Card>, w: int, v: int)
    requires
        0 <= w < 13,
        0 <= v < 13,
    ensures
        w == v ==> multiples_of_rank(multiple_plan_for_rank(p, m, w), v) == multiple_plan_for_rank(p, m, w),
        w != v ==> multiples_of_rank(multiple_plan_for_rank(p, m, w), v) == Seq::<PlanStep>::empty(),
{
    let piece = multiple_plan_for_rank(p, m, w);
    let cards = rank_cards(p, w);
    lemma_suit_count_terms(p, w);
    let c0 = card_at(0, w);
    let c1 = card_at(1, w);
    let c2 = card_at(2, w);
    let c3 = card_at(3, w);
    lemma_card_at(c0, 0, w);
    lemma_card_at(c0, 1, w);
    lemma_card_at(c0, 2, w);
    lemma_card_at(c0, 3, w);
    assert forall|i: int| 0 <= i < piece.len() implies #[trigger] piece[i].0 == PlayKind::Multiple
        && (forall|c: Card| piece[i].1.contains(c) ==> c.value.index() == w)
        && exists|c: Card| #[trigger] piece[i].1.contains(c) && c.value.index() == w by {
        if p.contains(c0) && (i != 0 || suit_count(p, w) != 4) {
            assert(piece[i].1.contains(c0));
        } else if p.contains(c1) && i != 1 {
            assert(piece[i].1.contains(c1));
        } else if p.contains(c2) {
            assert(piece[i].1.contains(c2));
        } else {
            assert(piece[i].1.contains(c3));
        }
    }
    if w == v {
        lemma_filter_keeps_all(piece, v);
    } else {
        lemma_filter_drops_all(piece, v);
    }
}

proof fn lemma_multiples_filter(p: Set<Card>, m: Set<Card>, n: int, v: int)
    requires
        0 <= n <= 13,
        0 <= v < 13,
    ensures
        multiples_of_rank(multiples_plan(p, m, n), v) == if n > v {
            multiple_plan_for_rank(p, m, v)
        } else {
            Seq::<PlanStep>::empty()
        },
    decreases n,
{
    let pred = |st: PlanStep| is_multiple_of_rank(st, v);
    if n == 0 {
        lemma_filter_drops_all(multiples_plan(p, m, n), v);
    } else {
        lemma_multiples_filter(p, m, n - 1, v);
        lemma_rank_piece(p, m, n - 1, v);
        Seq::filter_distributes_over_add(multiples_plan(p, m, n - 1), multiple_plan_for_rank(p, m, n - 1), pred);
        if n - 1 == v {
            assert(Seq::<PlanStep>::empty() + multiple_plan_for_rank(p, m, v) =~= multiple_plan_for_rank(p, m, v));
        } else if n > v {
            assert(multiple_plan_for_rank(p, m, v) + Seq::<PlanStep>::empty() =~= multiple_plan_for_rank(p, m, v));
        } else {
            assert(Seq::<PlanStep>::empty() + Seq::<PlanStep>::empty() =~= Seq::<PlanStep>::empty());
        }
    }
}

/// Only the multiples planned for rank index `v` are multiple plays of that rank.
proof fn lemma_output_multiples(p: Set<Card>, sf: Set<Card>, m: Set<Card>, v: int)
    requires
        0 <= v < 13,
    ensures
        multiples_of_rank(plays_plan(p, sf, m), v) == multiple_plan_for_rank(p, m, v),
{
    let pred = |st: PlanStep| is_multiple_of_rank(st, v);
    let a = multiples_plan(p, m, 13);
    let b = extensions_plan(p, sf, 4);
    let c = runs_plan(p, 4);
    lemma_multiples_filter(p, m, 13, v);
    lemma_extensions_straight(p, sf, 4);
    lemma_runs_straight(p, 4);
    lemma_filter_drops_all(b, v);
    lemma_filter_drops_all(c, v);
    Seq::filter_distributes_over_add(a, b, pred);
    Seq::filter_distributes_over_add(a + b, c, pred);
    assert(plays_plan(p, sf, m) == a + b + c);
    assert(multiples_of_rank(a + b + c, v) == multiples_of_rank(a, v) + multiples_of_rank(b, v) + multiples_of_rank(c, v));
    assert(multiples_of_rank(a, v) + Seq::<PlanStep>::empty() + Seq::<PlanStep>::empty() =~= multiples_of_rank(a, v));
}

/// The multiple plays of one rank in the full list are those of that rank
/// alone: one of the three cards when three suits are playable; the four sets
/// of three (each leaving out one suit, in suit order) and then the set of
/// four when all four are; one of the single card when one suit is playable
/// and the rank is melded in three or four suits, else none; none otherwise.
#[verifier::rlimit(40)]
pub proof fn law_multiple_counts(
    hand: Set<Card>,
    pile: Seq<Card>,
    straight_flush_played: Set<Card>,
    multiple_played: Set<Card>,
    v: int,
)
    requires
        0 <= v < 13,
    ensures
        ({
            let p = playable(hand, pile);
            let out = multiples_of_rank(plays_plan(p, straight_flush_played, multiple_played), v);
            let n = suit_count(p, v);
            let cards = rank_cards(p, v);
            &&& n == 3 ==> out == seq![(PlayKind::Multiple, cards)]
            &&& n == 4 ==> out.len() == 5 && out[4] == (PlayKind::Multiple, cards) && forall|j: int|
                0 <= j < 4 ==> #[trigger] out[j] == (PlayKind::Multiple, cards.remove(card_at(j, v)))
            &&& n == 1 && suit_count(multiple_played, v) >= 3 ==> out == seq![(PlayKind::Multiple, cards)]
            &&& n == 1 && suit_count(multiple_played, v) < 3 ==> out.len() == 0
            &&& n != 1 && n != 3 && n != 4 ==> out.len() == 0
        }),
{
    let p = playable(hand, pile);
    let out = multiples_of_rank(plays_plan(p, straight_flush_played, multiple_played), v);
    lemma_output_multiples(p, straight_flush_played, multiple_played, v);
    assert(out == multiple_plan_for_rank(p, multiple_played, v));
}


proof fn lemma_contains_concat(a: Seq<PlanStep>, b: Seq<PlanStep>, x: PlanStep)
    requires
        a.contains(x) || b.contains(x),
    ensures
        (a + b).contains(x),
{
    if a.contains(x) {
        let k = choose|k: int| 0 <= k < a.len() && a[k] == x;
        assert((a + b)[k] == x);
    } else {
        let k = choose|k: int| 0 <= k < b.len() && b[k] == x;
        assert((a + b)[a.len() + k] == x);
    }
}

proof fn lemma_runs_upto_has_first(s: int, i: int, k: int)
    requires
        k >= 4,
    ensures
        runs_upto(s, i, k).contains(run_step(s, i, 3)),
    decreases k,
{
    if k == 4 {
        assert(runs_upto(s, i, 3) =~= Seq::<PlanStep>::empty());
        assert(runs_upto(s, i, 4)[0] == run_step(s, i, 3));
    } else {
        lemma_runs_upto_has_first(s, i, k - 1);
        let prev = runs_upto(s, i, k - 1);
        let j = choose|j: int| 0 <= j < prev.len() && prev[j] == run_step(s, i, 3);
        assert(runs_upto(s, i, k)[j] == run_step(s, i, 3));
    }
}

proof fn lemma_run_end_at_least(p: Set<Card>, s: int, i: int, k: int)
    requires
        k <= 13,
    ensures
        run_end(p, s, i, k) >= k,
    decreases 13 - k,
{
    if k < 13 && has_place(p, s, i + k) {
        lemma_run_end_at_least(p, s, i, k + 1);
    }
}

/// A run starting at place `i` of suit index `s` is in the full list.
proof fn lemma_run_in_output(p: Set<Card>, sf: Set<Card>, m: Set<Card>, s: int, i: int, x: PlanStep)
    requires
        0 <= s < 4,
        0 <= i < 13,
        run_plan_at(p, s, i).contains(x),
    ensures
        plays_plan(p, sf, m).contains(x),
{
    lemma_run_suit_contains(p, s, 13, i, x);
    lemma_runs_contains(p, 4, s, x);
    lemma_contains_concat(multiples_plan(p, m, 13) + extensions_plan(p, sf, 4), runs_plan(p, 4), x);
}

proof fn lemma_run_suit_contains(p: Set<Card>, s: int, n: int, i: int, x: PlanStep)
    requires
        0 <= i < n,
        run_plan_at(p, s, i).contains(x),
    ensures
        run_plan_suit(p, s, n).contains(x),
    decreases n,
{
    if i < n - 1 {
        lemma_run_suit_contains(p, s, n - 1, i, x);
    }
    lemma_contains_concat(run_plan_suit(p, s, n - 1), run_plan_at(p, s, n - 1), x);
}

proof fn lemma_runs_contains(p: Set<Card>, n: int, s: int, x: PlanStep)
    requires
        0 <= s < n,
        run_plan_suit(p, s, 13).contains(x),
    ensures
        runs_plan(p, n).contains(x),
    decreases n,
{
    if s < n - 1 {
        lemma_runs_contains(p, n - 1, s, x);
    }
    lemma_contains_concat(runs_plan(p, n - 1), run_plan_suit(p, n - 1, 13), x);
}

/// With the Queen, King and Ace of a suit playable, the full list holds the
/// run of those three with the Ace high; with its Ace, Two and Three playable,
/// it holds the run of those three with the Ace low. The place above the Ace
/// that follows the King exists for no run.
pub proof fn law_ace_run_boundary(
    hand: Set<Card>,
    pile: Seq<Card>,
    straight_flush_played: Set<Card>,
    multiple_played: Set<Card>,
    s: int,
)
    requires
        0 <= s < 4,
    ensures
        ({
            let p = playable(hand, pile);
            let out = plays_plan(p, straight_flush_played, multiple_played);
            &&& p.contains(card_at(s, 11)) && p.contains(card_at(s, 12)) && p.contains(card_at(s, 0))
                ==> out.contains(
                (
                    PlayKind::StraightFlush { ace_status: Some(AceStatus::High) },
                    set![card_at(s, 11), card_at(s, 12), card_at(s, 0)],
                ),
            )
            &&& p.contains(card_at(s, 0)) && p.contains(card_at(s, 1)) && p.contains(card_at(s, 2))
                ==> out.contains(
                (
                    PlayKind::StraightFlush { ace_status: Some(AceStatus::Low) },
                    set![card_at(s, 0), card_at(s, 1), card_at(s, 2)],
                ),
            )
            &&& !has_place(p, s, 14)
        }),
{
    let p = playable(hand, pile);
    let sf = straight_flush_played;
    let m = multiple_played;
    let q = card_at(s, 11);
    let k = card_at(s, 12);
    let a = card_at(s, 0);
    lemma_card_at(q, s, 11);
    lemma_card_at(q, s, 12);
    lemma_card_at(q, s, 0);
    lemma_card_at(q, s, 1);
    lemma_card_at(q, s, 2);
    if p.contains(q) && p.contains(k) && p.contains(a) {
        assert(run_end(p, s, 11, 3) == 3);
        assert(runs_upto(s, 11, 3) =~= Seq::<PlanStep>::empty());
        let step = run_step(s, 11, 3);
        assert(run_plan_at(p, s, 11)[0] == step);
        assert forall|c: Card| #[trigger] run_cards(s, 11, 3).contains(c) <==> set![q, k, a].contains(c) by {
            lemma_card_at(c, s, 0);
        }
        assert(run_cards(s, 11, 3) =~= set![q, k, a]);
        lemma_run_in_output(p, sf, m, s, 11, step);
    }
    if p.contains(a) && p.contains(card_at(s, 1)) && p.contains(card_at(s, 2)) {
        lemma_run_end_at_least(p, s, 0, 3);
        lemma_runs_upto_has_first(s, 0, run_end(p, s, 0, 3) + 1);
        let step = run_step(s, 0, 3);
        assert forall|c: Card| #[trigger] run_cards(s, 0, 3).contains(c) <==> set![a, card_at(s, 1), card_at(s, 2)].contains(c) by {
            lemma_card_at(c, s, 0);
        }
        assert(run_cards(s, 0, 3) =~= set![a, card_at(s, 1), card_at(s, 2)]);
        lemma_run_in_output(p, sf, m, s, 0, step);
    }
}

} // verus!
