use vstd::prelude::*;
use vstd::set_lib::{lemma_len_subset, lemma_set_disjoint_lens, lemma_subset_equality};
use crate::action::{trump_slot, Action};
use crate::bits::lemma_below_finite;
use crate::card::{points_of, Card};
use crate::stack::{deck, suit_cards};
use crate::suit::Suit;
use crate::weights::Weights;
use crate::trick::{
    following, lemma_table_push, legal_set, next_winner, overtaking, table_wf, winner_index,
};

verus! {

/// The two phases of a round.
#[derive(Clone, Copy, PartialEq, Eq, Debug, Structural)]
pub enum RoundPhase {
    /// The dealer chooses the trump suit.
    PickTrump,
    /// The players play their cards, trick by trick.
    PlayCards,
}

/// The points of the cards of `cards` with a deck index below `bound`.
pub open spec fn points_below(cards: Set<nat>, bound: nat) -> int
    decreases bound,
{
    if bound == 0 {
        0
    } else {
        let last = (bound - 1) as nat;
        points_below(cards, last) + if cards.contains(last) {
            points_of(last) as int
        } else {
            0
        }
    }
}

/// The points of the cards of `cards` together.
pub open spec fn points_in(cards: Set<nat>) -> int {
    points_below(cards, 32)
}

/// Adding a card that is not in `cards` adds its points, as far as its index
/// is below `bound`.
pub proof fn lemma_points_insert(cards: Set<nat>, card: nat, bound: nat)
    requires
        !cards.contains(card),
    ensures
        points_below(cards.insert(card), bound) == points_below(cards, bound) + if card < bound {
            points_of(card) as int
        } else {
            0
        },
    decreases bound,
{
    if bound > 0 {
        lemma_points_insert(cards, card, (bound - 1) as nat);
    }
}

/// The cards of a set are worth between nothing and what the cards of the
/// deck below `bound` are worth.
pub proof fn lemma_points_bounds(cards: Set<nat>, bound: nat)
    requires
        bound <= 32,
    ensures
        0 <= points_below(cards, bound) <= points_below(deck(), bound),
        points_below(Set::<nat>::empty(), bound) == 0,
    decreases bound,
{
    if bound > 0 {
        lemma_points_bounds(cards, (bound - 1) as nat);
    }
}

/// The deck is worth 60 points: 15 in each suit.
pub proof fn lemma_points_deck()
    ensures
        points_in(deck()) == 60,
{
    lemma_points_suits(4);
}

proof fn lemma_points_suits(suits: nat)
    requires
        suits <= 4,
    ensures
        points_below(deck(), 8 * suits) == 15 * suits,
    decreases suits,
{
    if suits > 0 {
        lemma_points_suits((suits - 1) as nat);
        let base = (8 * (suits - 1)) as nat;
        reveal_with_fuel(points_below, 9);
        assert(deck().contains(base));
        assert(deck().contains(base + 1));
        assert(deck().contains(base + 2));
        assert(deck().contains(base + 3));
        assert(deck().contains(base + 4));
        assert(deck().contains(base + 5));
        assert(deck().contains(base + 6));
        assert(deck().contains(base + 7));
        assert(points_below(deck(), base + 8) == points_below(deck(), base) + 15);
    }
}

/// Whether `hands` are four hands of eight cards that share no card and so
/// hold the whole deck between them.
pub open spec fn freshly_dealt(hands: Seq<Set<nat>>) -> bool {
    &&& hands.len() == 4
    &&& forall|p: int| 0 <= p < 4 ==> (#[trigger] hands[p]).finite() && hands[p].len() == 8
    &&& forall|p: int, q: int|
        0 <= p < 4 && 0 <= q < 4 && p != q ==> (#[trigger] hands[p]).disjoint(#[trigger] hands[q])
    &&& hands[0].union(hands[1]).union(hands[2]).union(hands[3]) == deck()
}

/// The cards that are neither played nor in the observer's hand: those
/// that the observer does not see.
pub open spec fn undealt(observer_cards: Set<nat>, played: Set<nat>) -> Set<nat> {
    deck().difference(observer_cards).difference(played)
}

/// How many cards the three players other than `observer` are to hold
/// together.
pub open spec fn others_count(counts: Seq<usize>, observer: int) -> int {
    counts[(observer + 1) % 4] + counts[(observer + 2) % 4] + counts[(observer + 3) % 4]
}

/// Whether `hands` give the observer the hand `observer_cards` and deal the
/// cards of `pool` to the three other players: each card to one of them, and
/// to none more than `counts` allows.
pub open spec fn redealt(
    hands: Seq<Set<nat>>,
    observer: int,
    observer_cards: Set<nat>,
    pool: Set<nat>,
    counts: Seq<usize>,
) -> bool {
    &&& hands.len() == 4
    &&& hands[observer] == observer_cards
    &&& forall|p: int|
        0 <= p < 4 && p != observer ==> (#[trigger] hands[p]).subset_of(pool) && hands[p].finite()
            && hands[p].len() <= counts[p]
    &&& forall|p: int, q: int|
        0 <= p < 4 && 0 <= q < 4 && p != q && p != observer && q != observer ==> (
        #[trigger] hands[p]).disjoint(#[trigger] hands[q])
    &&& forall|i: nat|
        pool.contains(i) ==> exists|p: int|
            0 <= p < 4 && p != observer && (#[trigger] hands[p]).contains(i)
}

/// How many cards each of the four hands holds.
pub open spec fn hand_sizes(hands: Seq<Set<nat>>) -> Seq<usize> {
    Seq::new(4, |p: int| hands[p].len() as usize)
}

/// How many cards of `hand` have a deck index below `card`.
pub open spec fn held_below(hand: Set<nat>, card: nat) -> nat {
    hand.filter(|i: nat| i < card).len()
}

/// The weights of the three players other than `observer` for `card`,
/// together.
pub open spec fn others_weight(weights: Weights, observer: int, card: nat) -> int {
    weights.spec_weight((observer + 1) % 4, card) + weights.spec_weight((observer + 2) % 4, card)
        + weights.spec_weight((observer + 3) % 4, card)
}

/// Whether player `q` had weight zero for `card` or was to get no more
/// cards when `card` was dealt. The cards are dealt from the lowest deck
/// index up, so a player was still to get cards then who holds fewer lower
/// cards than `counts` allows.
pub open spec fn unlikely_or_full(
    hands: Seq<Set<nat>>,
    counts: Seq<usize>,
    weights: Weights,
    card: nat,
    q: int,
) -> bool {
    held_below(hands[q], card) >= counts[q] || weights.spec_weight(q, card) == 0
}

/// Whether `card` is where the weights allow it: with a player whose weight
/// for it is above zero; or with any player who was still to get cards,
/// because none of those had a weight above zero, or because the weights of
/// the three players do not add up within `u32`.
pub open spec fn dealt_by_weight(
    hands: Seq<Set<nat>>,
    observer: int,
    counts: Seq<usize>,
    weights: Weights,
    card: nat,
    p: int,
) -> bool {
    ||| weights.spec_weight(p, card) > 0
    ||| others_weight(weights, observer, card) > u32::MAX
    ||| {
        &&& unlikely_or_full(hands, counts, weights, card, (observer + 1) % 4)
        &&& unlikely_or_full(hands, counts, weights, card, (observer + 2) % 4)
        &&& unlikely_or_full(hands, counts, weights, card, (observer + 3) % 4)
    }
}

/// Whether the deal `hands` to the players other than `observer` follows
/// `weights`: every card is where the weights allow it.
pub open spec fn deal_follows(
    hands: Seq<Set<nat>>,
    observer: int,
    counts: Seq<usize>,
    weights: Weights,
) -> bool {
    forall|p: int, card: nat|
        0 <= p < 4 && p != observer && (#[trigger] hands[p].contains(card)) ==> dealt_by_weight(
            hands,
            observer,
            counts,
            weights,
            card,
            p,
        )
}

/// A round as the players see it on the table, with all four hands open.
pub struct RoundState {
    /// The player to play the next card.
    pub turn: nat,
    /// The dealer, who chooses the trump suit.
    pub dealer: nat,
    /// The cards in the hand of each of the four players.
    pub hands: Seq<Set<nat>>,
    /// The cards played so far in the round.
    pub played: Set<nat>,
    /// The points that each of the two teams took in finished tricks.
    pub scores: Seq<int>,
    /// The cards of the current trick, in the order of play.
    pub plays: Seq<Card>,
    /// The trump suit; `None` when the round is played without trump. While
    /// it is still to be chosen, what is left of the round before.
    pub trump: Option<Suit>,
    /// The card that holds the current trick, and who played it.
    pub winner: Option<(Card, usize)>,
    /// The points in the current trick.
    pub trick_score: int,
    /// Whether the trump suit is still to be chosen or the cards are played.
    pub phase: RoundPhase,
}

impl RoundState {
    /// The suit led in the current trick.
    pub open spec fn lead(self) -> Option<Suit> {
        if self.plays.len() > 0 {
            Some(self.plays[0].spec_suit())
        } else {
            None
        }
    }

    /// Whether player `p` has already played a card into the current trick.
    /// The players before the one to move have, as many as there are cards
    /// in the trick.
    pub open spec fn has_played(self, p: nat) -> bool {
        let back = (self.turn + 4 - p) % 4;
        1 <= back <= self.plays.len()
    }

    /// The player who played the card at place `k` of the current trick:
    /// the player to move comes behind the one who played the last card.
    pub open spec fn seat_of(self, k: int) -> nat {
        ((self.turn + 4 - self.plays.len() + k) % 4) as nat
    }

    /// All cards that are in a hand.
    pub open spec fn in_hands(self) -> Set<nat> {
        self.hands[0].union(self.hands[1]).union(self.hands[2]).union(self.hands[3])
    }

    /// What does not depend on who holds which card: the seats are seats at
    /// the table, the trick is well formed, not full, and made of cards that
    /// count as played, the player said to hold the trick is the one who
    /// played the card that holds it, and the points of the cards played are
    /// either taken by a team or still in the trick. Before the trump suit is chosen
    /// nothing has been played.
    pub open spec fn table_ok(self) -> bool {
        &&& self.turn < 4
        &&& self.dealer < 4
        &&& self.hands.len() == 4
        &&& self.scores.len() == 2
        &&& self.played.subset_of(deck())
        &&& table_wf(self.plays, self.trump, self.winner, self.trick_score)
        &&& self.plays.len() < 4
        &&& forall|k: int| 0 <= k < self.plays.len() ==> self.played.contains(
            (#[trigger] self.plays[k])@,
        )
        &&& self.winner matches Some((_, holder)) ==> holder == self.seat_of(
            winner_index(self.plays, self.trump),
        )
        &&& self.scores[0] >= 0
        &&& self.scores[1] >= 0
        &&& self.scores[0] + self.scores[1] + self.trick_score == points_in(self.played)
        &&& self.phase == RoundPhase::PickTrump ==> self.plays.len() == 0 && self.played
            == Set::<nat>::empty()
    }

    /// No card is in two hands or both in a hand and played, and every card
    /// of the deck is in a hand or played.
    pub open spec fn cards_partitioned(self) -> bool {
        &&& self.hands.len() == 4
        &&& forall|p: int, q: int|
            0 <= p < 4 && 0 <= q < 4 && p != q ==> (#[trigger] self.hands[p]).disjoint(
                #[trigger] self.hands[q],
            )
        &&& forall|p: int| 0 <= p < 4 ==> (#[trigger] self.hands[p]).disjoint(self.played)
        &&& self.in_hands().union(self.played) == deck()
    }

    /// A player who has played into the current trick holds one card fewer
    /// than the player to move, and every other player as many. So between
    /// tricks all four hold equally many.
    pub open spec fn hands_balanced(self) -> bool {
        &&& self.hands.len() == 4
        &&& forall|p: int|
            0 <= p < 4 ==> (#[trigger] self.hands[p]).len() + (if self.has_played(p as nat) {
                1nat
            } else {
                0nat
            }) == self.hands[self.turn as int].len()
    }

    /// What depends on who holds which card.
    pub open spec fn hands_ok(self) -> bool {
        self.cards_partitioned() && self.hands_balanced()
    }

    /// Everything that holds of a round before and after each action.
    pub open spec fn wf(self) -> bool {
        self.table_ok() && self.hands_ok()
    }

    /// The round is over once every card has been played.
    pub open spec fn is_terminal(self) -> bool {
        self.played == deck()
    }

    /// The player who acts next: the dealer while the trump suit is chosen,
    /// then the player whose turn it is.
    pub open spec fn mover(self) -> nat {
        match self.phase {
            RoundPhase::PickTrump => self.dealer,
            RoundPhase::PlayCards => self.turn,
        }
    }

    /// The cards that the player to move may play.
    pub open spec fn legal_cards(self) -> Set<nat> {
        legal_set(
            self.hands[self.turn as int],
            self.lead(),
            self.winner,
            self.trump,
            self.turn as usize,
        )
    }

    /// The slots of the trump choices open to the dealer: each suit of which
    /// the dealer holds a card, and always the choice to play without trump.
    pub open spec fn trump_choices(self) -> Set<nat> {
        Set::new(
            |slot: nat|
                slot == 4 || (slot < 4 && !self.hands[self.dealer as int].intersect(
                    suit_cards(Suit::of_ordinal(slot)),
                ).is_empty()),
        )
    }

    /// The slots of the actions open to the player who acts next.
    pub open spec fn legal_slots(self) -> Set<nat> {
        match self.phase {
            RoundPhase::PickTrump => self.trump_choices(),
            RoundPhase::PlayCards => self.legal_cards(),
        }
    }

    /// Whether the rules allow `action` now.
    pub open spec fn allows(self, action: Action) -> bool {
        match (self.phase, action) {
            (RoundPhase::PickTrump, Action::PickTrump(trump)) => self.trump_choices().contains(
                trump_slot(trump),
            ),
            (RoundPhase::PlayCards, Action::PlayCard(card)) => self.legal_cards().contains(card@),
            _ => false,
        }
    }

    /// The round once the trump suit is chosen.
    pub open spec fn pick(self, trump: Option<Suit>) -> RoundState {
        RoundState { trump, phase: RoundPhase::PlayCards, ..self }
    }

    /// The round once the player to move has played `card`. The fourth card
    /// of a trick ends it: its points go to the team of the player who holds
    /// it, who leads the next trick.
    pub open spec fn play(self, card: Card) -> RoundState {
        let mover = self.turn as int;
        let plays = self.plays.push(card);
        let winner = next_winner(self.winner, self.trump, card, self.turn as usize);
        let score = self.trick_score + card.points();
        let hands = self.hands.update(mover, self.hands[mover].remove(card@));
        let played = self.played.insert(card@);
        if plays.len() == 4 {
            let team = (winner.1 % 2) as int;
            RoundState {
                turn: winner.1 as nat,
                hands,
                played,
                scores: self.scores.update(team, self.scores[team] + score),
                plays: Seq::<Card>::empty(),
                winner: None,
                trick_score: 0,
                ..self
            }
        } else {
            RoundState {
                turn: ((self.turn + 1) % 4) as nat,
                hands,
                played,
                plays,
                winner: Some(winner),
                trick_score: score,
                ..self
            }
        }
    }

    /// The round once `action` is applied.
    pub open spec fn apply(self, action: Action) -> RoundState {
        match action {
            Action::PickTrump(trump) => self.pick(trump),
            Action::PlayCard(card) => self.play(card),
        }
    }

    /// The round once the actions of `actions` are applied, first to last.
    pub open spec fn apply_all(self, actions: Seq<Action>) -> RoundState
        decreases actions.len(),
    {
        if actions.len() == 0 {
            self
        } else {
            self.apply_all(actions.drop_last()).apply(actions.last())
        }
    }

    /// The hands and the cards played are finite, and together they are the
    /// 32 cards of the deck.
    pub proof fn lemma_card_count(self)
        requires
            self.cards_partitioned(),
        ensures
            self.played.finite(),
            forall|p: int| 0 <= p < 4 ==> (#[trigger] self.hands[p]).finite(),
            self.hands[0].len() + self.hands[1].len() + self.hands[2].len() + self.hands[3].len()
                + self.played.len() == 32,
    {
        lemma_below_finite(32);
        let h0 = self.hands[0];
        let h1 = self.hands[1];
        let h2 = self.hands[2];
        let h3 = self.hands[3];
        assert(h0.subset_of(deck()) && h1.subset_of(deck()) && h2.subset_of(deck())
            && h3.subset_of(deck()) && self.played.subset_of(deck())) by {
            assert forall|i: nat|
                h0.contains(i) || h1.contains(i) || h2.contains(i) || h3.contains(i)
                    || self.played.contains(i) implies deck().contains(i) by {
                assert(self.in_hands().union(self.played).contains(i));
            }
        }
        lemma_len_subset(h0, deck());
        lemma_len_subset(h1, deck());
        lemma_len_subset(h2, deck());
        lemma_len_subset(h3, deck());
        lemma_len_subset(self.played, deck());
        assert(h0.disjoint(h1));
        assert(h0.disjoint(h2));
        assert(h0.disjoint(h3));
        assert(h1.disjoint(h2));
        assert(h1.disjoint(h3));
        assert(h2.disjoint(h3));
        lemma_set_disjoint_lens(h0, h1);
        lemma_set_disjoint_lens(h0.union(h1), h2);
        lemma_set_disjoint_lens(h0.union(h1).union(h2), h3);
        lemma_set_disjoint_lens(self.in_hands(), self.played);
        assert forall|p: int| 0 <= p < 4 implies (#[trigger] self.hands[p]).finite() by {
            if p == 0 {
            } else if p == 1 {
            } else if p == 2 {
            } else {
            }
        }
    }

    /// A round is well formed when the cards have just been dealt, nothing
    /// has been played, no team has points, and the trump suit is still to
    /// be chosen.
    pub proof fn lemma_fresh_round(self)
        requires
            self.turn < 4,
            self.dealer < 4,
            freshly_dealt(self.hands),
            self.played == Set::<nat>::empty(),
            self.scores == seq![0int, 0int],
            self.plays == Seq::<Card>::empty(),
            self.winner is None,
            self.trick_score == 0,
            self.phase == RoundPhase::PickTrump,
        ensures
            self.wf(),
    {
        lemma_points_bounds(self.played, 32);
        assert(self.in_hands().union(self.played) =~= deck());
        assert forall|p: int| 0 <= p < 4 implies (#[trigger] self.hands[p]).len() + (
        if self.has_played(p as nat) {
            1nat
        } else {
            0nat
        }) == self.hands[self.turn as int].len() by {
            assert(!self.has_played(p as nat));
        }
    }

    /// Choosing the trump suit keeps a round well formed.
    pub proof fn lemma_pick_keeps_wf(self, trump: Option<Suit>)
        requires
            self.wf(),
            self.phase == RoundPhase::PickTrump,
        ensures
            self.pick(trump).wf(),
            !self.pick(trump).is_terminal(),
    {
        let next = self.pick(trump);
        assert forall|p: int| 0 <= p < 4 implies (#[trigger] next.hands[p]).len() + (
        if next.has_played(p as nat) {
            1nat
        } else {
            0nat
        }) == next.hands[next.turn as int].len() by {
            assert(self.has_played(p as nat) == next.has_played(p as nat));
        }
        assert(!deck().subset_of(Set::<nat>::empty())) by {
            assert(deck().contains(0));
        }
    }

    /// Playing a card that has not been played before keeps the table in
    /// order, whoever holds the card.
    pub proof fn lemma_play_keeps_table(self, card: Card)
        requires
            self.table_ok(),
            self.phase == RoundPhase::PlayCards,
            card@ < 32,
            !self.played.contains(card@),
        ensures
            self.play(card).table_ok(),
    {
        let next = self.play(card);
        let plays = self.plays.push(card);
        let winner = next_winner(self.winner, self.trump, card, self.turn as usize);
        lemma_table_push(self.plays, self.trump, self.winner, self.trick_score, card, self.turn as usize);
        assert(plays.drop_last() =~= self.plays);
        if self.plays.len() > 0 {
            crate::trick::lemma_winner_is_strongest(self.plays, self.trump);
            assert(plays[winner_index(self.plays, self.trump)] == self.plays[winner_index(
                self.plays,
                self.trump,
            )]);
        }
        lemma_points_insert(self.played, card@, 32);
        crate::trick::lemma_total_points_bounds(self.plays);
        assert forall|k: int| 0 <= k < next.plays.len() implies next.played.contains(
            (#[trigger] next.plays[k])@,
        ) by {
            if k < self.plays.len() {
                assert(self.played.contains(self.plays[k]@));
            }
        }
    }

    /// Playing a card from the hand of the player to move keeps the cards
    /// partitioned and the hands balanced.
    pub proof fn lemma_play_keeps_hands(self, card: Card)
        requires
            self.wf(),
            self.phase == RoundPhase::PlayCards,
            self.hands[self.turn as int].contains(card@),
        ensures
            self.play(card).hands_ok(),
            card@ < 32,
            !self.played.contains(card@),
    {
        let next = self.play(card);
        let mover = self.turn as int;
        self.lemma_card_count();
        assert(self.hands[mover].disjoint(self.played));
        assert(deck().contains(card@)) by {
            assert(self.in_hands().union(self.played).contains(card@));
        }
        assert forall|p: int| 0 <= p < 4 && p != mover implies next.hands[p] == self.hands[p]
            && !self.hands[p].contains(card@) by {
            assert(self.hands[p].disjoint(self.hands[mover]));
        }
        assert(next.in_hands().union(next.played) =~= deck()) by {
            assert forall|i: nat| deck().contains(i) implies next.in_hands().union(
                next.played,
            ).contains(i) by {
                assert(self.in_hands().union(self.played).contains(i));
            }
            assert forall|i: nat| next.in_hands().union(next.played).contains(i) implies deck().contains(
                i,
            ) by {
                if i != card@ {
                    assert(self.in_hands().union(self.played).contains(i));
                }
            }
        }
        assert forall|p: int, q: int| 0 <= p < 4 && 0 <= q < 4 && p != q implies (
        #[trigger] next.hands[p]).disjoint(#[trigger] next.hands[q]) by {
            assert(self.hands[p].disjoint(self.hands[q]));
        }
        assert forall|p: int| 0 <= p < 4 implies (#[trigger] next.hands[p]).disjoint(
            next.played,
        ) by {
            assert(self.hands[p].disjoint(self.played));
        }
        assert forall|p: int| 0 <= p < 4 implies (#[trigger] next.hands[p]).len() + (
        if next.has_played(p as nat) {
            1nat
        } else {
            0nat
        }) == next.hands[next.turn as int].len() by {
            self.lemma_balance_step(card, p);
        }
    }

    proof fn lemma_balance_step(self, card: Card, p: int)
        requires
            self.table_ok(),
            self.hands_balanced(),
            self.hands[self.turn as int].finite(),
            self.hands[self.turn as int].contains(card@),
            0 <= p < 4,
        ensures
            self.play(card).hands[p].len() + (if self.play(card).has_played(p as nat) {
                1nat
            } else {
                0nat
            }) == self.play(card).hands[self.play(card).turn as int].len(),
    {
        let next = self.play(card);
        let mover = self.turn as int;
        let size = self.hands[mover].len();
        assert(forall|q: int|
            0 <= q < 4 ==> (#[trigger] self.hands[q]).len() + (if self.has_played(q as nat) {
                1nat
            } else {
                0nat
            }) == size);
        assert(next.hands[mover].len() == size - 1);
        assert forall|q: int| 0 <= q < 4 && q != mover implies #[trigger] next.hands[q]
            == self.hands[q] by {}
        let after = next.turn as int;
        assert(0 <= after < 4);
        assert(self.hands[0].len() + (if self.has_played(0) { 1nat } else { 0nat }) == size);
        assert(self.hands[1].len() + (if self.has_played(1) { 1nat } else { 0nat }) == size);
        assert(self.hands[2].len() + (if self.has_played(2) { 1nat } else { 0nat }) == size);
        assert(self.hands[3].len() + (if self.has_played(3) { 1nat } else { 0nat }) == size);
    }

    /// When the round is over, no trick is open, every hand is empty, and the
    /// two teams have the 60 points of the deck between them.
    pub proof fn lemma_terminal(self)
        requires
            self.wf(),
            self.is_terminal(),
        ensures
            self.plays.len() == 0,
            self.scores[0] + self.scores[1] == 60,
            forall|p: int| 0 <= p < 4 ==> (#[trigger] self.hands[p]) == Set::<nat>::empty(),
    {
        self.lemma_card_count();
        lemma_below_finite(32);
        lemma_points_deck();
        assert(self.hands[0].len() == 0 && self.hands[1].len() == 0 && self.hands[2].len() == 0
            && self.hands[3].len() == 0);
        assert forall|p: int| 0 <= p < 4 implies (#[trigger] self.hands[p]) == Set::<nat>::empty() by {
            self.hands[p].lemma_len0_is_empty();
        }
        assert(self.hands[self.turn as int].len() == 0);
        if self.plays.len() > 0 {
            let before = ((self.turn + 3) % 4) as nat;
            assert(self.has_played(before));
            assert(self.hands[before as int].len() + 1 == 0);
        }
        assert(self.trick_score == 0);
    }

    /// While the round is not over, the player to move holds a card.
    pub proof fn lemma_mover_holds_cards(self)
        requires
            self.wf(),
            !self.is_terminal(),
        ensures
            self.hands[self.turn as int].len() > 0,
            !self.hands[self.turn as int].is_empty(),
    {
        self.lemma_card_count();
        lemma_below_finite(32);
        if self.played.len() == 32 {
            lemma_subset_equality(self.played, deck());
        }
        lemma_len_subset(self.played, deck());
        if self.hands[self.turn as int].len() == 0 {
            assert(self.hands[0].len() == 0);
            assert(self.hands[1].len() == 0);
            assert(self.hands[2].len() == 0);
            assert(self.hands[3].len() == 0);
        }
    }

    /// Between tricks, and before the trump suit is chosen, all four players
    /// hold equally many cards.
    pub proof fn lemma_equal_hands_between_tricks(self)
        requires
            self.wf(),
            self.plays.len() == 0,
        ensures
            forall|p: int, q: int|
                0 <= p < 4 && 0 <= q < 4 ==> (#[trigger] self.hands[p]).len()
                    == (#[trigger] self.hands[q]).len(),
            self.phase == RoundPhase::PickTrump ==> forall|p: int|
                0 <= p < 4 ==> (#[trigger] self.hands[p]).len() == 8,
    {
        self.lemma_card_count();
        assert forall|p: int| 0 <= p < 4 implies (#[trigger] self.hands[p]).len()
            == self.hands[self.turn as int].len() by {
            assert(!self.has_played(p as nat));
        }
        if self.phase == RoundPhase::PickTrump {
            assert(self.played.len() == 0);
            assert(self.hands[0].len() == self.hands[self.turn as int].len());
            assert(self.hands[1].len() == self.hands[self.turn as int].len());
            assert(self.hands[2].len() == self.hands[self.turn as int].len());
            assert(self.hands[3].len() == self.hands[self.turn as int].len());
        }
    }

    /// Applying an action that the rules allow keeps a round well formed.
    pub proof fn lemma_apply_keeps_wf(self, action: Action)
        requires
            self.wf(),
            self.allows(action),
        ensures
            self.apply(action).wf(),
    {
        match action {
            Action::PickTrump(trump) => {
                self.lemma_pick_keeps_wf(trump);
            },
            Action::PlayCard(card) => {
                self.lemma_legal_in_hand();
                self.lemma_play_keeps_hands(card);
                self.lemma_play_keeps_table(card);
            },
        }
    }

    /// A card that may be played is in the hand of the player to move; and
    /// some card may be played as long as that hand is not empty.
    pub proof fn lemma_legal_in_hand(self)
        ensures
            self.legal_cards().subset_of(self.hands[self.turn as int]),
            self.legal_cards().is_empty() <==> self.hands[self.turn as int].is_empty(),
    {
    }

    /// A player who holds a card of the led suit may play cards of that suit
    /// only.
    pub proof fn lemma_must_follow(self, suit: Suit)
        requires
            self.turn < 4,
            self.hands.len() == 4,
            self.lead() == Some(suit),
            !self.hands[self.turn as int].intersect(suit_cards(suit)).is_empty(),
        ensures
            self.legal_cards().subset_of(suit_cards(suit)),
            self.legal_cards().subset_of(self.hands[self.turn as int]),
    {
    }

    /// While the other team holds the trick, a player who can take it with a
    /// card that follows suit, or with any card where the hand holds none of
    /// the led suit, may play such cards only: where the holder is no trump,
    /// trumps and higher cards of the holder's suit, else higher trumps.
    pub proof fn lemma_must_overtake(self, held: Card, holder: usize)
        requires
            self.turn < 4,
            self.hands.len() == 4,
            self.winner == Some((held, holder)),
            holder % 2 != self.turn % 2,
            !following(self.hands[self.turn as int], self.lead()).intersect(
                overtaking(held@, self.trump),
            ).is_empty(),
        ensures
            self.legal_cards().subset_of(overtaking(held@, self.trump)),
            !self.legal_cards().is_empty(),
    {
    }

    /// A player whose own team holds the trick, or who leads, may play any
    /// card that follows suit.
    pub proof fn lemma_free_choice(self)
        requires
            self.turn < 4,
            self.hands.len() == 4,
            self.winner matches Some((_, holder)) ==> holder % 2 == self.turn % 2,
        ensures
            self.legal_cards() == following(self.hands[self.turn as int], self.lead()),
            self.lead() is None ==> self.legal_cards() == self.hands[self.turn as int],
    {
    }

    /// Dealing the cards that the observer does not see anew, so that every
    /// player holds as many cards as before, keeps a round well formed.
    pub proof fn lemma_redeal_keeps_wf(self, hands: Seq<Set<nat>>, observer: int, counts: Seq<usize>)
        requires
            self.wf(),
            0 <= observer < 4,
            counts.len() == 4,
            forall|p: int| 0 <= p < 4 ==> (#[trigger] counts[p]) == self.hands[p].len(),
            redealt(
                hands,
                observer,
                self.hands[observer],
                undealt(self.hands[observer], self.played),
                counts,
            ),
        ensures
            (RoundState { hands, ..self }).wf(),
            forall|p: int| 0 <= p < 4 ==> (#[trigger] hands[p]).len() == self.hands[p].len(),
    {
        let next = RoundState { hands, ..self };
        let pool = undealt(self.hands[observer], self.played);
        self.lemma_card_count();
        lemma_below_finite(32);
        let a = (observer + 1) % 4;
        let b = (observer + 2) % 4;
        let c = (observer + 3) % 4;
        assert(self.hands[observer].disjoint(self.played));
        assert(self.hands[a].disjoint(self.hands[observer]));
        assert(self.hands[b].disjoint(self.hands[observer]));
        assert(self.hands[c].disjoint(self.hands[observer]));
        assert(self.hands[a].disjoint(self.hands[b]));
        assert(self.hands[a].disjoint(self.hands[c]));
        assert(self.hands[b].disjoint(self.hands[c]));
        assert(self.hands[a].disjoint(self.played));
        assert(self.hands[b].disjoint(self.played));
        assert(self.hands[c].disjoint(self.played));
        let others = self.hands[a].union(self.hands[b]).union(self.hands[c]);
        assert(others =~= pool) by {
            assert forall|i: nat| pool.contains(i) implies others.contains(i) by {
                assert(self.in_hands().union(self.played).contains(i));
            }
            assert forall|i: nat| others.contains(i) implies pool.contains(i) by {
                assert(self.in_hands().union(self.played).contains(i));
            }
        }
        lemma_set_disjoint_lens(self.hands[a], self.hands[b]);
        lemma_set_disjoint_lens(self.hands[a].union(self.hands[b]), self.hands[c]);
        let dealt = hands[a].union(hands[b]).union(hands[c]);
        assert(hands[a].disjoint(hands[b]));
        assert(hands[a].disjoint(hands[c]));
        assert(hands[b].disjoint(hands[c]));
        assert(dealt =~= pool) by {
            assert forall|i: nat| pool.contains(i) implies dealt.contains(i) by {
                let p = choose|p: int|
                    0 <= p < 4 && p != observer && (#[trigger] hands[p]).contains(i);
                assert(p == a || p == b || p == c);
            }
        }
        lemma_set_disjoint_lens(hands[a], hands[b]);
        lemma_set_disjoint_lens(hands[a].union(hands[b]), hands[c]);
        assert(hands[a].len() == self.hands[a].len());
        assert(hands[b].len() == self.hands[b].len());
        assert(hands[c].len() == self.hands[c].len());
        assert forall|p: int| 0 <= p < 4 implies (#[trigger] hands[p]).len()
            == self.hands[p].len() by {
            assert(p == observer || p == a || p == b || p == c);
        }
        assert forall|p: int, q: int| 0 <= p < 4 && 0 <= q < 4 && p != q implies (
        #[trigger] next.hands[p]).disjoint(#[trigger] next.hands[q]) by {
            if p == observer {
                assert(hands[q].subset_of(pool));
            } else if q == observer {
                assert(hands[p].subset_of(pool));
            }
        }
        assert forall|p: int| 0 <= p < 4 implies (#[trigger] next.hands[p]).disjoint(
            next.played,
        ) by {
            if p != observer {
                assert(hands[p].subset_of(pool));
            }
        }
        assert(next.in_hands().union(next.played) =~= deck()) by {
            assert forall|i: nat| deck().contains(i) implies next.in_hands().union(
                next.played,
            ).contains(i) by {
                if !self.played.contains(i) && !self.hands[observer].contains(i) {
                    assert(pool.contains(i));
                    assert(dealt.contains(i));
                }
                assert(observer == 0 || observer == 1 || observer == 2 || observer == 3);
            }
            assert forall|i: nat| next.in_hands().union(next.played).contains(i) implies deck().contains(
                i,
            ) by {
                if hands[a].contains(i) || hands[b].contains(i) || hands[c].contains(i) {
                    assert(pool.contains(i));
                } else if hands[observer].contains(i) {
                    assert(self.in_hands().union(self.played).contains(i));
                }
                assert(observer == 0 || observer == 1 || observer == 2 || observer == 3);
            }
        }
        assert forall|p: int| 0 <= p < 4 implies (#[trigger] next.hands[p]).len() + (
        if next.has_played(p as nat) {
            1nat
        } else {
            0nat
        }) == next.hands[next.turn as int].len() by {
            assert(self.has_played(p as nat) == next.has_played(p as nat));
            assert(hands[next.turn as int].len() == self.hands[self.turn as int].len());
        }
    }

    /// A round between tricks is well formed when its table is in order, the
    /// observer's hand holds no card that was played, the other cards are
    /// dealt to the three other players, and all four are to hold as many
    /// cards as the observer.
    pub proof fn lemma_dealt_between_tricks(self, observer: int, counts: Seq<usize>)
        requires
            self.table_ok(),
            self.plays.len() == 0,
            0 <= observer < 4,
            counts.len() == 4,
            self.hands[observer].subset_of(deck()),
            self.hands[observer].disjoint(self.played),
            redealt(
                self.hands,
                observer,
                self.hands[observer],
                undealt(self.hands[observer], self.played),
                counts,
            ),
            forall|p: int| 0 <= p < 4 ==> (#[trigger] counts[p]) == self.hands[observer].len(),
            3 * self.hands[observer].len() == undealt(self.hands[observer], self.played).len(),
        ensures
            self.wf(),
    {
        let hands = self.hands;
        let pool = undealt(hands[observer], self.played);
        lemma_below_finite(32);
        lemma_len_subset(hands[observer], deck());
        let a = (observer + 1) % 4;
        let b = (observer + 2) % 4;
        let c = (observer + 3) % 4;
        let dealt = hands[a].union(hands[b]).union(hands[c]);
        assert(hands[a].disjoint(hands[b]));
        assert(hands[a].disjoint(hands[c]));
        assert(hands[b].disjoint(hands[c]));
        assert(hands[a].subset_of(pool) && hands[b].subset_of(pool) && hands[c].subset_of(pool));
        assert(dealt =~= pool) by {
            assert forall|i: nat| pool.contains(i) implies dealt.contains(i) by {
                let p = choose|p: int|
                    0 <= p < 4 && p != observer && (#[trigger] hands[p]).contains(i);
                assert(p == a || p == b || p == c);
            }
        }
        lemma_set_disjoint_lens(hands[a], hands[b]);
        lemma_set_disjoint_lens(hands[a].union(hands[b]), hands[c]);
        assert(counts[a] == hands[observer].len() && counts[b] == hands[observer].len()
            && counts[c] == hands[observer].len());
        assert(hands[a].len() == hands[observer].len());
        assert(hands[b].len() == hands[observer].len());
        assert(hands[c].len() == hands[observer].len());
        assert forall|p: int, q: int| 0 <= p < 4 && 0 <= q < 4 && p != q implies (
        #[trigger] self.hands[p]).disjoint(#[trigger] self.hands[q]) by {
            if p == observer {
                assert(hands[q].subset_of(pool));
            } else if q == observer {
                assert(hands[p].subset_of(pool));
            }
        }
        assert forall|p: int| 0 <= p < 4 implies (#[trigger] self.hands[p]).disjoint(
            self.played,
        ) by {
            if p != observer {
                assert(hands[p].subset_of(pool));
            }
        }
        assert(self.in_hands().union(self.played) =~= deck()) by {
            assert forall|i: nat| deck().contains(i) implies self.in_hands().union(
                self.played,
            ).contains(i) by {
                if !self.played.contains(i) && !hands[observer].contains(i) {
                    assert(pool.contains(i));
                    assert(dealt.contains(i));
                }
                assert(observer == 0 || observer == 1 || observer == 2 || observer == 3);
            }
            assert forall|i: nat| self.in_hands().union(self.played).contains(i) implies deck().contains(
                i,
            ) by {
                if hands[a].contains(i) || hands[b].contains(i) || hands[c].contains(i) {
                    assert(pool.contains(i));
                }
                assert(observer == 0 || observer == 1 || observer == 2 || observer == 3);
            }
        }
        assert forall|p: int| 0 <= p < 4 implies (#[trigger] self.hands[p]).len() + (
        if self.has_played(p as nat) {
            1nat
        } else {
            0nat
        }) == self.hands[self.turn as int].len() by {
            assert(!self.has_played(p as nat));
            assert(p == observer || p == a || p == b || p == c);
            let t = self.turn as int;
            assert(t == observer || t == a || t == b || t == c);
        }
    }

    /// The round in which player `a` has given card `x` to player `b` and got
    /// card `y` for it.
    pub open spec fn exchange(self, a: int, x: nat, b: int, y: nat) -> RoundState {
        RoundState {
            hands: self.hands.update(a, self.hands[a].remove(x).insert(y)).update(
                b,
                self.hands[b].remove(y).insert(x),
            ),
            ..self
        }
    }

    /// Two players who exchange a card each leave the round well formed, and
    /// every hand as large as it was.
    pub proof fn lemma_exchange_keeps_wf(self, a: int, x: nat, b: int, y: nat)
        requires
            self.wf(),
            0 <= a < 4,
            0 <= b < 4,
            a != b,
            self.hands[a].contains(x),
            self.hands[b].contains(y),
        ensures
            self.exchange(a, x, b, y).wf(),
            forall|p: int|
                0 <= p < 4 ==> (#[trigger] self.exchange(a, x, b, y).hands[p]).len()
                    == self.hands[p].len(),
            forall|p: int|
                0 <= p < 4 && p != a && p != b ==> #[trigger] self.exchange(a, x, b, y).hands[p]
                    == self.hands[p],
    {
        let next = self.exchange(a, x, b, y);
        self.lemma_card_count();
        assert(self.hands[a].disjoint(self.hands[b]));
        assert(self.hands[a].disjoint(self.played));
        assert(self.hands[b].disjoint(self.played));
        assert(x != y);
        assert forall|p: int| 0 <= p < 4 && p != a && p != b implies #[trigger] next.hands[p]
            == self.hands[p] && !self.hands[p].contains(x) && !self.hands[p].contains(y) by {
            assert(self.hands[p].disjoint(self.hands[a]));
            assert(self.hands[p].disjoint(self.hands[b]));
        }
        assert(next.hands[a] == self.hands[a].remove(x).insert(y));
        assert(next.hands[b] == self.hands[b].remove(y).insert(x));
        assert forall|p: int| 0 <= p < 4 implies (#[trigger] next.hands[p]).len()
            == self.hands[p].len() by {
            if p == a {
            } else if p == b {
            } else {
            }
        }
        assert forall|p: int, q: int| 0 <= p < 4 && 0 <= q < 4 && p != q implies (
        #[trigger] next.hands[p]).disjoint(#[trigger] next.hands[q]) by {
            assert(self.hands[p].disjoint(self.hands[q]));
            assert(self.hands[p].disjoint(self.hands[a]) || p == a);
            assert(self.hands[p].disjoint(self.hands[b]) || p == b);
            assert(self.hands[q].disjoint(self.hands[a]) || q == a);
            assert(self.hands[q].disjoint(self.hands[b]) || q == b);
        }
        assert forall|p: int| 0 <= p < 4 implies (#[trigger] next.hands[p]).disjoint(
            next.played,
        ) by {
            assert(self.hands[p].disjoint(self.played));
        }
        assert(next.in_hands().union(next.played) =~= deck()) by {
            assert forall|i: nat| deck().contains(i) implies next.in_hands().union(
                next.played,
            ).contains(i) by {
                assert(self.in_hands().union(self.played).contains(i));
                assert(a == 0 || a == 1 || a == 2 || a == 3);
                assert(b == 0 || b == 1 || b == 2 || b == 3);
            }
            assert forall|i: nat| next.in_hands().union(next.played).contains(i) implies deck().contains(
                i,
            ) by {
                assert(self.in_hands().union(self.played).contains(x));
                assert(self.in_hands().union(self.played).contains(y));
                if i != x && i != y {
                    assert(self.in_hands().union(self.played).contains(i));
                }
            }
        }
        assert forall|p: int| 0 <= p < 4 implies (#[trigger] next.hands[p]).len() + (
        if next.has_played(p as nat) {
            1nat
        } else {
            0nat
        }) == next.hands[next.turn as int].len() by {
            assert(self.has_played(p as nat) == next.has_played(p as nat));
            assert(next.hands[next.turn as int].len() == self.hands[self.turn as int].len());
        }
    }

    /// Two rounds that are equal stay equal under the same actions.
    pub proof fn lemma_apply_deterministic(self, other: RoundState, actions: Seq<Action>)
        requires
            self == other,
        ensures
            self.apply_all(actions) == other.apply_all(actions),
    {
    }
}

} // verus!
