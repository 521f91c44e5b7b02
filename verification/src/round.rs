use vstd::prelude::*;
use crate::action::Action;
use crate::action_collection::ActionCollection;
use crate::bits::{bits_of, lemma_bits_algebra, lemma_bits_single};
use crate::card::Card;
use crate::model::{
    deal_follows, dealt_by_weight, freshly_dealt, hand_sizes, held_below, lemma_points_bounds,
    lemma_points_deck, others_count, points_below, points_in, redealt, undealt,
    unlikely_or_full, RoundState,
};
pub use crate::model::RoundPhase;
use crate::random::{mod_usize, pick_uniform, pick_weighted, weight_sum};
use crate::weights::Weights;
use crate::stack::{deck, suit_cards, Stack};
use crate::suit::Suit;
use crate::trick::{lemma_total_points_bounds, Trick};

verus! {

/// How many of the deck positions from `from` up fall to pile `pile`: pile 0
/// takes positions 8 to 15, pile 1 positions 16 to 23, pile 2 the rest.
spec fn dealt_count(from: int, pile: int) -> int {
    let low = 8 * (pile + 1);
    if from >= low + 8 {
        0
    } else if from <= low {
        8
    } else {
        low + 8 - from
    }
}

/// The player `step` seats behind `observer`, if still to get a card.
spec fn needy_one(observer: int, counts: Seq<usize>, step: int) -> Seq<usize> {
    let player = (observer + step) % 4;
    if counts[player] > 0 {
        seq![player as usize]
    } else {
        Seq::empty()
    }
}

/// The players other than `observer` who are still to get a card, in the
/// order of play behind the observer.
spec fn needy(observer: int, counts: Seq<usize>) -> Seq<usize> {
    needy_one(observer, counts, 1) + needy_one(observer, counts, 2) + needy_one(
        observer,
        counts,
        3,
    )
}

proof fn lemma_weight_sum_concat(a: Seq<usize>, b: Seq<usize>, weights: Seq<u32>)
    ensures
        weight_sum(a + b, weights) == weight_sum(a, weights) + weight_sum(b, weights),
    decreases b.len(),
{
    if b.len() == 0 {
        assert(a + b =~= a);
    } else {
        lemma_weight_sum_concat(a, b.drop_last(), weights);
        assert((a + b).drop_last() =~= a + b.drop_last());
        assert((a + b).last() == b.last());
    }
}

proof fn lemma_needy(observer: int, counts: Seq<usize>, weights: Seq<u32>)
    requires
        0 <= observer < 4,
    ensures
        forall|k: int|
            0 <= k < needy(observer, counts).len() ==> (#[trigger] needy(observer, counts)[k]) < 4
                && needy(observer, counts)[k] != observer && counts[needy(observer, counts)[k] as int]
                > 0,
        others_count(counts, observer) > 0 ==> needy(observer, counts).len() > 0,
        weight_sum(needy(observer, counts), weights) <= weights[(observer + 1) % 4] + weights[(
        observer + 2) % 4] + weights[(observer + 3) % 4],
        weight_sum(needy(observer, counts), weights) == 0 ==> {
            &&& counts[(observer + 1) % 4] > 0 ==> weights[(observer + 1) % 4] == 0
            &&& counts[(observer + 2) % 4] > 0 ==> weights[(observer + 2) % 4] == 0
            &&& counts[(observer + 3) % 4] > 0 ==> weights[(observer + 3) % 4] == 0
        },
{
    let first = needy_one(observer, counts, 1);
    let second = needy_one(observer, counts, 2);
    let third = needy_one(observer, counts, 3);
    lemma_weight_sum_concat(first, second, weights);
    lemma_weight_sum_concat(first + second, third, weights);
    reveal_with_fuel(weight_sum, 2);
    assert forall|step: int| 1 <= step <= 3 implies weight_sum(
        #[trigger] needy_one(observer, counts, step),
        weights,
    ) == if counts[(observer + step) % 4] > 0 {
        weights[(observer + step) % 4] as int
    } else {
        0
    } by {
        let one = needy_one(observer, counts, step);
        if counts[(observer + step) % 4] > 0 {
            assert(one.drop_last() =~= Seq::<usize>::empty());
        }
    }
    assert(weight_sum(first, weights) >= 0);
    assert(weight_sum(second, weights) >= 0);
    assert(weight_sum(third, weights) >= 0);
}

/// The hands as sets of deck indices.
spec fn views(hands: [Stack; 4]) -> Seq<Set<nat>> {
    Seq::new(4, |p: int| hands[p]@)
}

/// What the cards of `cards` are worth together.
pub fn points_held(cards: Stack) -> (r: i16)
    ensures
        r == points_in(cards@),
        0 <= r <= 60,
{
    let mut total: i16 = 0;
    let mut index: u32 = 0;
    while index < 32
        invariant
            index <= 32,
            total == points_below(cards@, index as nat),
            0 <= total <= 5 * index,
        decreases 32 - index,
    {
        if cards.has_index(index) {
            let card = Card::new(index);
            total = total + card.score();
        }
        index += 1;
    }
    proof {
        lemma_points_bounds(cards@, 32);
        lemma_points_deck();
    }
    total
}

/// One round of the game: the deal, the choice of the trump suit, and eight
/// tricks.
#[derive(Clone, Copy)]
pub struct Round {
    turn: usize,
    dealer: usize,
    player_cards: [Stack; 4],
    played_cards: Stack,
    scores: [i16; 2],
    trick: Trick,
    phase: RoundPhase,
}

impl View for Round {
    type V = RoundState;

    closed spec fn view(&self) -> RoundState {
        RoundState {
            turn: self.turn as nat,
            dealer: self.dealer as nat,
            hands: Seq::new(4, |p: int| self.player_cards[p]@),
            played: self.played_cards@,
            scores: Seq::new(2, |team: int| self.scores[team] as int),
            plays: self.trick.plays(),
            trump: self.trick.spec_trump(),
            winner: self.trick.spec_winner(),
            trick_score: self.trick.spec_score(),
            phase: self.phase,
        }
    }
}

impl Round {
    /// Whether the round is one that play can reach: see [`RoundState::wf`].
    pub open spec fn wf(&self) -> bool {
        self@.wf()
    }

    /// The trick on the table.
    pub closed spec fn spec_trick(&self) -> Trick {
        self.trick
    }

    /// The hands, the cards played and the trick are as the view shows them.
    pub proof fn lemma_view(&self)
        ensures
            self@.hands.len() == 4,
            self@.scores.len() == 2,
            self@.played.subset_of(deck()),
            self@.played.finite(),
            forall|p: int|
                0 <= p < 4 ==> (#[trigger] self@.hands[p]).subset_of(deck())
                    && self@.hands[p].finite(),
            self@.plays == self.spec_trick().plays(),
            self@.trump == self.spec_trick().spec_trump(),
            self@.winner == self.spec_trick().spec_winner(),
            self@.trick_score == self.spec_trick().spec_score(),
    {
        self.played_cards.lemma_view();
        assert forall|p: int| 0 <= p < 4 implies (#[trigger] self@.hands[p]).subset_of(deck())
            && self@.hands[p].finite() by {
            self.player_cards[p].lemma_view();
        }
    }

    /// A round with the cards dealt at random, in which `dealer` is to choose
    /// the trump suit and the player behind the dealer leads the first trick.
    pub fn new(dealer: usize) -> (r: Round)
        requires
            dealer < 4,
        ensures
            r.wf(),
            r@.dealer == dealer,
            r@.turn == (dealer + 1) % 4,
            r@.phase == RoundPhase::PickTrump,
            freshly_dealt(r@.hands),
            r@.played == Set::<nat>::empty(),
            r@.scores == seq![0int, 0int],
            r@.plays == Seq::<Card>::empty(),
            r@.trump is None,
    {
        let mut round = Round::default();
        round.set_dealer(dealer);
        round.deal_cards();
        proof {
            assert(round@.scores =~= seq![0int, 0int]);
            round@.lemma_fresh_round();
        }
        round
    }

    fn set_dealer(&mut self, dealer: usize)
        requires
            dealer < 4,
        ensures
            final(self)@ == (RoundState {
                dealer: dealer as nat,
                turn: ((dealer + 1) % 4) as nat,
                ..old(self)@
            }),
    {
        self.dealer = dealer;
        self.turn = (dealer + 1) % 4;
        proof {
            let next = RoundState {
                dealer: dealer as nat,
                turn: ((dealer + 1) % 4) as nat,
                ..old(self)@
            };
            assert(self@.hands =~= next.hands);
            assert(self@.scores =~= next.scores);
        }
    }

    /// Passes the deal to the next player and starts a new round: fresh
    /// hands, nothing played, no points, the trump suit to be chosen. Until
    /// it is chosen the trump suit of the round before stays in place.
    pub fn setup_for_next_round(&mut self)
        requires
            old(self)@.dealer < 4,
        ensures
            final(self).wf(),
            final(self)@.dealer == (old(self)@.dealer + 1) % 4,
            final(self)@.turn == (final(self)@.dealer + 1) % 4,
            final(self)@.phase == RoundPhase::PickTrump,
            freshly_dealt(final(self)@.hands),
            final(self)@.played == Set::<nat>::empty(),
            final(self)@.scores == seq![0int, 0int],
            final(self)@.plays == Seq::<Card>::empty(),
            final(self)@.trump == old(self)@.trump,
    {
        let next_dealer = (self.dealer + 1) % 4;
        self.set_dealer(next_dealer);
        self.deal_cards();
        self.played_cards = Stack::default();
        self.scores = [0; 2];
        self.trick.clear();
        self.phase = RoundPhase::PickTrump;
        proof {
            assert(self@.scores =~= seq![0int, 0int]);
            self@.lemma_fresh_round();
        }
    }

    fn deal_cards(&mut self)
        ensures
            freshly_dealt(final(self)@.hands),
            final(self)@ == (RoundState { hands: final(self)@.hands, ..old(self)@ }),
    {
        let mut indices: [u32; 32] = [0u32; 32];
        let mut k: usize = 0;
        while k < 32
            invariant
                k <= 32,
                forall|a: int| 0 <= a < k ==> indices[a] == a,
            decreases 32 - k,
        {
            indices[k] = k as u32;
            k += 1;
        }
        let mut cards: [Stack; 3] = [Stack::default(); 3];
        let mut i: usize = 32;
        proof {
            assert forall|t: int| 0 <= t < 3 implies (#[trigger] cards[t])@.len() == dealt_count(
                32,
                t,
            ) by {}
        }
        while i > 8
            invariant
                8 <= i <= 32,
                forall|a: int| 0 <= a < 32 ==> (#[trigger] indices[a]) < 32,
                forall|a: int, b: int|
                    0 <= a < b < 32 ==> (#[trigger] indices[a]) != (#[trigger] indices[b]),
                forall|t: int, v: nat|
                    0 <= t < 3 ==> ((#[trigger] cards[t]@.contains(v)) <==> exists|p: int|
                        i <= p < 32 && p / 8 - 1 == t && #[trigger] indices[p] == v),
                forall|t: int| 0 <= t < 3 ==> (#[trigger] cards[t])@.len() == dealt_count(i as int, t),
            decreases i,
        {
            let ghost before = indices;
            let ghost piles = cards;
            i -= 1;
            let j = mod_usize(i + 1);
            let moved = indices[i];
            indices[i] = indices[j];
            indices[j] = moved;
            let pile = i / 8 - 1;
            let index: u32 = indices[i];
            let mut stack = cards[pile];
            proof {
                stack.lemma_view();
                if stack@.contains(index as nat) {
                    let p = choose|p: int|
                        i + 1 <= p < 32 && p / 8 - 1 == pile && #[trigger] before[p] == index;
                    assert(before[p] == before[j as int]);
                }
            }
            stack.push(Card::new(index));
            cards[pile] = stack;
            proof {
                assert forall|t: int, v: nat| 0 <= t < 3 implies ((#[trigger] cards[t]@.contains(v))
                    <==> exists|p: int|
                    i <= p < 32 && p / 8 - 1 == t && #[trigger] indices[p] == v) by {
                    if cards[t]@.contains(v) {
                        if t == pile && v == index {
                            assert(i <= i < 32 && i as int / 8 - 1 == t && indices[i as int] == v);
                        } else {
                            assert(piles[t]@.contains(v));
                            let p = choose|p: int|
                                i + 1 <= p < 32 && p / 8 - 1 == t && #[trigger] before[p] == v;
                            assert(indices[p] == before[p]);
                        }
                    }
                    if exists|p: int| i <= p < 32 && p / 8 - 1 == t && #[trigger] indices[p] == v {
                        let p = choose|p: int|
                            i <= p < 32 && p / 8 - 1 == t && #[trigger] indices[p] == v;
                        if p == i {
                        } else {
                            assert(indices[p] == before[p]);
                            assert(piles[t]@.contains(v));
                        }
                    }
                }
                assert forall|t: int| 0 <= t < 3 implies (#[trigger] cards[t])@.len()
                    == dealt_count(i as int, t) by {
                    if t != pile {
                        assert(cards[t] == piles[t]);
                    }
                }
            }
        }
        let first = cards[0];
        let second = cards[1];
        let third = cards[2];
        let fourth = Stack::all().symmetric_difference(first).symmetric_difference(
            second,
        ).symmetric_difference(third);
        proof {
            first.lemma_view();
            second.lemma_view();
            third.lemma_view();
            fourth.lemma_view();
            crate::bits::lemma_below_finite(32);
            assert(first@.disjoint(second@) && first@.disjoint(third@) && second@.disjoint(
                third@,
            )) by {
                assert forall|v: nat| !(first@.contains(v) && second@.contains(v)) && !(
                first@.contains(v) && third@.contains(v)) && !(second@.contains(v)
                    && third@.contains(v)) by {
                    if cards[0]@.contains(v) && cards[1]@.contains(v) {
                        let p = choose|p: int|
                            8 <= p < 32 && p / 8 - 1 == 0 && #[trigger] indices[p] == v;
                        let q = choose|q: int|
                            8 <= q < 32 && q / 8 - 1 == 1 && #[trigger] indices[q] == v;
                        assert(indices[p] != indices[q]);
                    }
                    if cards[0]@.contains(v) && cards[2]@.contains(v) {
                        let p = choose|p: int|
                            8 <= p < 32 && p / 8 - 1 == 0 && #[trigger] indices[p] == v;
                        let q = choose|q: int|
                            8 <= q < 32 && q / 8 - 1 == 2 && #[trigger] indices[q] == v;
                        assert(indices[p] != indices[q]);
                    }
                    if cards[1]@.contains(v) && cards[2]@.contains(v) {
                        let p = choose|p: int|
                            8 <= p < 32 && p / 8 - 1 == 1 && #[trigger] indices[p] == v;
                        let q = choose|q: int|
                            8 <= q < 32 && q / 8 - 1 == 2 && #[trigger] indices[q] == v;
                        assert(indices[p] != indices[q]);
                    }
                }
            }
            let dealt = first@.union(second@).union(third@);
            assert(fourth@ =~= deck().difference(dealt));
            vstd::set_lib::lemma_set_disjoint_lens(first@, second@);
            vstd::set_lib::lemma_set_disjoint_lens(first@.union(second@), third@);
            assert(dealt.subset_of(deck()));
            vstd::set_lib::lemma_len_difference(deck(), dealt);
            vstd::set_lib::lemma_set_disjoint_lens(dealt, fourth@);
            assert(dealt.union(fourth@) =~= deck());
            assert(cards[0]@.len() == dealt_count(8, 0));
            assert(cards[1]@.len() == dealt_count(8, 1));
            assert(cards[2]@.len() == dealt_count(8, 2));
        }
        self.player_cards[0] = first;
        self.player_cards[1] = second;
        self.player_cards[2] = third;
        self.player_cards[3] = fourth;
        proof {
            let next = RoundState { hands: self@.hands, ..old(self)@ };
            assert(self@.scores =~= next.scores);
            assert(self@.hands[0] == first@);
            assert(self@.hands[1] == second@);
            assert(self@.hands[2] == third@);
            assert(self@.hands[3] == fourth@);
            assert forall|p: int| 0 <= p < 4 implies (#[trigger] self@.hands[p]).finite()
                && self@.hands[p].len() == 8 by {
                if p == 0 {
                } else if p == 1 {
                } else if p == 2 {
                } else {
                }
            }
            assert forall|p: int, q: int| 0 <= p < 4 && 0 <= q < 4 && p != q implies (
            #[trigger] self@.hands[p]).disjoint(#[trigger] self@.hands[q]) by {
                if p == 0 {
                } else if p == 1 {
                } else if p == 2 {
                } else {
                }
            }
        }
    }

    /// Whether a round can be set up between tricks from what player 0 sees:
    /// the seats are seats at the table, no card is both played and in the
    /// observer's hand, every player holds as many cards as the observer and
    /// together they hold all that was not played, the teams' points are
    /// those of the cards played, and before the trump suit is chosen nothing
    /// has been played.
    pub open spec fn observation_ok(
        observer_cards: Set<nat>,
        played_cards: Set<nat>,
        player_card_counts: Seq<usize>,
        dealer: usize,
        turn: usize,
        phase: RoundPhase,
        scores: Seq<i16>,
    ) -> bool {
        &&& dealer < 4
        &&& turn < 4
        &&& observer_cards.disjoint(played_cards)
        &&& forall|p: int|
            0 <= p < 4 ==> (#[trigger] player_card_counts[p]) == observer_cards.len()
        &&& 3 * observer_cards.len() == undealt(observer_cards, played_cards).len()
        &&& scores[0] >= 0
        &&& scores[1] >= 0
        &&& scores[0] + scores[1] == points_in(played_cards)
        &&& phase == RoundPhase::PickTrump ==> played_cards == Set::<nat>::empty()
    }

    /// A round between tricks as player 0 sees it: with the hand
    /// `observer_cards`, the cards `played_cards` played, and the seats, the
    /// phase, the trump suit and the points as given. The other cards are
    /// dealt at random to the three other players, to none more than
    /// `player_card_counts` allows, which must leave room for all of them.
    pub fn from_observer(
        observer_cards: Stack,
        played_cards: Stack,
        player_card_counts: [usize; 4],
        dealer: usize,
        turn: usize,
        phase: RoundPhase,
        trump: Option<Suit>,
        scores: [i16; 2],
    ) -> (r: Round)
        requires
            others_count(player_card_counts@, 0) >= undealt(observer_cards@, played_cards@).len(),
        ensures
            r@.turn == turn,
            r@.dealer == dealer,
            r@.phase == phase,
            r@.trump == trump,
            r@.scores == seq![scores[0] as int, scores[1] as int],
            r@.played == played_cards@,
            r@.plays == Seq::<Card>::empty(),
            r@.winner is None,
            r@.trick_score == 0,
            redealt(
                r@.hands,
                0,
                observer_cards@,
                undealt(observer_cards@, played_cards@),
                player_card_counts@,
            ),
            Self::observation_ok(
                observer_cards@,
                played_cards@,
                player_card_counts@,
                dealer,
                turn,
                phase,
                scores@,
            ) ==> r.wf(),
    {
        let observer: usize = 0;
        let weights = Weights::uniform();
        let mut round = Round::default().randomize_for(
            observer,
            observer_cards,
            played_cards,
            player_card_counts,
            &weights,
        );
        round.turn = turn;
        round.dealer = dealer;
        round.phase = phase;
        round.scores = scores;
        round.played_cards = played_cards;
        round.trick.set_trump(trump);
        proof {
            assert(round@.scores =~= seq![scores[0] as int, scores[1] as int]);
            observer_cards.lemma_view();
            played_cards.lemma_view();
            if Self::observation_ok(
                observer_cards@,
                played_cards@,
                player_card_counts@,
                dealer,
                turn,
                phase,
                scores@,
            ) {
                round@.lemma_dealt_between_tricks(0, player_card_counts@);
            }
        }
        round
    }

    /// The players other than `observer` who are still to get a card, in the
    /// order of play behind the observer.
    fn players_in_need(observer: usize, counts: &[usize; 4]) -> (r: Vec<usize>)
        requires
            observer < 4,
        ensures
            r@ == needy(observer as int, counts@),
    {
        let mut players: Vec<usize> = Vec::new();
        let mut i: usize = 1;
        while i <= 3
            invariant
                1 <= i <= 4,
                observer < 4,
                i == 1 ==> players@ == Seq::<usize>::empty(),
                i == 2 ==> players@ == needy_one(observer as int, counts@, 1),
                i == 3 ==> players@ == needy_one(observer as int, counts@, 1) + needy_one(
                    observer as int,
                    counts@,
                    2,
                ),
                i == 4 ==> players@ == needy(observer as int, counts@),
            decreases 4 - i,
        {
            let player = (observer + i) % 4;
            let ghost before = players@;
            if counts[player] > 0 {
                players.push(player);
            }
            proof {
                let one = needy_one(observer as int, counts@, i as int);
                assert(players@ =~= before + one);
                if i == 1 {
                    assert(before + one =~= one);
                }
            }
            i += 1;
        }
        players
    }

    fn randomize_for(
        &self,
        observer: usize,
        observer_cards: Stack,
        played_cards: Stack,
        player_card_counts: [usize; 4],
        weights: &Weights,
    ) -> (r: Round)
        requires
            observer < 4,
            others_count(player_card_counts@, observer as int) >= undealt(
                observer_cards@,
                played_cards@,
            ).len(),
        ensures
            r@ == (RoundState { hands: r@.hands, ..self@ }),
            redealt(
                r@.hands,
                observer as int,
                observer_cards@,
                undealt(observer_cards@, played_cards@),
                player_card_counts@,
            ),
            deal_follows(r@.hands, observer as int, player_card_counts@, *weights),
    {
        let ghost pool = undealt(observer_cards@, played_cards@);
        let mut round = *self;
        let mut cards_to_deal = Stack::all().difference(observer_cards).difference(played_cards);
        let mut counts = player_card_counts;
        let empty = Stack::default();
        let mut hands: [Stack; 4] = [empty, empty, empty, empty];
        proof {
            observer_cards.lemma_view();
            played_cards.lemma_view();
            cards_to_deal.lemma_view();
            assert(cards_to_deal@ =~= pool);
        }
        while !cards_to_deal.is_empty()
            invariant
                observer < 4,
                pool == undealt(observer_cards@, played_cards@),
                cards_to_deal@.subset_of(pool),
                cards_to_deal@.finite(),
                forall|p: int|
                    0 <= p < 4 ==> (#[trigger] hands[p])@.subset_of(pool) && hands[p]@.finite()
                        && hands[p]@.disjoint(cards_to_deal@),
                hands[observer as int]@ == Set::<nat>::empty(),
                forall|p: int, q: int|
                    0 <= p < 4 && 0 <= q < 4 && p != q ==> (#[trigger] hands[p])@.disjoint(
                        (#[trigger] hands[q])@,
                    ),
                forall|i: nat|
                    pool.contains(i) ==> cards_to_deal@.contains(i) || exists|p: int|
                        0 <= p < 4 && p != observer && (#[trigger] hands[p])@.contains(i),
                forall|p: int|
                    0 <= p < 4 && p != observer ==> (#[trigger] hands[p])@.len() + counts[p]
                        == player_card_counts[p],
                others_count(counts@, observer as int) >= cards_to_deal@.len(),
                forall|p: int, i: nat, j: nat|
                    0 <= p < 4 && (#[trigger] hands[p]@.contains(i)) && (
                    #[trigger] cards_to_deal@.contains(j)) ==> i < j,
                deal_follows(views(hands), observer as int, player_card_counts@, *weights),
            decreases cards_to_deal@.len(),
        {
            let ghost before = cards_to_deal;
            let ghost dealt = hands;
            let ghost needs = counts;
            let card = cards_to_deal.pop_lowest().unwrap();
            let players = Self::players_in_need(observer, &counts);
            let likelihoods: [u32; 4] = [
                weights.weight(0, card),
                weights.weight(1, card),
                weights.weight(2, card),
                weights.weight(3, card),
            ];
            proof {
                lemma_needy(observer as int, counts@, likelihoods@);
            }
            let weighted = pick_weighted(&players, &likelihoods);
            let chosen = match weighted {
                Some(player) => player,
                None => pick_uniform(&players).unwrap(),
            };
            proof {
                let k = choose|k: int| 0 <= k < players@.len() && players@[k] == chosen;
                assert(players@[k] < 4 && players@[k] != observer && counts[players@[k] as int] > 0);
                assert(before@.contains(card@));
                assert(hands[chosen as int]@.disjoint(before@));
            }
            let mut hand = hands[chosen];
            hand.push(card);
            hands[chosen] = hand;
            counts[chosen] = counts[chosen] - 1;
            proof {
                assert(chosen == (observer + 1) % 4 || chosen == (observer + 2) % 4 || chosen == (
                observer + 3) % 4);
                assert forall|p: int| 0 <= p < 4 implies (#[trigger] hands[p])@.subset_of(pool)
                    && hands[p]@.finite() && hands[p]@.disjoint(cards_to_deal@) by {
                    assert(dealt[p]@.subset_of(pool) && dealt[p]@.disjoint(before@));
                    if p != chosen {
                        assert(hands[p] == dealt[p]);
                    }
                }
                assert forall|p: int, q: int| 0 <= p < 4 && 0 <= q < 4 && p != q implies (
                #[trigger] hands[p])@.disjoint((#[trigger] hands[q])@) by {
                    assert(dealt[p]@.disjoint(dealt[q]@));
                    assert(dealt[p]@.disjoint(before@));
                    assert(dealt[q]@.disjoint(before@));
                    if p != chosen {
                        assert(hands[p] == dealt[p]);
                    }
                    if q != chosen {
                        assert(hands[q] == dealt[q]);
                    }
                }
                assert forall|i: nat| pool.contains(i) implies cards_to_deal@.contains(i)
                    || exists|p: int|
                    0 <= p < 4 && p != observer && (#[trigger] hands[p])@.contains(i) by {
                    if i == card@ {
                        assert(hands[chosen as int]@.contains(i));
                    } else if !before@.contains(i) {
                        let p = choose|p: int|
                            0 <= p < 4 && p != observer && (#[trigger] dealt[p])@.contains(i);
                        if p != chosen {
                            assert(hands[p] == dealt[p]);
                        }
                        assert(hands[p]@.contains(i));
                    }
                }
                assert forall|p: int| 0 <= p < 4 && p != observer implies (
                #[trigger] hands[p])@.len() + counts[p] == player_card_counts[p] by {
                    assert(dealt[p]@.len() + needs[p] == player_card_counts[p]);
                    if p != chosen {
                        assert(hands[p] == dealt[p]);
                    }
                }
                assert forall|p: int, i: nat, j: nat|
                    0 <= p < 4 && (#[trigger] hands[p]@.contains(i)) && (
                    #[trigger] cards_to_deal@.contains(j)) implies i < j by {
                    assert(before@.contains(j));
                    if p == chosen && i == card@ {
                    } else {
                        if p != chosen {
                            assert(hands[p] == dealt[p]);
                        }
                        assert(dealt[p]@.contains(i));
                    }
                }
                Self::lemma_deal_step(
                    dealt,
                    hands,
                    observer as int,
                    player_card_counts@,
                    needs@,
                    *weights,
                    card@,
                    chosen as int,
                    before@,
                    likelihoods@,
                    weighted is Some,
                );
            }
        }
        let ghost dealt = hands;
        hands[observer] = observer_cards;
        round.player_cards = hands;
        proof {
            let next = RoundState { hands: round@.hands, ..self@ };
            assert(round@.scores =~= next.scores);
            assert forall|p: int| 0 <= p < 4 implies #[trigger] round@.hands[p] == hands[p]@ by {}
            assert forall|p: int| 0 <= p < 4 && p != observer implies #[trigger] hands[p]
                == dealt[p] by {}
            assert forall|p: int| 0 <= p < 4 && p != observer implies (
            #[trigger] round@.hands[p]).subset_of(pool) && round@.hands[p].finite()
                && round@.hands[p].len() <= player_card_counts@[p] by {
                assert(dealt[p]@.subset_of(pool));
                assert(dealt[p]@.len() + counts[p] == player_card_counts[p]);
            }
            assert forall|p: int, q: int|
                0 <= p < 4 && 0 <= q < 4 && p != q && p != observer && q != observer implies (
            #[trigger] round@.hands[p]).disjoint(#[trigger] round@.hands[q]) by {
                assert(dealt[p]@.disjoint(dealt[q]@));
            }
            assert forall|i: nat| pool.contains(i) implies exists|p: int|
                0 <= p < 4 && p != observer && (#[trigger] round@.hands[p]).contains(i) by {
                assert(!cards_to_deal@.contains(i));
                let p = choose|p: int|
                    0 <= p < 4 && p != observer && (#[trigger] dealt[p])@.contains(i);
                assert(hands[p] == dealt[p]);
                assert(round@.hands[p].contains(i));
            }
            assert forall|p: int, card: nat|
                0 <= p < 4 && p != observer && (#[trigger] round@.hands[p].contains(
                    card,
                )) implies dealt_by_weight(
                round@.hands,
                observer as int,
                player_card_counts@,
                *weights,
                card,
                p,
            ) by {
                assert(views(dealt)[p].contains(card));
                assert(round@.hands[(observer + 1) % 4] == views(dealt)[(observer + 1) % 4]);
                assert(round@.hands[(observer + 2) % 4] == views(dealt)[(observer + 2) % 4]);
                assert(round@.hands[(observer + 3) % 4] == views(dealt)[(observer + 3) % 4]);
            }
        }
        round
    }

    /// One step of a deal keeps it following the weights: `card`, the lowest
    /// of the cards `before` that were still to be dealt, went to `chosen`,
    /// by weight where `weighted` says so and else because the weights of
    /// the players who were to get cards add up to nothing or to too much.
    proof fn lemma_deal_step(
        dealt: [Stack; 4],
        hands: [Stack; 4],
        observer: int,
        allowed: Seq<usize>,
        needs: Seq<usize>,
        weights: Weights,
        card: nat,
        chosen: int,
        before: Set<nat>,
        likelihoods: Seq<u32>,
        weighted: bool,
    )
        requires
            0 <= observer < 4,
            0 <= chosen < 4,
            chosen != observer,
            needs[chosen] > 0,
            before.contains(card),
            hands[chosen]@ == dealt[chosen]@.insert(card),
            forall|p: int| 0 <= p < 4 && p != chosen ==> hands[p] == dealt[p],
            forall|p: int| 0 <= p < 4 ==> (#[trigger] dealt[p])@.finite(),
            forall|p: int, i: nat, j: nat|
                0 <= p < 4 && (#[trigger] dealt[p]@.contains(i)) && (#[trigger] before.contains(j))
                    ==> i < j,
            forall|p: int|
                0 <= p < 4 && p != observer ==> (#[trigger] dealt[p])@.len() + needs[p] == allowed[p],
            forall|q: int| 0 <= q < 4 ==> likelihoods[q] == weights.spec_weight(q, card),
            weighted ==> likelihoods[chosen] > 0,
            !weighted ==> weight_sum(needy(observer, needs), likelihoods) == 0 || weight_sum(
                needy(observer, needs),
                likelihoods,
            ) > u32::MAX,
            deal_follows(views(dealt), observer, allowed, weights),
        ensures
            deal_follows(views(hands), observer, allowed, weights),
    {
        lemma_needy(observer, needs, likelihoods);
        assert forall|p: int, c: nat|
            0 <= p < 4 && p != observer && (#[trigger] views(hands)[p].contains(
                c,
            )) implies dealt_by_weight(views(hands), observer, allowed, weights, c, p) by {
            if c == card {
                if p != chosen {
                    assert(dealt[p]@.contains(c));
                }
                assert forall|q: int| 0 <= q < 4 implies held_below(
                    #[trigger] views(hands)[q],
                    card,
                ) == dealt[q]@.len() by {
                    assert(views(hands)[q].filter(|i: nat| i < card) =~= dealt[q]@) by {
                        assert forall|i: nat| dealt[q]@.contains(i) implies i < card by {}
                    }
                }
                if !weighted {
                    if weight_sum(needy(observer, needs), likelihoods) == 0 {
                        assert(held_below(views(hands)[(observer + 1) % 4], card) == dealt[(observer
                            + 1) % 4]@.len());
                        assert(held_below(views(hands)[(observer + 2) % 4], card) == dealt[(observer
                            + 2) % 4]@.len());
                        assert(held_below(views(hands)[(observer + 3) % 4], card) == dealt[(observer
                            + 3) % 4]@.len());
                        assert(unlikely_or_full(
                            views(hands),
                            allowed,
                            weights,
                            card,
                            (observer + 1) % 4,
                        ));
                        assert(unlikely_or_full(
                            views(hands),
                            allowed,
                            weights,
                            card,
                            (observer + 2) % 4,
                        ));
                        assert(unlikely_or_full(
                            views(hands),
                            allowed,
                            weights,
                            card,
                            (observer + 3) % 4,
                        ));
                    }
                }
            } else {
                assert(views(dealt)[p].contains(c));
                assert(dealt_by_weight(views(dealt), observer, allowed, weights, c, p));
                assert(c < card);
                assert forall|q: int| 0 <= q < 4 implies held_below(
                    #[trigger] views(hands)[q],
                    c,
                ) == held_below(views(dealt)[q], c) by {
                    assert(views(hands)[q].filter(|i: nat| i < c) =~= views(dealt)[q].filter(
                        |i: nat| i < c,
                    ));
                }
            }
        }
    }

    /// The round as `observer` may imagine it: with the observer's own hand,
    /// the table and the points as they are, and the cards that the observer
    /// does not see dealt at random to the other players, to each as many as
    /// the player holds. A player with a higher weight for a card is more
    /// likely to get it, and a player with weight zero does not get it;
    /// only where the players who are still to get cards all have weight
    /// zero for a card, every one of them is equally likely.
    pub fn randomize(&self, observer: usize, weights: &Weights) -> (r: Round)
        requires
            self.wf(),
            observer < 4,
        ensures
            r.wf(),
            r@ == (RoundState { hands: r@.hands, ..self@ }),
            r@.hands[observer as int] == self@.hands[observer as int],
            forall|p: int| 0 <= p < 4 ==> (#[trigger] r@.hands[p]).len() == self@.hands[p].len(),
            deal_follows(r@.hands, observer as int, hand_sizes(r@.hands), *weights),
    {
        let observer_cards = self.player_cards[observer];
        let player_card_counts: [usize; 4] = [
            self.player_cards[0].len() as usize,
            self.player_cards[1].len() as usize,
            self.player_cards[2].len() as usize,
            self.player_cards[3].len() as usize,
        ];
        proof {
            self@.lemma_card_count();
            self.lemma_redeal_counts(observer as int);
        }
        let round = self.randomize_for(
            observer,
            observer_cards,
            self.played_cards,
            player_card_counts,
            weights,
        );
        proof {
            self@.lemma_redeal_keeps_wf(round@.hands, observer as int, player_card_counts@);
            assert(player_card_counts@ =~= hand_sizes(round@.hands));
        }
        round
    }

    /// The round as `observer` may imagine it once the player who acts next
    /// has taken `action`, which the observer saw. Where that player does not
    /// hold the card played in this round, one of the player's cards, picked
    /// at random, makes room for it. The hidden cards are then dealt anew as
    /// in [`Round::randomize`].
    pub fn observe_action(&self, observer: usize, action: Action, weights: &Weights) -> (r: Round)
        requires
            self.wf(),
            observer < 4,
            match action {
                Action::PickTrump(_) => self@.phase == RoundPhase::PickTrump,
                Action::PlayCard(card) => self@.phase == RoundPhase::PlayCards
                    && !self@.played.contains(card@) && (observer == self@.turn
                    || !self@.hands[observer as int].contains(card@)),
            },
        ensures
            r.wf(),
            r@ == (RoundState { hands: r@.hands, ..self@.apply(action) }),
            r@.hands[observer as int].subset_of(self@.hands[observer as int]),
            observer != self@.mover() ==> r@.hands[observer as int] == self@.hands[observer as int],
            forall|p: int|
                0 <= p < 4 ==> (#[trigger] r@.hands[p]).len() + (if action is PlayCard && p
                    == self@.turn {
                    1nat
                } else {
                    0nat
                }) == self@.hands[p].len(),
            deal_follows(r@.hands, observer as int, hand_sizes(r@.hands), *weights),
    {
        let mut round = *self;
        match action {
            Action::PlayCard(card) => {
                let mover = round.turn;
                let index = card.get_index();
                proof {
                    self@.lemma_card_count();
                    crate::bits::lemma_below_finite(32);
                    if self@.is_terminal() {
                        assert(self@.played.contains(card@));
                    }
                    self@.lemma_mover_holds_cards();
                }
                if !round.player_cards[mover].has_card(card) {
                    let mut holder: usize = 0;
                    let mut p: usize = 0;
                    while p < 4
                        invariant
                            p <= 4,
                            holder < 4,
                            round == *self,
                            self.wf(),
                            forall|q: int|
                                0 <= q < p && (#[trigger] self@.hands[q]).contains(card@)
                                    ==> holder == q,
                        decreases 4 - p,
                    {
                        if round.player_cards[p].has_card(card) {
                            holder = p;
                            proof {
                                assert(self@.hands[p as int].contains(card@));
                                assert forall|q: int|
                                    0 <= q < p implies !(#[trigger] self@.hands[q]).contains(
                                    card@,
                                ) by {
                                    assert(self@.hands[q].disjoint(self@.hands[p as int]));
                                }
                            }
                        }
                        p += 1;
                    }
                    proof {
                        assert(self@.in_hands().union(self@.played).contains(card@));
                        assert(self@.hands[holder as int].contains(card@));
                    }
                    let mut hand = round.player_cards[mover];
                    let given = hand.pop_random_card().unwrap();
                    hand.push(card);
                    let mut other = round.player_cards[holder];
                    other.remove(card);
                    other.push(given);
                    round.player_cards[mover] = hand;
                    round.player_cards[holder] = other;
                    proof {
                        let next = self@.exchange(mover as int, given@, holder as int, card@);
                        self@.lemma_exchange_keeps_wf(mover as int, given@, holder as int, card@);
                        assert(round@.hands =~= next.hands);
                        assert(round@.scores =~= next.scores);
                        assert(round@ == next);
                    }
                }
                proof {
                    round@.lemma_play_keeps_hands(card);
                    round@.lemma_play_keeps_table(card);
                }
                let ghost before = round@;
                round.play_card(card);
                proof {
                    assert forall|p: int| 0 <= p < 4 implies (#[trigger] round@.hands[p]).len() + (
                    if p == self@.turn {
                        1nat
                    } else {
                        0nat
                    }) == self@.hands[p].len() by {
                        assert(before.hands[p].len() == self@.hands[p].len());
                        before.lemma_card_count();
                    }
                }
            },
            Action::PickTrump(trump) => {
                proof {
                    self@.lemma_pick_keeps_wf(trump);
                }
                round.set_trump(trump);
            },
        }
        round.randomize(observer, weights)
    }

    proof fn lemma_redeal_counts(&self, observer: int)
        requires
            self.wf(),
            0 <= observer < 4,
        ensures
            self@.hands[(observer + 1) % 4].len() + self@.hands[(observer + 2) % 4].len()
                + self@.hands[(observer + 3) % 4].len() == undealt(
                self@.hands[observer],
                self@.played,
            ).len(),
    {
        let state = self@;
        state.lemma_card_count();
        let a = (observer + 1) % 4;
        let b = (observer + 2) % 4;
        let c = (observer + 3) % 4;
        let pool = undealt(state.hands[observer], state.played);
        assert(state.hands[observer].disjoint(state.played));
        assert(state.hands[a].disjoint(state.hands[observer]));
        assert(state.hands[b].disjoint(state.hands[observer]));
        assert(state.hands[c].disjoint(state.hands[observer]));
        assert(state.hands[a].disjoint(state.hands[b]));
        assert(state.hands[a].disjoint(state.hands[c]));
        assert(state.hands[b].disjoint(state.hands[c]));
        assert(state.hands[a].disjoint(state.played));
        assert(state.hands[b].disjoint(state.played));
        assert(state.hands[c].disjoint(state.played));
        let others = state.hands[a].union(state.hands[b]).union(state.hands[c]);
        assert(others =~= pool) by {
            assert forall|i: nat| pool.contains(i) implies others.contains(i) by {
                assert(state.in_hands().union(state.played).contains(i));
            }
            assert forall|i: nat| others.contains(i) implies pool.contains(i) by {
                assert(state.in_hands().union(state.played).contains(i));
            }
        }
        vstd::set_lib::lemma_set_disjoint_lens(state.hands[a], state.hands[b]);
        vstd::set_lib::lemma_set_disjoint_lens(state.hands[a].union(state.hands[b]), state.hands[c]);
    }

    fn play_card(&mut self, card: Card)
        requires
            old(self)@.table_ok(),
            !old(self)@.played.contains(card@),
        ensures
            final(self)@ == old(self)@.play(card),
    {
        proof {
            lemma_points_bounds(self@.played, 32);
            lemma_points_deck();
            lemma_total_points_bounds(self@.plays);
        }
        let mover = self.turn;
        self.trick.play(card, mover);
        self.played_cards.push(card);
        let mut hand = self.player_cards[mover];
        hand.remove(card);
        self.player_cards[mover] = hand;
        if self.trick.is_finished() {
            self.on_trick_finish();
        } else {
            self.turn = (self.turn + 1) % 4;
        }
        proof {
            let next = old(self)@.play(card);
            assert(self@.hands =~= next.hands);
            assert(self@.scores =~= next.scores);
            assert(self@.plays =~= next.plays);
        }
    }

    fn set_trump(&mut self, trump: Option<Suit>)
        ensures
            final(self)@ == old(self)@.pick(trump),
    {
        self.trick.set_trump(trump);
        self.phase = RoundPhase::PlayCards;
        proof {
            let next = old(self)@.pick(trump);
            assert(self@.hands =~= next.hands);
            assert(self@.scores =~= next.scores);
        }
    }

    fn on_trick_finish(&mut self)
        requires
            old(self).spec_trick().wf(),
            old(self).spec_trick().plays().len() == 4,
            old(self).spec_trick().spec_winner() matches Some((_, holder)) && holder < 4,
            0 <= old(self)@.scores[0] <= 60,
            0 <= old(self)@.scores[1] <= 60,
        ensures
            old(self).spec_trick().spec_winner() matches Some((_, holder)) && final(self)@ == (
            RoundState {
                turn: holder as nat,
                scores: old(self)@.scores.update(
                    (holder % 2) as int,
                    old(self)@.scores[(holder % 2) as int] + old(self)@.trick_score,
                ),
                plays: Seq::<Card>::empty(),
                winner: None,
                trick_score: 0,
                ..old(self)@
            }),
    {
        proof {
            lemma_total_points_bounds(self.trick.plays());
        }
        let (_, winner) = self.trick.winner().unwrap();
        let winning_team = winner % 2;
        self.scores[winning_team] = self.scores[winning_team] + self.trick.score();
        self.turn = winner;
        self.trick.clear();
        proof {
            let next = RoundState {
                turn: winner as nat,
                scores: old(self)@.scores.update(
                    (winner % 2) as int,
                    old(self)@.scores[(winner % 2) as int] + old(self)@.trick_score,
                ),
                plays: Seq::<Card>::empty(),
                winner: None,
                trick_score: 0,
                ..old(self)@
            };
            assert(self@.hands =~= next.hands);
            assert(self@.scores =~= next.scores);
        }
    }

    fn possible_card_actions(&self) -> (r: ActionCollection)
        requires
            self@.turn < 4,
        ensures
            r matches ActionCollection::Cards(cards) && cards@ == self@.legal_cards(),
    {
        let hand = self.player_cards[self.turn];
        ActionCollection::Cards(self.trick.legal_cards(hand, self.turn))
    }

    fn possible_trump_actions(&self) -> (r: ActionCollection)
        requires
            self@.dealer < 4,
        ensures
            r matches ActionCollection::Trumps(bits) && bits < 32 && bits_of(bits as u32)
                == self@.trump_choices(),
    {
        let cards = self.player_cards[self.dealer];
        let mut choices = ActionCollection::Trumps(16);
        proof {
            lemma_bits_single(0, 4);
            lemma_bits_algebra(0, 16);
            assert(1u32 << 4 == 16) by (bit_vector);
        }
        let mut slot: u8 = 0;
        while slot < 4
            invariant
                slot <= 4,
                choices is Trumps,
                choices.wf(),
                cards@ == self@.hands[self@.dealer as int],
                forall|i: nat|
                    choices.slots().contains(i) <==> i == 4 || (i < slot && !cards@.intersect(
                        suit_cards(Suit::of_ordinal(i)),
                    ).is_empty()),
            decreases 4 - slot,
        {
            let suit = Suit::from_ordinal(slot);
            if cards.has_suit(suit) {
                choices.push(Action::PickTrump(Some(suit)));
            }
            slot += 1;
        }
        assert(choices.slots() =~= self@.trump_choices());
        choices
    }

    /// The hand of `player`.
    pub fn player_cards(&self, player: usize) -> (r: Stack)
        requires
            player < 4,
        ensures
            r@ == self@.hands[player as int],
    {
        self.player_cards[player]
    }

    /// The cards not played yet.
    pub fn unplayed_cards(&self) -> (r: Stack)
        ensures
            r@ == deck().difference(self@.played),
    {
        self.played_cards.complement()
    }

    /// The cards played so far in the round.
    pub fn played_cards(&self) -> (r: Stack)
        ensures
            r@ == self@.played,
    {
        self.played_cards
    }

    /// The dealer, who chooses the trump suit.
    pub fn dealer(&self) -> (r: usize)
        ensures
            r == self@.dealer,
    {
        self.dealer
    }

    /// The phase the round is in.
    pub fn phase(&self) -> (r: RoundPhase)
        ensures
            r == self@.phase,
    {
        self.phase
    }

    /// The trump suit; `None` in a round without trump. While the trump suit
    /// of a round is still to be chosen, this is the one of the round
    /// before, and `None` in the first round.
    pub fn trump(&self) -> (r: Option<Suit>)
        ensures
            r == self@.trump,
    {
        self.trick.trump()
    }

    /// The suit led in the current trick.
    pub fn suit_to_follow(&self) -> (r: Option<Suit>)
        ensures
            r == self@.lead(),
    {
        self.trick.suit_to_follow()
    }

    /// The trick on the table.
    pub fn trick_ref(&self) -> (r: &Trick)
        ensures
            *r == self.spec_trick(),
            r.plays() == self@.plays,
            r.spec_trump() == self@.trump,
            r.spec_winner() == self@.winner,
            r.spec_score() == self@.trick_score,
    {
        &self.trick
    }

    /// The points that each team took in finished tricks.
    pub fn scores(&self) -> (r: [i16; 2])
        ensures
            r[0] == self@.scores[0],
            r[1] == self@.scores[1],
    {
        self.scores
    }

    /// The player who acts next: the dealer while the trump suit is chosen,
    /// then the player whose turn it is.
    pub fn turn(&self) -> (r: usize)
        ensures
            r == self@.mover(),
    {
        match self.phase {
            RoundPhase::PickTrump => self.dealer,
            RoundPhase::PlayCards => self.turn,
        }
    }

    /// The actions open to the player who acts next. While the round is not
    /// over there is at least one.
    pub fn possible_actions(&self) -> (r: ActionCollection)
        requires
            self@.turn < 4,
            self@.dealer < 4,
        ensures
            r.wf(),
            r.slots() == self@.legal_slots(),
            self@.phase == RoundPhase::PickTrump <==> r is Trumps,
            self@.phase == RoundPhase::PlayCards <==> r is Cards,
            forall|action: Action| r.spec_has(action) <==> self@.allows(action),
            self.wf() && !self@.is_terminal() ==> !r.slots().is_empty(),
    {
        proof {
            if self.wf() && !self@.is_terminal() {
                self@.lemma_mover_holds_cards();
                self@.lemma_legal_in_hand();
            }
            assert(self@.trump_choices().contains(4));
        }
        match self.phase {
            RoundPhase::PickTrump => self.possible_trump_actions(),
            RoundPhase::PlayCards => self.possible_card_actions(),
        }
    }

    /// Whether the rules allow `action` now.
    pub fn permits(&self, action: Action) -> (r: bool)
        requires
            self@.turn < 4,
            self@.dealer < 4,
        ensures
            r == self@.allows(action),
    {
        let legal = self.possible_actions();
        match (legal, action) {
            (ActionCollection::Cards(_), Action::PlayCard(_)) => legal.has(&action),
            (ActionCollection::Trumps(_), Action::PickTrump(_)) => legal.has(&action),
            _ => false,
        }
    }

    /// Applies an action that the rules allow.
    pub fn apply_action(&mut self, action: Action)
        requires
            old(self).wf(),
            old(self)@.allows(action),
        ensures
            final(self)@ == old(self)@.apply(action),
            final(self).wf(),
    {
        proof {
            self@.lemma_apply_keeps_wf(action);
            self@.lemma_legal_in_hand();
        }
        match action {
            Action::PlayCard(card) => {
                proof {
                    self@.lemma_play_keeps_hands(card);
                }
                self.play_card(card)
            },
            Action::PickTrump(trump) => self.set_trump(trump),
        }
    }

    /// Whether the round is one that play can reach, found by going through
    /// the hands, the cards played, the trick and the points.
    pub fn is_consistent(&self) -> (r: bool)
        ensures
            r == self.wf(),
    {
        proof {
            self.lemma_view();
        }
        if self.turn >= 4 || self.dealer >= 4 {
            return false;
        }
        if !self.trick.is_consistent() {
            return false;
        }
        let plays = self.trick.cards().iter();
        let count = plays.len();
        if count >= 4 {
            return false;
        }
        let mut n: usize = 0;
        while n < count
            invariant
                n <= count,
                count == plays@.len(),
                plays@ == self@.plays,
                forall|k: int| 0 <= k < n ==> self.played_cards@.contains((#[trigger] plays@[k])@),
            decreases count - n,
        {
            if !self.played_cards.has_card(plays[n]) {
                assert(!self@.played.contains(self@.plays[n as int]@));
                return false;
            }
            n += 1;
        }
        match self.trick.winner() {
            Some((_, holder)) => {
                let place = self.trick.holder_place();
                if holder != (self.turn + 4 - count + place) % 4 {
                    return false;
                }
            },
            None => {},
        }
        let first: i16 = self.scores[0];
        let second: i16 = self.scores[1];
        if first < 0 || second < 0 {
            return false;
        }
        let taken: i64 = first as i64 + second as i64 + self.trick.score() as i64;
        if taken != points_held(self.played_cards) as i64 {
            return false;
        }
        if self.phase == RoundPhase::PickTrump && (count != 0 || !self.played_cards.is_empty()) {
            return false;
        }
        let hands = self.player_cards;
        let mut held = Stack::default();
        let mut p: usize = 0;
        while p < 4
            invariant
                p <= 4,
                hands == self.player_cards,
                held@.disjoint(self.played_cards@),
                forall|q: int| 0 <= q < p ==> (#[trigger] hands[q])@.subset_of(held@),
                forall|i: nat|
                    held@.contains(i) ==> exists|q: int| 0 <= q < p && (#[trigger] hands[q])@.contains(i),
                forall|q: int, t: int|
                    0 <= q < p && 0 <= t < p && q != t ==> (#[trigger] hands[q])@.disjoint(
                        (#[trigger] hands[t])@,
                    ),
            decreases 4 - p,
        {
            let hand = hands[p];
            let shared = hand.intersect(held);
            if !shared.is_empty() || !hand.intersect(self.played_cards).is_empty() {
                proof {
                    if !shared@.is_empty() {
                        let i = choose|i: nat| hand@.intersect(held@).contains(i);
                        let q = choose|q: int| 0 <= q < p && (#[trigger] hands[q])@.contains(i);
                        assert(!self@.hands[q].disjoint(self@.hands[p as int]));
                    } else {
                        let i = choose|i: nat| hand@.intersect(self.played_cards@).contains(i);
                        assert(!self@.hands[p as int].disjoint(self@.played));
                    }
                }
                return false;
            }
            let ghost before = held;
            held = held.union(hand);
            proof {
                assert forall|i: nat| hand@.contains(i) implies !before@.contains(i)
                    && !self.played_cards@.contains(i) by {
                    if before@.contains(i) {
                        assert(shared@.contains(i));
                    }
                    if self.played_cards@.contains(i) {
                        assert(hand@.intersect(self.played_cards@).contains(i));
                    }
                }
                assert(hand@.disjoint(before@));
                assert(held@.disjoint(self.played_cards@));
                assert forall|q: int, t: int|
                    0 <= q < p + 1 && 0 <= t < p + 1 && q != t implies (#[trigger] hands[q])@.disjoint(
                    (#[trigger] hands[t])@,
                ) by {
                    if q == p {
                        assert(hands[t]@.subset_of(before@));
                    } else if t == p {
                        assert(hands[q]@.subset_of(before@));
                    }
                }
            }
            p += 1;
        }
        proof {
            assert(held@ =~= self@.in_hands()) by {
                assert(hands[0]@.subset_of(held@));
                assert(hands[1]@.subset_of(held@));
                assert(hands[2]@.subset_of(held@));
                assert(hands[3]@.subset_of(held@));
            }
        }
        let dealt = held.union(self.played_cards);
        if !dealt.complement().is_empty() {
            proof {
                let i = choose|i: nat| deck().difference(dealt@).contains(i);
                assert(!self@.in_hands().union(self@.played).contains(i));
            }
            return false;
        }
        proof {
            held.lemma_view();
            assert(dealt@ =~= deck()) by {
                assert forall|i: nat| deck().contains(i) implies dealt@.contains(i) by {
                    if !dealt@.contains(i) {
                        assert(deck().difference(dealt@).contains(i));
                    }
                }
            }
        }
        let mover_holds: u32 = hands[self.turn].len();
        let mut q: usize = 0;
        while q < 4
            invariant
                q <= 4,
                self.turn < 4,
                count == self@.plays.len(),
                count < 4,
                hands == self.player_cards,
                mover_holds == self@.hands[self.turn as int].len(),
                forall|t: int|
                    0 <= t < q ==> (#[trigger] self@.hands[t]).len() + (if self@.has_played(t as nat) {
                        1nat
                    } else {
                        0nat
                    }) == mover_holds,
            decreases 4 - q,
        {
            let back: usize = (self.turn + 4 - q) % 4;
            let owed: u32 = if 1 <= back && back <= count {
                1
            } else {
                0
            };
            if hands[q].len() + owed != mover_holds {
                proof {
                    assert(self@.hands[q as int] == hands[q as int]@);
                }
                return false;
            }
            proof {
                assert(self@.hands[q as int] == hands[q as int]@);
            }
            q += 1;
        }
        true
    }

    /// Whether the round is over: every card has been played.
    pub fn is_terminal(&self) -> (r: bool)
        ensures
            r == self@.is_terminal(),
    {
        let all = Stack::all();
        proof {
            Stack::lemma_view_injective(self.played_cards, all);
        }
        self.played_cards == all
    }

    /// What the round was worth to the team of `perspective`, in points above
    /// or below the half of the 60 there are. Divided by 30 it is the reward
    /// between -1 and 1.
    pub fn reward_points(&self, perspective: usize) -> (r: i16)
        requires
            self.wf(),
            self@.is_terminal(),
        ensures
            r == self@.scores[(perspective % 2) as int] - 30,
            -30 <= r <= 30,
    {
        proof {
            self@.lemma_terminal();
        }
        let team = perspective % 2;
        self.scores[team] - 30
    }
}

impl Default for RoundPhase {
    fn default() -> (r: RoundPhase)
        ensures
            r == RoundPhase::PickTrump,
    {
        RoundPhase::PickTrump
    }
}

impl Default for Round {
    /// A round in which no card has been dealt yet.
    fn default() -> (r: Round)
        ensures
            r@.turn == 0,
            r@.dealer == 0,
            r@.phase == RoundPhase::PickTrump,
            forall|p: int| 0 <= p < 4 ==> (#[trigger] r@.hands[p]) == Set::<nat>::empty(),
            r@.played == Set::<nat>::empty(),
            r@.scores == seq![0int, 0int],
            r@.plays == Seq::<Card>::empty(),
            r@.trump is None,
            r@.winner is None,
            r@.trick_score == 0,
    {
        let empty = Stack::default();
        let hands: [Stack; 4] = [empty, empty, empty, empty];
        let round = Round {
            turn: 0,
            dealer: 0,
            player_cards: hands,
            played_cards: empty,
            scores: [0; 2],
            trick: Trick::default(),
            phase: RoundPhase::PickTrump,
        };
        assert(round@.scores =~= seq![0int, 0int]);
        assert forall|p: int| 0 <= p < 4 implies (#[trigger] round@.hands[p]) == Set::<nat>::empty() by {
            assert(hands[p] == empty);
        }
        round
    }
}

} // verus!
