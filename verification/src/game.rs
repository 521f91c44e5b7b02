use vstd::prelude::*;
use crate::action::Action;
use crate::action_collection::ActionCollection;
use crate::inference::{weight_after, Inference, SCALE};
use crate::model::{freshly_dealt, RoundPhase, RoundState};
use crate::players::Player;
use crate::random::range_usize;
use crate::round::Round;
use crate::stack::Stack;

verus! {

/// The points that end a match unless another target is asked for.
pub const MAX_SCORE: i16 = 61;

/// The highest target that a match can have.
pub const MAX_TARGET: i16 = 32000;

/// A match: rounds are played until a team has the points of the target.
pub struct Game<P: Player> {
    players: Vec<P>,
    round: Round,
    inference: Inference,
    num_rounds: usize,
    scores: [i16; 2],
    target: i16,
}

impl<P: Player> Game<P> {
    /// The round being played.
    pub closed spec fn spec_round(&self) -> Round {
        self.round
    }

    /// What the play of the round has shown of the hands.
    pub closed spec fn spec_inference(&self) -> Inference {
        self.inference
    }

    /// The points of the two teams in the match.
    pub closed spec fn spec_scores(&self) -> Seq<int> {
        seq![self.scores[0] as int, self.scores[1] as int]
    }

    /// The number of rounds played.
    pub closed spec fn spec_num_rounds(&self) -> nat {
        self.num_rounds as nat
    }

    /// The points that end the match.
    pub closed spec fn spec_target(&self) -> int {
        self.target as int
    }

    /// How many strategies sit at the table.
    pub closed spec fn seats(&self) -> nat {
        self.players@.len()
    }

    /// Four strategies sit at the table, the round is well formed, and no
    /// team has more points than one round can add to what does not end the
    /// match.
    pub open spec fn wf(&self) -> bool {
        &&& self.seats() == 4
        &&& self.spec_round().wf()
        &&& 0 < self.spec_target() <= MAX_TARGET
        &&& 0 <= self.spec_scores()[0] < self.spec_target() + 30
        &&& 0 <= self.spec_scores()[1] < self.spec_target() + 30
    }

    /// Whether a team has the points of the target.
    pub open spec fn over(&self) -> bool {
        self.spec_scores()[0] >= self.spec_target() || self.spec_scores()[1] >= self.spec_target()
    }

    /// The points of the two teams once a round has ended with the points
    /// `round_scores`: the team with more of the 60 points adds what it has
    /// above 30. With 30 each nobody adds anything.
    pub open spec fn scores_after(scores: Seq<int>, round_scores: Seq<int>) -> Seq<int> {
        if round_scores[0] > round_scores[1] {
            seq![scores[0] + round_scores[0] - 30, scores[1]]
        } else {
            seq![scores[0], scores[1] + round_scores[1] - 30]
        }
    }

    /// Whether `after` is what `before` becomes by taking in the `action`
    /// of the player who acts next in `round`.
    pub open spec fn inferred(
        before: Inference,
        round: RoundState,
        action: Action,
        after: Inference,
    ) -> bool {
        forall|p: int, card: nat|
            0 <= p < 4 && card < 32 ==> #[trigger] after.spec_weight(p, card) == weight_after(
                before.spec_table(),
                round,
                action,
                round.mover(),
                p,
                card,
            )
    }

    /// Who deals the round that is played next: the dealer of `round` where
    /// it is still to begin, else the player after that dealer.
    pub open spec fn dealer_after(round: RoundState) -> nat {
        if round.phase == RoundPhase::PickTrump {
            round.dealer
        } else {
            (round.dealer + 1) % 4
        }
    }

    /// A match to 61 points between `players`, with a dealer picked at
    /// random and the cards dealt.
    pub fn new(players: Vec<P>) -> (r: Self)
        requires
            players@.len() == 4,
        ensures
            r.wf(),
            !r.over(),
            r.spec_target() == MAX_SCORE,
            r.spec_scores() == seq![0int, 0int],
            r.spec_num_rounds() == 0,
            r.spec_round()@.phase == RoundPhase::PickTrump,
    {
        Self::with_target(players, MAX_SCORE)
    }

    /// A match to `target` points between `players`.
    pub fn with_target(players: Vec<P>, target: i16) -> (r: Self)
        requires
            players@.len() == 4,
            0 < target <= MAX_TARGET,
        ensures
            r.wf(),
            !r.over(),
            r.spec_target() == target,
            r.spec_scores() == seq![0int, 0int],
            r.spec_num_rounds() == 0,
            r.spec_round()@.phase == RoundPhase::PickTrump,
    {
        let dealer = range_usize(0, 4);
        Game {
            players,
            round: Round::new(dealer),
            inference: Inference::new(),
            num_rounds: 0,
            scores: [0, 0],
            target,
        }
    }

    fn apply_action(&mut self, action: Action)
        requires
            old(self).wf(),
            old(self).spec_round()@.allows(action),
        ensures
            final(self).wf(),
            final(self).spec_round()@ == old(self).spec_round()@.apply(action),
            final(self).spec_scores() == old(self).spec_scores(),
            final(self).spec_num_rounds() == old(self).spec_num_rounds(),
            final(self).spec_target() == old(self).spec_target(),
            Self::inferred(old(self).spec_inference(), old(self).spec_round()@, action, final(self).spec_inference()),
    {
        let mover = self.round.turn();
        self.inference.infer(&self.round, action, mover);
        self.round.apply_action(action);
    }

    /// Asks the strategy of the player who acts next for an action and
    /// applies it, if the rules allow it. An action that they do not allow is
    /// handed back and changes nothing.
    fn play_turn(&mut self) -> (r: Result<(), Action>)
        requires
            old(self).wf(),
            !old(self).spec_round()@.is_terminal(),
        ensures
            final(self).wf(),
            final(self).spec_scores() == old(self).spec_scores(),
            final(self).spec_num_rounds() == old(self).spec_num_rounds(),
            final(self).spec_target() == old(self).spec_target(),
            final(self).spec_round()@.dealer == old(self).spec_round()@.dealer,
            r is Ok ==> exists|action: Action|
                old(self).spec_round()@.allows(action) && final(self).spec_round()@ == old(self).spec_round()@.apply(action),
            r matches Err(action) ==> !old(self).spec_round()@.allows(action) && final(self).spec_round() == old(self).spec_round(),
    {
        let seat = self.round.turn();
        let round = self.round;
        let action = self.players[seat].decide(round, &self.inference);
        if self.round.permits(action) {
            self.apply_action(action);
            Ok(())
        } else {
            Err(action)
        }
    }

    /// Plays one trick: asks each of the four players in turn.
    fn play_trick(&mut self) -> (r: Result<(), Action>)
        requires
            old(self).wf(),
            old(self).spec_round()@.phase == RoundPhase::PlayCards,
            old(self).spec_round()@.plays.len() == 0,
            old(self).spec_round()@.played.len() <= 28,
        ensures
            final(self).wf(),
            final(self).spec_scores() == old(self).spec_scores(),
            final(self).spec_num_rounds() == old(self).spec_num_rounds(),
            final(self).spec_target() == old(self).spec_target(),
            final(self).spec_round()@.phase == RoundPhase::PlayCards,
            final(self).spec_round()@.dealer == old(self).spec_round()@.dealer,
            r is Ok ==> final(self).spec_round()@.plays.len() == 0 && final(self).spec_round()@.played.len() == old(self).spec_round()@.played.len() + 4,
            r matches Err(action) ==> !final(self).spec_round()@.allows(action),
    {
        let mut i: usize = 0;
        while i < 4
            invariant
                i <= 4,
                self.wf(),
                self.spec_scores() == old(self).spec_scores(),
                self.spec_num_rounds() == old(self).spec_num_rounds(),
                self.spec_target() == old(self).spec_target(),
                self.spec_round()@.phase == RoundPhase::PlayCards,
                self.spec_round()@.dealer == old(self).spec_round()@.dealer,
                self.spec_round()@.plays.len() == i % 4,
                self.spec_round()@.played.len() == old(self).spec_round()@.played.len() + i,
                old(self).spec_round()@.played.len() <= 28,
            decreases 4 - i,
        {
            proof {
                self.round.lemma_view();
                crate::bits::lemma_below_finite(32);
                if self.round@.is_terminal() {
                    assert(self.round@.played.len() == 32);
                }
            }
            let ghost before = self.round@;
            match self.play_turn() {
                Ok(_) => {
                    proof {
                        let action = choose|action: Action|
                            before.allows(action) && self.spec_round()@ == before.apply(action);
                        before.lemma_legal_in_hand();
                        let card = action->PlayCard_0;
                        before.lemma_play_keeps_hands(card);
                    }
                },
                Err(action) => {
                    return Err(action);
                },
            }
            i += 1;
        }
        Ok(())
    }

    /// Plays a round: deals anew unless the round is still to begin, lets
    /// the dealer's strategy choose the trump suit, plays the eight tricks
    /// and adds the points to the match. Where a
    /// strategy answers with an action that the rules do not allow, the
    /// round stops there and the action is handed back.
    pub fn play_round(&mut self) -> (r: Result<(), Action>)
        requires
            old(self).wf(),
            !old(self).over(),
            old(self).spec_num_rounds() < usize::MAX,
        ensures
            final(self).wf(),
            final(self).spec_target() == old(self).spec_target(),
            final(self).spec_round()@.dealer == Self::dealer_after(old(self).spec_round()@),
            r is Ok ==> {
                &&& final(self).spec_round()@.is_terminal()
                &&& final(self).spec_round()@.scores[0] + final(self).spec_round()@.scores[1] == 60
                &&& final(self).spec_scores() == Self::scores_after(
                    old(self).spec_scores(),
                    final(self).spec_round()@.scores,
                )
                &&& final(self).spec_num_rounds() == old(self).spec_num_rounds() + 1
            },
            r matches Err(action) ==> {
                &&& !final(self).spec_round()@.allows(action)
                &&& final(self).spec_scores() == old(self).spec_scores()
                &&& final(self).spec_num_rounds() == old(self).spec_num_rounds()
            },
    {
        self.inference = Inference::new();
        if self.round.phase() != RoundPhase::PickTrump {
            self.round.setup_for_next_round();
        }
        proof {
            self.round@.lemma_pick_keeps_wf(None);
        }
        let ghost dealt = self.round@;
        match self.play_turn() {
            Ok(_) => {},
            Err(action) => {
                return Err(action);
            },
        }
        proof {
            let action = choose|action: Action|
                dealt.allows(action) && self.spec_round()@ == dealt.apply(action);
            assert(self.round@.played.len() == 0);
        }
        let mut trick: usize = 0;
        while trick < 8
            invariant
                trick <= 8,
                self.wf(),
                self.spec_scores() == old(self).spec_scores(),
                self.spec_num_rounds() == old(self).spec_num_rounds(),
                self.spec_target() == old(self).spec_target(),
                self.spec_round()@.phase == RoundPhase::PlayCards,
                self.spec_round()@.dealer == Self::dealer_after(old(self).spec_round()@),
                self.spec_round()@.plays.len() == 0,
                self.spec_round()@.played.len() == 4 * trick,
            decreases 8 - trick,
        {
            match self.play_trick() {
                Ok(_) => {},
                Err(action) => {
                    return Err(action);
                },
            }
            trick += 1;
        }
        proof {
            self.round.lemma_view();
            crate::bits::lemma_below_finite(32);
            vstd::set_lib::lemma_subset_equality(self.round@.played, crate::stack::deck());
        }
        self.finish_round();
        Ok(())
    }

    /// Adds the points of the round, which is over, to the match.
    fn finish_round(&mut self)
        requires
            old(self).wf(),
            !old(self).over(),
            old(self).spec_round()@.is_terminal(),
            old(self).spec_num_rounds() < usize::MAX,
        ensures
            final(self).wf(),
            final(self).spec_round() == old(self).spec_round(),
            final(self).spec_inference() == old(self).spec_inference(),
            final(self).spec_target() == old(self).spec_target(),
            final(self).spec_round()@.scores[0] + final(self).spec_round()@.scores[1] == 60,
            final(self).spec_scores() == Self::scores_after(
                old(self).spec_scores(),
                old(self).spec_round()@.scores,
            ),
            final(self).spec_num_rounds() == old(self).spec_num_rounds() + 1,
    {
        proof {
            self.round@.lemma_terminal();
        }
        let scores = self.round.scores();
        let winning_team: usize = if scores[0] > scores[1] {
            0
        } else {
            1
        };
        self.scores[winning_team] = self.scores[winning_team] + (scores[winning_team] - 30);
        self.num_rounds += 1;
        proof {
            assert(self.spec_scores() =~= Self::scores_after(
                old(self).spec_scores(),
                self.spec_round()@.scores,
            ));
        }
    }

    /// Takes `action` for the player who acts next, as a table does that is
    /// told each action as it is made: where the match is not over and the
    /// rules allow the action, it is applied, and where it ends the round
    /// the points are added to the match. Else nothing changes.
    pub fn advance(&mut self, action: Action) -> (r: bool)
        requires
            old(self).wf(),
            old(self).spec_num_rounds() < usize::MAX,
        ensures
            final(self).wf(),
            final(self).spec_target() == old(self).spec_target(),
            r == (!old(self).over() && old(self).spec_round()@.allows(action)),
            !r ==> final(self).spec_round() == old(self).spec_round() && final(self).spec_scores()
                == old(self).spec_scores() && final(self).spec_num_rounds() == old(
                self,
            ).spec_num_rounds(),
            r ==> final(self).spec_round()@ == old(self).spec_round()@.apply(action),
            r ==> Self::inferred(
                old(self).spec_inference(),
                old(self).spec_round()@,
                action,
                final(self).spec_inference(),
            ),
            !r ==> final(self).spec_inference() == old(self).spec_inference(),
            r && !final(self).spec_round()@.is_terminal() ==> final(self).spec_scores() == old(
                self,
            ).spec_scores() && final(self).spec_num_rounds() == old(self).spec_num_rounds(),
            r && final(self).spec_round()@.is_terminal() ==> final(self).spec_scores()
                == Self::scores_after(old(self).spec_scores(), final(self).spec_round()@.scores)
                && final(self).spec_num_rounds() == old(self).spec_num_rounds() + 1,
    {
        if self.is_terminal() || !self.round.permits(action) {
            return false;
        }
        self.apply_action(action);
        if self.round.is_terminal() {
            self.finish_round();
        }
        true
    }

    /// Deals the next round, once the round is over and the match is not:
    /// the deal passes to the next player and nothing is known of the hands.
    /// Else nothing changes.
    pub fn next_round(&mut self) -> (r: bool)
        requires
            old(self).wf(),
        ensures
            final(self).wf(),
            final(self).spec_target() == old(self).spec_target(),
            final(self).spec_scores() == old(self).spec_scores(),
            final(self).spec_num_rounds() == old(self).spec_num_rounds(),
            r == (old(self).spec_round()@.is_terminal() && !old(self).over()),
            !r ==> final(self).spec_round() == old(self).spec_round(),
            r ==> {
                &&& final(self).spec_round()@.dealer == (old(self).spec_round()@.dealer + 1) % 4
                &&& final(self).spec_round()@.phase == RoundPhase::PickTrump
                &&& freshly_dealt(final(self).spec_round()@.hands)
                &&& forall|p: int, card: nat|
                    0 <= p < 4 && card < 32 ==> #[trigger] final(self).spec_inference().spec_weight(
                        p,
                        card,
                    ) == SCALE / 32
            },
            !r ==> final(self).spec_inference() == old(self).spec_inference(),
    {
        if self.is_terminal() || !self.round.is_terminal() {
            return false;
        }
        self.inference = Inference::new();
        self.round.setup_for_next_round();
        true
    }

    /// What the play of the round has shown of the hands.
    pub fn inference(&self) -> (r: &Inference)
        ensures
            *r == self.spec_inference(),
    {
        &self.inference
    }

    /// Whether the rules allow `action` now.
    pub fn is_legal(&self, action: Action) -> (r: bool)
        requires
            self.wf(),
        ensures
            r == self.spec_round()@.allows(action),
    {
        self.round.permits(action)
    }

    /// The actions that the rules allow now.
    pub fn legal_actions(&self) -> (r: ActionCollection)
        requires
            self.wf(),
        ensures
            r.wf(),
            r.slots() == self.spec_round()@.legal_slots(),
            forall|action: Action| r.spec_has(action) <==> self.spec_round()@.allows(action),
            self.spec_round()@.phase == RoundPhase::PickTrump <==> r is Trumps,
            self.spec_round()@.phase == RoundPhase::PlayCards <==> r is Cards,
    {
        self.round.possible_actions()
    }

    /// The hand of `player`.
    pub fn player_cards(&self, player: usize) -> (r: Stack)
        requires
            player < 4,
        ensures
            r@ == self.spec_round()@.hands[player as int],
    {
        self.round.player_cards(player)
    }

    /// The round being played.
    pub fn round(&self) -> (r: Round)
        ensures
            r == self.spec_round(),
    {
        self.round
    }

    /// The points of the two teams in the match.
    pub fn scores(&self) -> (r: [i16; 2])
        ensures
            r[0] == self.spec_scores()[0],
            r[1] == self.spec_scores()[1],
    {
        self.scores
    }

    /// The number of rounds played.
    pub fn num_rounds(&self) -> (r: usize)
        ensures
            r == self.spec_num_rounds(),
    {
        self.num_rounds
    }

    /// Whether the match is over: a team has the points of the target.
    pub fn is_terminal(&self) -> (r: bool)
        ensures
            r == self.over(),
    {
        self.scores[0] >= self.target || self.scores[1] >= self.target
    }

    /// The team that won the match, which is over: the team with more
    /// points, and team 1 where both have as many.
    pub fn winner(&self) -> (r: usize)
        requires
            self.over(),
        ensures
            r == if self.spec_scores()[0] > self.spec_scores()[1] {
                0usize
            } else {
                1usize
            },
    {
        if self.scores[0] > self.scores[1] {
            0
        } else {
            1
        }
    }
}

} // verus!
