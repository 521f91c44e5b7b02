use vstd::prelude::*;
use crate::action::Action;
use crate::inference::{Inference, SCALE};
use crate::round::Round;

verus! {

/// A strategy for one seat at the table.
pub trait Player {
    /// The action that the strategy takes for the player who acts next in
    /// `round`, which is not over. Nothing is promised of the answer: who
    /// asks checks it against the rules.
    fn decide(&mut self, round: Round, inference: &Inference) -> (action: Action)
        requires
            round.wf(),
            !round@.is_terminal(),
    ;
}

/// Plays any action that the rules allow, picked at random.
#[derive(Clone, Copy, Default)]
pub struct RandomPlayer;

impl Player for RandomPlayer {
    fn decide(&mut self, round: Round, inference: &Inference) -> (action: Action)
        ensures
            round@.allows(action),
    {
        random_action(&round)
    }
}

/// An action that the rules allow in `round`, picked at random.
pub fn random_action(round: &Round) -> (action: Action)
    requires
        round.wf(),
        !round@.is_terminal(),
    ensures
        round@.allows(action),
{
    let mut actions = round.possible_actions();
    let ghost allowed = actions;
    let picked = actions.pop_random();
    proof {
        allowed.lemma_slots();
    }
    picked.unwrap()
}

/// The action that the player who acts next in `round` has to take, where
/// the rules leave no choice: then no strategy needs to think.
pub fn forced_action(round: &Round) -> (r: Option<Action>)
    requires
        round.wf(),
    ensures
        r is Some <==> round@.legal_slots().len() == 1,
        r matches Some(action) ==> round@.allows(action) && round@.legal_slots() == set![
            action.slot(),
        ],
{
    let mut actions = round.possible_actions();
    let ghost allowed = actions;
    proof {
        allowed.lemma_slots();
    }
    if actions.len() == 1 {
        let picked = actions.pop_random();
        proof {
            let action = picked->0;
            assert(allowed.slots().remove(action.slot()).len() == 0);
            assert(allowed.slots().remove(action.slot()) =~= Set::<nat>::empty());
            assert(allowed.slots() =~= set![action.slot()]);
        }
        picked
    } else {
        None
    }
}

/// What a search knows of one of the actions open at its root.
#[derive(Clone, Copy, Debug)]
pub struct ChildStats {
    /// The action.
    pub action: Action,
    /// How many simulations went through the action.
    pub num_sims: usize,
    /// How many simulations could have gone through it.
    pub num_avails: usize,
    /// The average reward of those that did, in thousandths: from -1000 for
    /// a round lost without a point to 1000 for all sixty.
    pub avg_score: i32,
}

/// What a search found.
#[derive(Clone, Debug)]
pub struct SearchResult {
    /// How many simulations were run.
    pub num_simulations: usize,
    /// How long the search took, in microseconds.
    pub duration: u128,
    /// The action that the search holds to be best, if it found one.
    pub best_action: Option<Action>,
    /// What is known of the actions open at the root.
    pub child_stats: Vec<ChildStats>,
    /// How many nodes the tree has.
    pub tree_size: usize,
}

impl SearchResult {
    /// Whether this is the record of a search that was not run: no
    /// simulation, no time, no action found, nothing known.
    pub open spec fn is_blank(self) -> bool {
        &&& self.num_simulations == 0
        &&& self.duration == 0
        &&& self.best_action is None
        &&& self.child_stats@.len() == 0
        &&& self.tree_size == 0
    }

    /// The record of a search that was not run.
    pub fn blank() -> (r: SearchResult)
        ensures
            r.is_blank(),
    {
        SearchResult {
            num_simulations: 0,
            duration: 0,
            best_action: None,
            child_stats: Vec::new(),
            tree_size: 0,
        }
    }
}

/// A search for the best action of the player who acts next.
pub trait Search {
    /// Searches for at most `time` milliseconds from `round`, which is not
    /// over, with what `inference` tells of the hidden hands. Nothing is
    /// promised of what is found: who asks checks it against the rules.
    fn search(&mut self, round: &Round, inference: &Inference, time: u128) -> (r: SearchResult)
        requires
            round.wf(),
            !round@.is_terminal(),
    ;
}

/// A player who picks its actions by a search, and plays without one where
/// the rules leave no choice.
#[derive(Clone)]
pub struct MctsPlayer<S: Search> {
    searcher: S,
    search_time: u128,
    use_inference: bool,
    last_search_result: Option<SearchResult>,
}

impl<S: Search> MctsPlayer<S> {
    /// The search that the player runs.
    pub closed spec fn spec_searcher(&self) -> S {
        self.searcher
    }

    /// The time a search may take, in milliseconds.
    pub closed spec fn spec_search_time(&self) -> u128 {
        self.search_time
    }

    /// Whether a search goes by what the play so far has shown.
    pub closed spec fn spec_use_inference(&self) -> bool {
        self.use_inference
    }

    /// The record of the last decision, if there was one.
    pub closed spec fn spec_last_search_result(&self) -> Option<SearchResult> {
        self.last_search_result
    }

    /// Whether `action` is what the search found in `round`, where it found
    /// an action that the rules allow.
    pub open spec fn follows(round: Round, result: SearchResult, action: Action) -> bool {
        match result.best_action {
            Some(found) => round@.allows(found) ==> action == found,
            None => true,
        }
    }

    /// A player who runs `searcher` for `search_time` milliseconds at most.
    pub fn with_searcher(searcher: S, search_time: u128, use_inference: bool) -> (r: Self)
        ensures
            r.spec_searcher() == searcher,
            r.spec_search_time() == search_time,
            r.spec_use_inference() == use_inference,
            r.spec_last_search_result() is None,
    {
        MctsPlayer { searcher, search_time, use_inference, last_search_result: None }
    }

    /// Sets the time a search may take, in milliseconds.
    pub fn set_search_time(&mut self, time: u128)
        ensures
            final(self).spec_search_time() == time,
            final(self).spec_use_inference() == old(self).spec_use_inference(),
            final(self).spec_searcher() == old(self).spec_searcher(),
            final(self).spec_last_search_result() == old(self).spec_last_search_result(),
    {
        self.search_time = time;
    }

    /// The time a search may take, in milliseconds.
    pub fn get_search_time(&self) -> (r: u128)
        ensures
            r == self.spec_search_time(),
    {
        self.search_time
    }

    /// Whether a search goes by what the play so far has shown.
    pub fn uses_inference(&self) -> (r: bool)
        ensures
            r == self.spec_use_inference(),
    {
        self.use_inference
    }

    /// The record of the last decision, if there was one: that of the
    /// search, or a blank one where the rules left no choice.
    pub fn get_last_search_result(&self) -> (r: &Option<SearchResult>)
        ensures
            *r == self.spec_last_search_result(),
    {
        &self.last_search_result
    }

    /// Adds `step` milliseconds to the search time or takes them off it: it
    /// stays at what the machine can hold, and at nothing.
    pub fn adjust_search_time(&mut self, step: u128, longer: bool)
        ensures
            final(self).spec_use_inference() == old(self).spec_use_inference(),
            final(self).spec_searcher() == old(self).spec_searcher(),
            final(self).spec_last_search_result() == old(self).spec_last_search_result(),
            longer ==> final(self).spec_search_time() == if old(self).spec_search_time() + step
                > u128::MAX {
                u128::MAX
            } else {
                (old(self).spec_search_time() + step) as u128
            },
            !longer ==> final(self).spec_search_time() == if old(self).spec_search_time() < step {
                0
            } else {
                (old(self).spec_search_time() - step) as u128
            },
    {
        if longer {
            if self.search_time > u128::MAX - step {
                self.search_time = u128::MAX;
            } else {
                self.search_time = self.search_time + step;
            }
        } else {
            if self.search_time < step {
                self.search_time = 0;
            } else {
                self.search_time = self.search_time - step;
            }
        }
    }

    /// What a search is to go by: `inference` where the player uses it, else
    /// the table that knows nothing.
    pub fn knowledge(&self, inference: &Inference) -> (r: Inference)
        ensures
            self.spec_use_inference() ==> r == *inference,
            !self.spec_use_inference() ==> forall|player: int, card: nat|
                0 <= player < 4 && card < 32 ==> #[trigger] r.spec_weight(player, card) == SCALE
                    / 32,
    {
        if self.use_inference {
            *inference
        } else {
            Inference::new()
        }
    }
}

impl<S: Search + Default> MctsPlayer<S> {
    /// A player who runs a search of its own for `search_time` milliseconds
    /// at most.
    pub fn new(search_time: u128, use_inference: bool) -> (r: Self)
        ensures
            r.spec_search_time() == search_time,
            r.spec_use_inference() == use_inference,
            r.spec_last_search_result() is None,
    {
        MctsPlayer::with_searcher(S::default(), search_time, use_inference)
    }
}

impl<S: Search> Player for MctsPlayer<S> {
    /// Where the rules leave one action, that action, however long a search
    /// may take: the search is not run and the record is blank. Else the
    /// action that the search finds, recorded with what else it found; and
    /// where it finds none, or one that the rules do not allow, an action
    /// that they allow, picked at random.
    fn decide(&mut self, round: Round, inference: &Inference) -> (action: Action)
        ensures
            round@.allows(action),
            final(self).spec_search_time() == old(self).spec_search_time(),
            final(self).spec_use_inference() == old(self).spec_use_inference(),
            round@.legal_slots().len() == 1 ==> {
                &&& round@.legal_slots() == set![action.slot()]
                &&& final(self).spec_searcher() == old(self).spec_searcher()
                &&& final(self).spec_last_search_result() matches Some(result) && result.is_blank()
            },
            round@.legal_slots().len() != 1 ==> (final(self).spec_last_search_result() matches Some(
                result,
            ) && Self::follows(round, result, action)),
    {
        match forced_action(&round) {
            Some(action) => {
                self.last_search_result = Some(SearchResult::blank());
                action
            },
            None => {
                let knowledge = self.knowledge(inference);
                let time = self.search_time;
                let result = self.searcher.search(&round, &knowledge, time);
                let found = result.best_action;
                self.last_search_result = Some(result);
                match found {
                    Some(action) => {
                        if round.permits(action) {
                            action
                        } else {
                            random_action(&round)
                        }
                    },
                    None => random_action(&round),
                }
            },
        }
    }
}

impl<S: Search + Default> Default for MctsPlayer<S> {
    /// Half a second for each search, with inference.
    fn default() -> (r: Self)
        ensures
            r.spec_search_time() == 500,
            r.spec_use_inference(),
            r.spec_last_search_result() is None,
    {
        MctsPlayer::new(500, true)
    }
}

} // verus!
