use ismcts::action_list::ActionList;
use ismcts::searcher::Searcher;
use ismcts::state::State;
use manille::action::Action;
use manille::action_collection::ActionCollection;
use manille::inference::Inference;
use manille::players::{random_action, ChildStats, MctsPlayer, Player, Search, SearchResult};
use manille::round::Round;

#[derive(Clone, Copy)]
struct Table(Round);

#[derive(Clone, Copy)]
struct Choices(ActionCollection);

#[derive(Clone, Copy)]
struct Seen(Inference);

impl ismcts::inference::Inference for Seen {}

impl ActionList<Action> for Choices {
    fn uninit() -> Self {
        Choices(ActionCollection::uninit())
    }

    fn pop_random(&mut self) -> Option<Action> {
        self.0.pop_random()
    }

    fn push(&mut self, action: Action) {
        self.0.push(action);
    }

    fn len(&self) -> usize {
        self.0.len()
    }

    fn has(&self, item: &Action) -> bool {
        self.0.has(item)
    }

    fn without(&self, other: &Self) -> Self {
        Choices(self.0.without(&other.0))
    }
}

impl State for Table {
    type Action = Action;
    type ActionList = Choices;
    type Inference = Seen;

    fn turn(&self) -> usize {
        self.0.turn()
    }

    fn randomize(&self, observer: usize, inference: &Seen) -> Self {
        let seen = self.0.randomize(observer, inference.0.table());
        assert!(seen.is_consistent());
        Table(seen)
    }

    fn possible_actions(&self) -> Choices {
        Choices(self.0.possible_actions())
    }

    fn apply_action(&mut self, action: Action) {
        assert!(self.0.permits(action));
        self.0.apply_action(action);
    }

    fn is_terminal(&self) -> bool {
        self.0.is_terminal()
    }

    fn reward(&self, perspective: usize) -> f32 {
        self.0.reward_points(perspective) as f32 / 30.
    }
}

/// The tree search, run on the library's round.
struct TreeSearch(Searcher<Table>);

impl Default for TreeSearch {
    fn default() -> Self {
        TreeSearch(Searcher::new(2f32.sqrt(), 4096))
    }
}

impl Search for TreeSearch {
    fn search(&mut self, round: &Round, inference: &Inference, time: u128) -> SearchResult {
        let found = self.0.search(&Table(*round), &Seen(*inference), time);
        assert!(found.num_simulations > 0);
        SearchResult {
            num_simulations: found.num_simulations,
            duration: found.duration.as_micros(),
            best_action: found.best_action,
            child_stats: found
                .child_stats
                .iter()
                .map(|(stats, action)| ChildStats {
                    action: *action,
                    num_sims: stats.num_sims,
                    num_avails: stats.num_avails,
                    avg_score: (stats.avg_score * 1000.).round() as i32,
                })
                .collect(),
            tree_size: found.tree_size,
        }
    }
}

#[test]
fn a_search_answers_with_a_legal_action() {
    let mut player: MctsPlayer<TreeSearch> = MctsPlayer::new(0, true);
    let mut round = Round::new(2);
    let mut inference = Inference::new();
    let mut searched = 0;
    while !round.is_terminal() {
        let choice = round.possible_actions().len() > 1;
        let action = if choice && searched >= 6 {
            random_action(&round)
        } else {
            let action = player.decide(round, &inference);
            let record = player.get_last_search_result().clone().unwrap();
            if choice {
                searched += 1;
                assert!(record.num_simulations > 0);
                assert_eq!(record.best_action, Some(action));
                let total: usize = record.child_stats.iter().map(|stats| stats.num_sims).sum();
                assert!(total > 0);
                for stats in record.child_stats.iter() {
                    assert!(round.permits(stats.action));
                    assert!((-1000..=1000).contains(&stats.avg_score));
                }
            } else {
                assert_eq!(record.num_simulations, 0);
                assert!(record.child_stats.is_empty());
            }
            action
        };
        assert!(round.permits(action));
        inference.infer(&round, action, round.turn());
        round.apply_action(action);
    }
    assert!(searched > 0);
    assert_eq!(round.scores()[0] + round.scores()[1], 60);
}

#[test]
fn a_finished_round_is_worth_between_minus_one_and_one() {
    let mut table = Table(Round::new(0));
    table.do_rollout();
    assert!(table.is_terminal());
    let mine = table.reward(0);
    let theirs = table.reward(1);
    assert!((-1.0..=1.0).contains(&mine));
    assert_eq!(mine, table.reward(2));
    assert_eq!(theirs, table.reward(3));
    assert_eq!(mine + theirs, 0.0);
    assert_eq!(table.0.reward_points(0) + table.0.reward_points(1), 0);
}

#[test]
fn tried_actions_are_told_apart_from_the_untried() {
    let round = Round::new(0);
    let legal = Choices(round.possible_actions());
    let mut tried = Choices::uninit();
    assert_eq!(tried.len(), 0);
    assert!(!tried.has(&Action::PickTrump(None)));
    assert_eq!(legal.without(&tried).len(), legal.len());
    tried.push(Action::PickTrump(None));
    assert!(tried.has(&Action::PickTrump(None)));
    let untried = legal.without(&tried);
    assert_eq!(untried.len() + 1, legal.len());
    assert!(!untried.has(&Action::PickTrump(None)));
    let mut rest = untried;
    let mut popped = 0;
    while let Some(action) = rest.pop_random() {
        assert!(legal.has(&action));
        assert_ne!(action, Action::PickTrump(None));
        popped += 1;
    }
    assert_eq!(popped, untried.len());
}
