use manille::action::Action;
use manille::action_collection::ActionCollection;
use manille::card::Card;
use manille::model::RoundPhase;
use manille::players::{forced_action, random_action};
use manille::round::Round;
use manille::stack::Stack;
use manille::suit::Suit;
use manille::weights::Weights;

fn check_partition(round: &Round) {
    let mut seen = round.played_cards();
    let mut total = round.played_cards().len();
    for player in 0..4 {
        let hand = round.player_cards(player);
        assert!(seen.intersect(hand).is_empty());
        seen = seen.union(hand);
        total += hand.len();
    }
    assert_eq!(seen, Stack::all());
    assert_eq!(total, 32);
}

fn check_hand_sizes(round: &Round) {
    let in_trick = round.trick_ref().cards().len() as u32;
    let mover = round.turn();
    let size = round.player_cards(mover).len();
    let mut short = 0;
    for player in 0..4 {
        let hand = round.player_cards(player).len();
        assert!(hand == size || hand + 1 == size);
        if hand + 1 == size {
            short += 1;
        }
    }
    if round.phase() == RoundPhase::PlayCards {
        assert_eq!(short, in_trick);
    } else {
        assert_eq!(short, 0);
    }
}

fn hands_of(round: &Round) -> [Stack; 4] {
    [
        round.player_cards(0),
        round.player_cards(1),
        round.player_cards(2),
        round.player_cards(3),
    ]
}

#[test]
fn new_round_deals_eight_cards_each() {
    for dealer in 0..4 {
        let round = Round::new(dealer);
        let mut sum = 0;
        for player in 0..4 {
            assert_eq!(round.player_cards(player).len(), 8);
            sum += round.player_cards(player).len();
        }
        assert_eq!(sum, 32);
        check_partition(&round);
        assert_eq!(round.dealer(), dealer);
        assert_eq!(round.turn(), dealer);
        assert_eq!(round.phase(), RoundPhase::PickTrump);
        assert_eq!(round.trump(), None);
        assert_eq!(round.scores(), [0, 0]);
        assert!(round.played_cards().is_empty());
        assert_eq!(round.unplayed_cards(), Stack::all());
        assert!(!round.is_terminal());
    }
}

#[test]
fn deals_differ() {
    let first = Round::new(0);
    let mut differs = false;
    for _ in 0..20 {
        if hands_of(&Round::new(0)) != hands_of(&first) {
            differs = true;
        }
    }
    assert!(differs);
}

#[test]
fn player_behind_the_dealer_leads() {
    for dealer in 0..4 {
        let mut round = Round::new(dealer);
        round.apply_action(Action::PickTrump(None));
        assert_eq!(round.phase(), RoundPhase::PlayCards);
        assert_eq!(round.turn(), (dealer + 1) % 4);
        assert_eq!(round.dealer(), dealer);
    }
}

#[test]
fn dealer_with_spades_and_hearts_may_pick_those_or_no_trump() {
    let observer_cards = Stack::from_slice(&[0, 1, 2, 3, 16, 17, 18, 19]);
    let round = Round::from_observer(
        observer_cards,
        Stack::default(),
        [8, 8, 8, 8],
        0,
        1,
        RoundPhase::PickTrump,
        None,
        [0, 0],
    );
    assert_eq!(round.player_cards(0), observer_cards);
    assert_eq!(round.turn(), 0);
    let actions = round.possible_actions();
    assert!(matches!(actions, ActionCollection::Trumps(0b10101)));
    assert_eq!(
        actions.to_vec(),
        vec![
            Action::PickTrump(Some(Suit::Spades)),
            Action::PickTrump(Some(Suit::Hearts)),
            Action::PickTrump(None),
        ]
    );
}

#[test]
fn no_trump_is_always_offered() {
    for _ in 0..50 {
        let round = Round::new(2);
        let actions = round.possible_actions();
        assert!(actions.has(&Action::PickTrump(None)));
        for ordinal in 0..4u8 {
            let suit = Suit::from_ordinal(ordinal);
            assert_eq!(
                actions.has(&Action::PickTrump(Some(suit))),
                round.player_cards(2).has_suit(suit)
            );
        }
    }
}

#[test]
fn from_observer_deals_the_rest_to_the_others() {
    let observer_cards = Stack::from_slice(&[0, 9, 18, 27]);
    let played = Stack::from_slice(&[1, 2, 3, 4, 5, 6, 7, 8, 10, 11, 12, 13, 14, 15, 16, 17]);
    let round = Round::from_observer(
        observer_cards,
        played,
        [4, 4, 4, 4],
        3,
        2,
        RoundPhase::PlayCards,
        Some(Suit::Diamonds),
        [25, 4],
    );
    assert_eq!(round.player_cards(0), observer_cards);
    assert_eq!(round.played_cards(), played);
    assert_eq!(round.dealer(), 3);
    assert_eq!(round.turn(), 2);
    assert_eq!(round.phase(), RoundPhase::PlayCards);
    assert_eq!(round.trump(), Some(Suit::Diamonds));
    assert_eq!(round.scores(), [25, 4]);
    assert_eq!(round.suit_to_follow(), None);
    for player in 0..4 {
        assert_eq!(round.player_cards(player).len(), 4);
    }
    check_partition(&round);
}

#[test]
fn leader_without_trump_may_play_the_whole_hand() {
    let observer_cards = Stack::from_slice(&[0, 1, 8, 9, 16, 17, 24, 25]);
    let round = Round::from_observer(
        observer_cards,
        Stack::default(),
        [8, 8, 8, 8],
        3,
        0,
        RoundPhase::PlayCards,
        None,
        [0, 0],
    );
    assert_eq!(round.turn(), 0);
    match round.possible_actions() {
        ActionCollection::Cards(cards) => assert_eq!(cards, observer_cards),
        _ => panic!("cards expected"),
    }
}

fn play_round_checking(dealer: usize) -> Round {
    let mut round = Round::new(dealer);
    let mut played = 0;
    while !round.is_terminal() {
        check_partition(&round);
        check_hand_sizes(&round);
        let actions = round.possible_actions();
        assert!(!actions.is_empty());
        if let ActionCollection::Cards(cards) = actions {
            let hand = round.player_cards(round.turn());
            assert_eq!(cards.intersect(hand), cards);
            if let Some(suit) = round.suit_to_follow() {
                if hand.has_suit(suit) {
                    assert_eq!(cards.of_suit(suit), cards);
                }
            }
        }
        let action = random_action(&round);
        assert!(actions.has(&action));
        let before = round;
        round.apply_action(action);
        if let Action::PlayCard(card) = action {
            played += 1;
            assert_eq!(round.played_cards().len(), played);
            assert!(round.played_cards().has_card(card));
            assert!(!before.played_cards().has_card(card));
            assert!(!round.player_cards(before.turn()).has_card(card));
            assert_eq!(
                round.scores()[0] + round.scores()[1] + round.trick_ref().score(),
                total_points(round.played_cards())
            );
        }
    }
    check_partition(&round);
    round
}

fn total_points(stack: Stack) -> i16 {
    stack.into_array_52().iter().iter().map(|card| card.score()).sum()
}

#[test]
fn random_rounds_keep_the_invariants_and_end_with_sixty_points() {
    for game in 0..200 {
        let round = play_round_checking(game % 4);
        assert!(round.is_terminal());
        assert_eq!(round.scores()[0] + round.scores()[1], 60);
        assert_eq!(round.trick_ref().cards().len(), 0);
        for player in 0..4 {
            assert!(round.player_cards(player).is_empty());
        }
        assert!(round.possible_actions().is_empty());
        assert_eq!(round.reward_points(0), round.scores()[0] - 30);
        assert_eq!(round.reward_points(1), round.scores()[1] - 30);
        assert_eq!(round.reward_points(2), round.reward_points(0));
        assert_eq!(round.reward_points(3), round.reward_points(1));
        assert_eq!(round.reward_points(0) + round.reward_points(1), 0);
        assert!(-30 <= round.reward_points(0) && round.reward_points(0) <= 30);
    }
}

#[test]
fn fourth_card_ends_the_trick_and_scores_it() {
    // player 0 holds jack, queen, king and ace of spades among others
    let observer_cards = Stack::from_slice(&[3, 4, 5, 6, 8, 9, 10, 11]);
    let mut round = Round::from_observer(
        observer_cards,
        Stack::default(),
        [8, 8, 8, 8],
        3,
        0,
        RoundPhase::PlayCards,
        None,
        [0, 0],
    );
    round.apply_action(Action::PlayCard(Card::new(6)));
    assert_eq!(round.turn(), 1);
    assert_eq!(round.suit_to_follow(), Some(Suit::Spades));
    assert_eq!(round.trick_ref().winner(), Some((Card::new(6), 0)));
    let mut points = 4;
    let mut winner = (Card::new(6), 0);
    for player in 1..4 {
        let action = random_action(&round);
        let card = match action {
            Action::PlayCard(card) => card,
            Action::PickTrump(_) => panic!("a card expected"),
        };
        points += card.score();
        if card.suit() == Suit::Spades && card.value() > winner.0.value() {
            winner = (card, player);
        }
        round.apply_action(action);
    }
    assert_eq!(round.trick_ref().cards().len(), 0);
    assert_eq!(round.trick_ref().winner(), None);
    assert_eq!(round.turn(), winner.1);
    assert_eq!(round.scores()[winner.1 % 2], points);
    assert_eq!(round.scores()[(winner.1 + 1) % 2], 0);
    assert_eq!(round.played_cards().len(), 4);
}

#[test]
fn same_actions_on_a_copy_give_the_same_round() {
    for dealer in 0..4 {
        let mut first = Round::new(dealer);
        let mut second = first;
        while !first.is_terminal() {
            let action = random_action(&first);
            first.apply_action(action);
            second.apply_action(action);
            assert_eq!(hands_of(&first), hands_of(&second));
            assert_eq!(first.played_cards(), second.played_cards());
            assert_eq!(first.scores(), second.scores());
            assert_eq!(first.turn(), second.turn());
            assert_eq!(first.dealer(), second.dealer());
            assert_eq!(first.phase(), second.phase());
            assert_eq!(first.trump(), second.trump());
            assert_eq!(first.trick_ref().winner(), second.trick_ref().winner());
            assert_eq!(first.trick_ref().score(), second.trick_ref().score());
            assert_eq!(first.trick_ref().cards().iter(), second.trick_ref().cards().iter());
        }
    }
}

#[test]
fn randomize_keeps_what_the_observer_sees() {
    let weights = Weights::uniform();
    let mut round = Round::new(1);
    let mut step = 0;
    while !round.is_terminal() {
        for observer in 0..4 {
            let world = round.randomize(observer, &weights);
            assert_eq!(world.player_cards(observer), round.player_cards(observer));
            assert_eq!(world.played_cards(), round.played_cards());
            assert_eq!(world.scores(), round.scores());
            assert_eq!(world.trick_ref().cards().iter(), round.trick_ref().cards().iter());
            assert_eq!(world.trick_ref().winner(), round.trick_ref().winner());
            assert_eq!(world.trump(), round.trump());
            assert_eq!(world.turn(), round.turn());
            assert_eq!(world.phase(), round.phase());
            for player in 0..4 {
                assert_eq!(world.player_cards(player).len(), round.player_cards(player).len());
            }
            check_partition(&world);
            check_hand_sizes(&world);
        }
        let action = random_action(&round);
        round.apply_action(action);
        step += 1;
    }
    assert_eq!(step, 33);
}

#[test]
fn randomize_changes_the_hidden_hands() {
    let weights = Weights::uniform();
    let round = Round::new(0);
    let mut differs = false;
    for _ in 0..20 {
        let world = round.randomize(0, &weights);
        if hands_of(&world) != hands_of(&round) {
            differs = true;
        }
    }
    assert!(differs);
}

#[test]
fn randomize_gives_no_card_to_a_player_with_weight_zero() {
    let round = Round::new(0);
    let mut weights = Weights::uniform();
    // player 1 cannot hold any spade, player 2 cannot hold any heart
    for rank in 0..8 {
        weights.set(1, Card::new(rank), 0);
        weights.set(2, Card::new(16 + rank), 0);
    }
    assert_eq!(weights.weight(1, Card::new(3)), 0);
    assert_eq!(weights.weight(1, Card::new(8)), 1);
    weights.set(3, Card::new(8), 1000);
    assert_eq!(weights.weight(3, Card::new(8)), 1000);
    let mut honoured = 0;
    for _ in 0..50 {
        let world = round.randomize(0, &weights);
        check_partition(&world);
        for player in 0..4 {
            assert_eq!(world.player_cards(player).len(), 8);
        }
        if !world.player_cards(1).has_suit(Suit::Spades)
            && !world.player_cards(2).has_suit(Suit::Hearts)
        {
            honoured += 1;
        }
    }
    // a player may still have to take such a card when the others are full
    assert!(honoured > 0);
}

#[test]
fn setup_for_next_round_passes_the_deal() {
    let mut round = play_round_checking(2);
    let trump = round.trump();
    round.setup_for_next_round();
    assert_eq!(round.dealer(), 3);
    assert_eq!(round.turn(), 3);
    assert_eq!(round.phase(), RoundPhase::PickTrump);
    assert_eq!(round.scores(), [0, 0]);
    assert!(round.played_cards().is_empty());
    assert_eq!(round.trick_ref().cards().len(), 0);
    assert_eq!(round.trump(), trump);
    for player in 0..4 {
        assert_eq!(round.player_cards(player).len(), 8);
    }
    check_partition(&round);
    round.setup_for_next_round();
    assert_eq!(round.dealer(), 0);
}

#[test]
fn default_round_holds_no_cards() {
    let round = Round::default();
    for player in 0..4 {
        assert!(round.player_cards(player).is_empty());
    }
    assert!(round.played_cards().is_empty());
    assert_eq!(round.phase(), RoundPhase::PickTrump);
    assert_eq!(RoundPhase::default(), RoundPhase::PickTrump);
    assert_eq!(round.dealer(), 0);
    assert_eq!(round.scores(), [0, 0]);
}

#[test]
fn forced_action_is_the_only_legal_one() {
    // player 0 holds one spade and leads nothing: after spades are led the
    // only spade is forced
    let observer_cards = Stack::from_slice(&[0, 8, 9, 10, 11, 12, 13, 14]);
    let mut round = Round::from_observer(
        observer_cards,
        Stack::default(),
        [8, 8, 8, 8],
        2,
        3,
        RoundPhase::PlayCards,
        None,
        [0, 0],
    );
    assert_eq!(round.turn(), 3);
    let lead = random_action(&round);
    round.apply_action(lead);
    assert_eq!(round.turn(), 0);
    let forced = forced_action(&round);
    let actions = round.possible_actions();
    if actions.len() == 1 {
        assert_eq!(forced, Some(actions.to_vec()[0]));
    } else {
        assert_eq!(forced, None);
    }
    if round.suit_to_follow() == Some(Suit::Spades) {
        assert_eq!(forced, Some(Action::PlayCard(Card::new(0))));
    }
    // the last card of a hand is always forced
    let mut round = Round::new(0);
    while !round.is_terminal() {
        let forced = forced_action(&round);
        assert_eq!(forced.is_some(), round.possible_actions().len() == 1);
        if round.phase() == RoundPhase::PlayCards && round.player_cards(round.turn()).len() == 1 {
            assert!(forced.is_some());
        }
        let action = random_action(&round);
        if let Some(only) = forced {
            assert_eq!(action, only);
        }
        round.apply_action(action);
    }
}

#[test]
fn observed_action_is_applied_and_the_hidden_cards_dealt_anew() {
    let weights = Weights::uniform();
    for _ in 0..50 {
        let mut round = Round::new(0);
        let world = round.observe_action(2, Action::PickTrump(Some(Suit::Clubs)), &weights);
        assert_eq!(world.phase(), RoundPhase::PlayCards);
        assert_eq!(world.trump(), Some(Suit::Clubs));
        assert_eq!(world.player_cards(2), round.player_cards(2));
        check_partition(&world);
        round.apply_action(Action::PickTrump(None));
        assert_eq!(round.turn(), 1);
        // the observer, player 0, sees player 1 play a card that another
        // player holds in this world
        let card = round.player_cards(3).pick_random_card();
        let world = round.observe_action(0, Action::PlayCard(card), &weights);
        assert_eq!(world.player_cards(0), round.player_cards(0));
        assert_eq!(world.played_cards(), Stack::from_slice(&[card.get_index()]));
        assert_eq!(world.trick_ref().cards().iter(), vec![card]);
        assert_eq!(world.trick_ref().winner(), Some((card, 1)));
        assert_eq!(world.turn(), 2);
        assert_eq!(world.player_cards(1).len(), 7);
        assert_eq!(world.player_cards(2).len(), 8);
        assert_eq!(world.player_cards(3).len(), 8);
        check_partition(&world);
        check_hand_sizes(&world);
        // and a card that player 1 does hold
        let card = round.player_cards(1).pick_random_card();
        let world = round.observe_action(0, Action::PlayCard(card), &weights);
        assert_eq!(world.player_cards(0), round.player_cards(0));
        assert!(world.played_cards().has_card(card));
        assert_eq!(world.player_cards(1).len(), 7);
        check_partition(&world);
        // the observer's own play
        let card = round.player_cards(1).pick_random_card();
        let world = round.observe_action(1, Action::PlayCard(card), &weights);
        let mut left = round.player_cards(1);
        left.remove(card);
        assert_eq!(world.player_cards(1), left);
        check_partition(&world);
    }
}

#[test]
fn rounds_in_play_are_consistent() {
    assert!(!Round::default().is_consistent());
    for dealer in 0..4 {
        let mut round = Round::new(dealer);
        assert!(round.is_consistent());
        while !round.is_terminal() {
            let action = random_action(&round);
            round.apply_action(action);
            assert!(round.is_consistent());
            assert!(round.trick_ref().is_consistent());
            let seen = round.randomize(round.turn(), &Weights::uniform());
            assert!(seen.is_consistent());
        }
    }
}

#[test]
fn observations_that_do_not_add_up_give_no_consistent_round() {
    let hand = Stack::from_slice(&[0, 1, 2, 3, 4, 5, 6, 7]);
    let sound = Round::from_observer(
        hand,
        Stack::default(),
        [8, 8, 8, 8],
        1,
        2,
        RoundPhase::PlayCards,
        Some(Suit::Hearts),
        [0, 0],
    );
    assert!(sound.is_consistent());
    // points that no played card accounts for
    let points = Round::from_observer(
        hand,
        Stack::default(),
        [8, 8, 8, 8],
        1,
        2,
        RoundPhase::PlayCards,
        Some(Suit::Hearts),
        [3, 0],
    );
    assert!(!points.is_consistent());
    // a seat that does not exist
    let seat = Round::from_observer(
        hand,
        Stack::default(),
        [8, 8, 8, 8],
        1,
        4,
        RoundPhase::PlayCards,
        None,
        [0, 0],
    );
    assert!(!seat.is_consistent());
    // unequal hands between tricks
    let uneven = Round::from_observer(
        hand,
        Stack::default(),
        [8, 12, 6, 6],
        1,
        2,
        RoundPhase::PlayCards,
        None,
        [0, 0],
    );
    assert!(!uneven.is_consistent());
    // four cards played, worth 10 points, and seven left in each hand
    let played = Stack::from_slice(&[3, 4, 5, 6]);
    let later = Round::from_observer(
        Stack::from_slice(&[0, 1, 2, 8, 9, 10, 11]),
        played,
        [7, 7, 7, 7],
        1,
        2,
        RoundPhase::PlayCards,
        None,
        [10, 0],
    );
    assert!(later.is_consistent());
    let early = Round::from_observer(
        Stack::from_slice(&[0, 1, 2, 8, 9, 10, 11]),
        played,
        [7, 7, 7, 7],
        1,
        2,
        RoundPhase::PickTrump,
        None,
        [10, 0],
    );
    assert!(!early.is_consistent());
}

#[test]
fn permits_agrees_with_the_possible_actions() {
    let mut round = Round::new(2);
    while !round.is_terminal() {
        let actions = round.possible_actions();
        for index in 0..32 {
            let action = Action::PlayCard(Card::new(index));
            let listed = match actions {
                ActionCollection::Cards(cards) => cards.has_card(Card::new(index)),
                _ => false,
            };
            assert_eq!(round.permits(action), listed);
        }
        for trump in [None, Some(Suit::Spades), Some(Suit::Clubs), Some(Suit::Hearts), Some(Suit::Diamonds)] {
            let action = Action::PickTrump(trump);
            let listed = match actions {
                ActionCollection::Trumps(_) => actions.has(&action),
                _ => false,
            };
            assert_eq!(round.permits(action), listed);
        }
        let action = random_action(&round);
        round.apply_action(action);
    }
    assert!(!round.permits(Action::PlayCard(Card::new(0))));
    assert!(!round.permits(Action::PickTrump(None)));
}

#[test]
fn weights_that_say_nothing_or_too_much_still_give_a_deal() {
    let mut round = Round::new(1);
    let action = random_action(&round);
    round.apply_action(action);
    for weights in [Weights::filled(0), Weights::filled(u32::MAX), Weights::filled(1 << 31)] {
        for observer in 0..4 {
            let seen = round.randomize(observer, &weights);
            assert!(seen.is_consistent());
            assert_eq!(seen.player_cards(observer), round.player_cards(observer));
            for player in 0..4 {
                assert_eq!(seen.player_cards(player).len(), 8);
            }
        }
    }
}

#[test]
fn a_card_goes_to_the_only_player_with_weight_for_it() {
    let round = Round::new(0);
    // player 2 alone may hold the spades that player 0 does not see
    let mut weights = Weights::filled(0);
    for index in 0..32 {
        let card = Card::new(index);
        if index < 8 {
            weights.set(2, card, 5);
        } else {
            weights.set(1, card, 1);
            weights.set(2, card, 1);
            weights.set(3, card, 1);
        }
    }
    let hidden_spades = Stack::all().of_suit(Suit::Spades).difference(round.player_cards(0));
    for _ in 0..50 {
        let seen = round.randomize(0, &weights);
        assert!(seen.is_consistent());
        assert_eq!(seen.player_cards(2).of_suit(Suit::Spades), hidden_spades);
        assert!(seen.player_cards(1).of_suit(Suit::Spades).is_empty());
        assert!(seen.player_cards(3).of_suit(Suit::Spades).is_empty());
    }
}
