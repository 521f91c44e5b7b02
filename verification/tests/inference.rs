use manille::action::Action;
use manille::card::Card;
use manille::inference::{ruled_out, trump_marked, Inference, SCALE};
use manille::model::RoundPhase;
use manille::players::random_action;
use manille::round::Round;
use manille::stack::Stack;
use manille::suit::Suit;

// deck indices: 8 * suit + rank, ranks 7 8 9 J Q K A 10
const S7: u32 = 0;
const SK: u32 = 5;
const SA: u32 = 6;
const C7: u32 = 8;
const C8: u32 = 9;
const CQ: u32 = 12;
const H7: u32 = 16;
const HK: u32 = 21;
const D7: u32 = 24;

fn suit_cards(suit: u32) -> Stack {
    Stack::from_data(0xff << (8 * suit))
}

/// A round in which player 3 has led `lead` and player 0 is to play.
fn after_lead(lead: u32, trump: Option<Suit>) -> Round {
    loop {
        let observer_cards = Stack::from_slice(&[S7, SA, C8, CQ, H7, D7, 25, 26]);
        let mut round = Round::from_observer(
            observer_cards,
            Stack::default(),
            [8, 8, 8, 8],
            2,
            3,
            RoundPhase::PlayCards,
            trump,
            [0, 0],
        );
        if round.player_cards(3).has_card(Card::new(lead)) {
            round.apply_action(Action::PlayCard(Card::new(lead)));
            return round;
        }
    }
}

#[test]
fn following_with_a_higher_card_rules_nothing_out() {
    let round = after_lead(SK, Some(Suit::Hearts));
    assert_eq!(ruled_out(&round, 0, Card::new(SA)), Stack::default());
}

#[test]
fn following_below_the_holder_rules_out_the_higher_cards() {
    let round = after_lead(SK, Some(Suit::Hearts));
    // above the king of spades: ace and ten
    assert_eq!(ruled_out(&round, 0, Card::new(S7)), Stack::from_slice(&[6, 7]));
    // the partner of the holder shows nothing by it
    assert_eq!(ruled_out(&round, 1, Card::new(S7)), Stack::default());
}

#[test]
fn not_following_rules_out_the_led_suit() {
    let round = after_lead(HK, None);
    let unplayed_hearts = suit_cards(2).difference(Stack::from_slice(&[HK]));
    assert_eq!(ruled_out(&round, 0, Card::new(C8)), unplayed_hearts);
    assert_eq!(ruled_out(&round, 1, Card::new(C8)), unplayed_hearts);
}

#[test]
fn not_trumping_rules_out_the_trumps() {
    let round = after_lead(HK, Some(Suit::Clubs));
    let unplayed_hearts = suit_cards(2).difference(Stack::from_slice(&[HK]));
    // a diamond on hearts with clubs as trump: no hearts and no clubs
    assert_eq!(ruled_out(&round, 0, Card::new(D7)), unplayed_hearts.union(suit_cards(1)));
    // a trump on hearts: only the hearts are ruled out
    assert_eq!(ruled_out(&round, 0, Card::new(C8)), unplayed_hearts);
    // the partner of the holder does not have to trump
    assert_eq!(ruled_out(&round, 1, Card::new(D7)), unplayed_hearts);
}

#[test]
fn not_overtrumping_rules_out_the_higher_trumps() {
    let mut round = after_lead(HK, Some(Suit::Clubs));
    // player 0 trumps with the queen of clubs, player 1 then throws a diamond
    round.apply_action(Action::PlayCard(Card::new(CQ)));
    assert_eq!(round.trick_ref().winner(), Some((Card::new(CQ), 0)));
    let unplayed_hearts = suit_cards(2).difference(Stack::from_slice(&[HK]));
    let higher_clubs = Stack::from_slice(&[13, 14, 15]);
    assert_eq!(ruled_out(&round, 1, Card::new(D7)), unplayed_hearts.union(higher_clubs));
    // a lower trump below the holder rules out the higher trumps too
    assert_eq!(ruled_out(&round, 1, Card::new(C7)), unplayed_hearts.union(higher_clubs));
}

#[test]
fn leading_rules_nothing_out() {
    let round = Round::from_observer(
        Stack::from_slice(&[S7, SA, C8, CQ, H7, D7, 25, 26]),
        Stack::default(),
        [8, 8, 8, 8],
        3,
        0,
        RoundPhase::PlayCards,
        Some(Suit::Hearts),
        [0, 0],
    );
    assert_eq!(ruled_out(&round, 0, Card::new(SA)), Stack::default());
}

#[test]
fn trump_marks_the_unplayed_cards_of_the_suit() {
    let round = after_lead(HK, None);
    assert_eq!(trump_marked(&round, None), Stack::default());
    assert_eq!(trump_marked(&round, Some(Suit::Clubs)), suit_cards(1));
    assert_eq!(
        trump_marked(&round, Some(Suit::Hearts)),
        suit_cards(2).difference(Stack::from_slice(&[HK]))
    );
}

#[test]
fn a_card_played_leaves_every_hand() {
    let round = after_lead(HK, Some(Suit::Clubs));
    let mut inference = Inference::new();
    for player in 0..4 {
        assert_eq!(inference.possible(player), Stack::all());
    }
    inference.infer(&round, Action::PlayCard(Card::new(D7)), 0);
    let excluded = ruled_out(&round, 0, Card::new(D7));
    let without_card = Stack::all().difference(Stack::from_slice(&[D7]));
    assert_eq!(inference.possible(0), without_card.difference(excluded));
    for player in 1..4 {
        assert_eq!(inference.possible(player), without_card);
        assert!(!inference.may_hold(player, Card::new(D7)));
        assert!(inference.may_hold(player, Card::new(C8)));
    }
    assert!(!inference.may_hold(0, Card::new(C8)));
    assert!(!inference.may_hold(0, Card::new(H7)));
    assert!(inference.may_hold(0, Card::new(S7)));
}

#[test]
fn same_observation_twice_changes_nothing() {
    let round = after_lead(HK, Some(Suit::Clubs));
    let mut inference = Inference::default();
    inference.infer(&round, Action::PlayCard(Card::new(D7)), 0);
    let once = [
        inference.possible(0),
        inference.possible(1),
        inference.possible(2),
        inference.possible(3),
    ];
    inference.infer(&round, Action::PlayCard(Card::new(D7)), 0);
    for player in 0..4 {
        assert_eq!(inference.possible(player), once[player]);
    }
}

#[test]
fn picking_trump_rules_nothing_out() {
    let round = Round::new(0);
    let mut inference = Inference::new();
    inference.infer(&round, Action::PickTrump(Some(Suit::Hearts)), 0);
    inference.infer(&round, Action::PickTrump(None), 0);
    for player in 0..4 {
        assert_eq!(inference.possible(player), Stack::all());
    }
}

#[test]
fn what_is_ruled_out_stays_ruled_out_and_is_never_held() {
    for dealer in 0..4 {
        let mut round = Round::new(dealer);
        let mut inference = Inference::new();
        while !round.is_terminal() {
            let before = [
                inference.possible(0),
                inference.possible(1),
                inference.possible(2),
                inference.possible(3),
            ];
            let action = random_action(&round);
            inference.infer(&round, action, round.turn());
            round.apply_action(action);
            for player in 0..4 {
                let now = inference.possible(player);
                assert_eq!(now.intersect(before[player]), now);
                // a rule-abiding player never holds a card that play ruled out
                let hand = round.player_cards(player);
                assert_eq!(hand.intersect(now), hand);
                assert!(now.intersect(round.played_cards()).is_empty());
            }
        }
        for player in 0..4 {
            assert!(inference.possible(player).is_empty());
        }
    }
}

fn share(weight: u64, num: u64, den: u64) -> u64 {
    if weight == 0 {
        0
    } else if weight * num / den == 0 {
        1
    } else {
        weight * num / den
    }
}

fn rescaled(row: [u64; 32]) -> [u64; 32] {
    let sum: u64 = row.iter().sum();
    if SCALE as u64 - 32 <= sum && sum <= SCALE as u64 + 32 {
        return row;
    }
    let mut scaled = [0u64; 32];
    for card in 0..32 {
        scaled[card] = if sum == 0 { 0 } else { share(row[card], SCALE as u64, sum) };
    }
    scaled
}

#[test]
fn weights_start_at_a_thirty_second_of_the_scale() {
    assert_eq!(SCALE, 1 << 20);
    let inference = Inference::new();
    for player in 0..4 {
        assert_eq!(inference.weights(player), [32768u32; 32]);
        for index in 0..32 {
            assert_eq!(inference.weight(player, Card::new(index)), 32768);
            assert_eq!(inference.table().weight(player, Card::new(index)), 32768);
        }
    }
}

#[test]
fn a_card_led_takes_its_weight_off_every_row() {
    let round = Round::from_observer(
        Stack::from_slice(&[S7, SA, C8, CQ, H7, D7, 25, 26]),
        Stack::default(),
        [8, 8, 8, 8],
        3,
        0,
        RoundPhase::PlayCards,
        Some(Suit::Hearts),
        [0, 0],
    );
    let mut inference = Inference::new();
    inference.infer(&round, Action::PlayCard(Card::new(SA)), 0);
    for player in 0..4 {
        let row = inference.weights(player);
        for index in 0..32 {
            // 31 weights of 32768 share the scale: 32768 * 2^20 / (31 * 32768)
            let expected = if index == SA as usize { 0 } else { 33825 };
            assert_eq!(row[index], expected);
        }
    }
}

#[test]
fn trump_choice_shifts_weight_to_the_chooser() {
    let round = Round::new(0);
    let mut inference = Inference::new();
    inference.infer(&round, Action::PickTrump(Some(Suit::Hearts)), 0);
    let mut chooser = [32768u64; 32];
    let mut other = [32768u64; 32];
    for rank in 0..8u64 {
        let parts = (rank + 5) * 7;
        chooser[16 + rank as usize] = share(SCALE as u64, parts, 120);
        other[16 + rank as usize] = share(32768, 120 - parts, 120);
    }
    let chooser = rescaled(chooser);
    let other = rescaled(other);
    for index in 0..32 {
        assert_eq!(inference.weights(0)[index] as u64, chooser[index]);
        for player in 1..4 {
            assert_eq!(inference.weights(player)[index] as u64, other[index]);
        }
    }
    // the ten of hearts: 84 of 120 parts before the row is scaled
    assert_eq!(inference.weight(0, Card::new(23)), 155619);
    assert_eq!(inference.weight(0, Card::new(0)), 6947);
    // the higher the trump, the likelier the chooser and the less likely the others
    for rank in 0..7 {
        assert!(inference.weight(0, Card::new(16 + rank)) < inference.weight(0, Card::new(17 + rank)));
        assert!(inference.weight(1, Card::new(16 + rank)) > inference.weight(1, Card::new(17 + rank)));
    }
    assert!(inference.weight(0, Card::new(16)) > inference.weight(1, Card::new(16)));
}

#[test]
fn no_trump_changes_no_weight() {
    let round = Round::new(0);
    let mut inference = Inference::new();
    inference.infer(&round, Action::PickTrump(None), 0);
    for player in 0..4 {
        // a full row shares the scale as before
        assert_eq!(inference.weights(player), [32768u32; 32]);
    }
}

#[test]
fn weights_follow_the_rules_through_a_round() {
    for dealer in 0..4 {
        let mut round = Round::new(dealer);
        let mut inference = Inference::new();
        let mut table = [[32768u64; 32]; 4];
        while !round.is_terminal() {
            let action = random_action(&round);
            let actor = round.turn();
            match action {
                Action::PlayCard(card) => {
                    let excluded = ruled_out(&round, actor, card);
                    for player in 0..4 {
                        for index in 0..32 {
                            let other = Card::new(index as u32);
                            if other == card || (player == actor && excluded.has_card(other)) {
                                table[player][index] = 0;
                            }
                        }
                    }
                }
                Action::PickTrump(trump) => {
                    let marked = trump_marked(&round, trump);
                    for player in 0..4 {
                        for index in 0..32 {
                            let card = Card::new(index as u32);
                            if marked.has_card(card) {
                                let parts = (card.value() as u64 + 5) * 7;
                                table[player][index] = if player == actor {
                                    if table[player][index] != 0 {
                                        share(SCALE as u64, parts, 120)
                                    } else {
                                        0
                                    }
                                } else {
                                    share(table[player][index], 120 - parts, 120)
                                };
                            }
                        }
                    }
                }
            }
            for player in 0..4 {
                table[player] = rescaled(table[player]);
            }
            inference.infer(&round, action, actor);
            round.apply_action(action);
            for player in 0..4 {
                let row = inference.weights(player);
                let mut sum = 0u64;
                for index in 0..32 {
                    assert_eq!(row[index] as u64, table[player][index]);
                    assert!(row[index] <= SCALE);
                    assert_eq!(
                        row[index] > 0,
                        inference.may_hold(player, Card::new(index as u32))
                    );
                    sum += row[index] as u64;
                }
                assert!(sum <= SCALE as u64 + 32);
                assert!(sum == 0 || sum + 32 > SCALE as u64);
            }
        }
    }
}

#[test]
fn inferred_weights_steer_the_deal() {
    let round = after_lead(HK, Some(Suit::Clubs));
    let mut inference = Inference::new();
    // player 0 throws a diamond: no hearts and no clubs
    inference.infer(&round, Action::PlayCard(Card::new(D7)), 0);
    let mut world_round = round;
    world_round.apply_action(Action::PlayCard(Card::new(D7)));
    for _ in 0..20 {
        let world = world_round.randomize(1, inference.table());
        assert_eq!(world.player_cards(1), world_round.player_cards(1));
        for player in 0..4 {
            assert_eq!(world.player_cards(player).len(), world_round.player_cards(player).len());
        }
    }
}

#[test]
fn a_card_taken_in_twice_changes_nothing_the_second_time() {
    for dealer in 0..4 {
        let mut round = Round::new(dealer);
        let mut inference = Inference::new();
        while !round.is_terminal() {
            let action = random_action(&round);
            let actor = round.turn();
            inference.infer(&round, action, actor);
            if let Action::PlayCard(_) = action {
                let mut again = inference;
                again.infer(&round, action, actor);
                for player in 0..4 {
                    assert_eq!(again.weights(player), inference.weights(player));
                }
            }
            round.apply_action(action);
        }
    }
}

#[test]
fn a_row_to_scale_is_left_as_it_is() {
    // 31 weights of 33825 add up to one less than the scale
    let round = Round::from_observer(
        Stack::from_slice(&[S7, SA, C8, CQ, H7, D7, 25, 26]),
        Stack::default(),
        [8, 8, 8, 8],
        3,
        0,
        RoundPhase::PlayCards,
        None,
        [0, 0],
    );
    let mut inference = Inference::new();
    inference.infer(&round, Action::PlayCard(Card::new(SA)), 0);
    assert_eq!(inference.weight(1, Card::new(0)), 33825);
    // without trumps the choice shows nothing, and no row is touched
    let fresh = Round::new(0);
    inference.infer(&fresh, Action::PickTrump(None), 0);
    for player in 0..4 {
        let row = inference.weights(player);
        assert_eq!(row.iter().map(|&w| w as u64).sum::<u64>(), 31 * 33825);
    }
}
