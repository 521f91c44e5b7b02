use manille::action::Action;
use manille::card::Card;
use manille::io::{
    card_image_src, observed_round, phase_of_index, selected_actions, stack_of_indices,
    trump_of_index,
};
use manille::round::{Round, RoundPhase};
use manille::stack::Stack;
use manille::suit::Suit;

#[test]
fn image_names_follow_rank_and_suit() {
    assert_eq!(card_image_src(&Card::new(0)), "file://assets/cards/7_of_spades.png");
    assert_eq!(card_image_src(&Card::new(7)), "file://assets/cards/10_of_spades.png");
    assert_eq!(card_image_src(&Card::new(11)), "file://assets/cards/jack_of_clubs.png");
    assert_eq!(card_image_src(&Card::new(20)), "file://assets/cards/queen_of_hearts.png");
    assert_eq!(card_image_src(&Card::new(29)), "file://assets/cards/king_of_diamonds.png");
    assert_eq!(card_image_src(&Card::new(30)), "file://assets/cards/ace_of_diamonds.png");
}

#[test]
fn indices_beyond_the_deck_are_passed_over() {
    let stack = stack_of_indices(&vec![3, 40, 31, 3, 32, 0]);
    assert_eq!(stack.data(), (1 << 3) | (1 << 31) | 1);
    assert_eq!(stack_of_indices(&vec![]), Stack::default());
    assert_eq!(stack_of_indices(&vec![32, 33, u32::MAX]), Stack::default());
}

#[test]
fn phases_and_trumps_by_number() {
    assert_eq!(phase_of_index(0), Some(RoundPhase::PickTrump));
    assert_eq!(phase_of_index(1), Some(RoundPhase::PlayCards));
    assert_eq!(phase_of_index(2), None);
    assert_eq!(trump_of_index(0), Some(Some(Suit::Spades)));
    assert_eq!(trump_of_index(1), Some(Some(Suit::Clubs)));
    assert_eq!(trump_of_index(2), Some(Some(Suit::Hearts)));
    assert_eq!(trump_of_index(3), Some(Some(Suit::Diamonds)));
    assert_eq!(trump_of_index(4), Some(None));
    assert_eq!(trump_of_index(5), None);
}

#[test]
fn selection_keeps_order_and_repeats() {
    let actions = vec![
        Action::PlayCard(Card::new(4)),
        Action::PlayCard(Card::new(9)),
        Action::PickTrump(None),
    ];
    let selected = selected_actions(&actions, &vec![2, 0, 7, 0, 3, 1]);
    assert_eq!(
        selected,
        vec![actions[2], actions[0], actions[0], actions[1]]
    );
    assert!(selected_actions(&actions, &vec![]).is_empty());
    assert!(selected_actions(&vec![], &vec![0, 1]).is_empty());
}

#[test]
fn observed_round_needs_room_for_the_other_cards() {
    let hand = Stack::from_slice(&[0, 1, 2, 3, 4, 5, 6, 7]);
    let round: Round = observed_round(
        hand,
        Stack::default(),
        [8, 8, 8, 8],
        0,
        1,
        RoundPhase::PickTrump,
        None,
        [0, 0],
    )
    .unwrap();
    assert_eq!(round.player_cards(0), hand);
    for player in 1..4 {
        assert_eq!(round.player_cards(player).len(), 8);
    }
    assert_eq!(round.unplayed_cards(), Stack::all());
    // 24 cards are left for seats that take 23
    assert!(observed_round(
        hand,
        Stack::default(),
        [8, 8, 8, 7],
        0,
        1,
        RoundPhase::PickTrump,
        None,
        [0, 0],
    )
    .is_none());
    // counts too large to be added still leave room
    let round = observed_round(
        hand,
        Stack::default(),
        [8, usize::MAX, usize::MAX, 8],
        0,
        1,
        RoundPhase::PickTrump,
        None,
        [0, 0],
    )
    .unwrap();
    let others = round.player_cards(1).len() + round.player_cards(2).len() + round.player_cards(3).len();
    assert_eq!(others, 24);
    assert!(round.player_cards(3).len() <= 8);
}
