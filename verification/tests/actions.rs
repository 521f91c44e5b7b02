use manille::action::Action;
use manille::action_collection::{ActionCollection, NO_TRUMP_INDEX, NO_TRUMP_MASK};
use manille::card::Card;
use manille::stack::Stack;
use manille::suit::Suit;

fn play(index: u32) -> Action {
    Action::PlayCard(Card::new(index))
}

#[test]
fn action_texts() {
    assert_eq!(Action::PickTrump(Some(Suit::Hearts)).to_string(), "♥");
    assert_eq!(Action::PickTrump(Some(Suit::Spades)).to_string(), "♠");
    assert_eq!(Action::PickTrump(None).to_string(), "None");
    assert_eq!(play(7).to_string(), "♠10");
    assert_eq!(play(27).to_string(), "♦J");
}

#[test]
fn no_trump_constants() {
    assert_eq!(NO_TRUMP_INDEX, 4);
    assert_eq!(NO_TRUMP_MASK, 1 << 4);
}

#[test]
fn cards_to_vec_lists_lowest_first() {
    let cards = ActionCollection::Cards(Stack::from_slice(&[20, 3, 31]));
    assert_eq!(cards.to_vec(), vec![play(3), play(20), play(31)]);
    assert_eq!(ActionCollection::Cards(Stack::default()).to_vec(), vec![]);
    assert_eq!(ActionCollection::Uninit.to_vec(), vec![]);
}

#[test]
fn trumps_to_vec_lists_suits_then_no_trump() {
    let trumps = ActionCollection::Trumps(0b10101);
    assert_eq!(
        trumps.to_vec(),
        vec![
            Action::PickTrump(Some(Suit::Spades)),
            Action::PickTrump(Some(Suit::Hearts)),
            Action::PickTrump(None),
        ]
    );
    assert_eq!(ActionCollection::Trumps(0b11111).to_vec().len(), 5);
    assert_eq!(ActionCollection::Trumps(0).to_vec(), vec![]);
}

#[test]
fn len_and_has() {
    let cards = ActionCollection::Cards(Stack::from_slice(&[20, 3, 31]));
    assert_eq!(cards.len(), 3);
    assert!(!cards.is_empty());
    assert!(cards.has(&play(20)));
    assert!(!cards.has(&play(21)));
    let trumps = ActionCollection::Trumps(0b10010);
    assert_eq!(trumps.len(), 2);
    assert!(trumps.has(&Action::PickTrump(Some(Suit::Clubs))));
    assert!(trumps.has(&Action::PickTrump(None)));
    assert!(!trumps.has(&Action::PickTrump(Some(Suit::Spades))));
    assert!(!trumps.has(&Action::PickTrump(Some(Suit::Diamonds))));
    let none = ActionCollection::uninit();
    assert_eq!(none.len(), 0);
    assert!(none.is_empty());
    assert!(!none.has(&play(0)));
    assert!(!none.has(&Action::PickTrump(None)));
}

#[test]
fn push_decides_the_kind() {
    let mut actions = ActionCollection::uninit();
    actions.push(play(9));
    actions.push(play(2));
    actions.push(play(9));
    assert_eq!(actions.to_vec(), vec![play(2), play(9)]);
    let mut actions = ActionCollection::uninit();
    actions.push(Action::PickTrump(None));
    actions.push(Action::PickTrump(Some(Suit::Diamonds)));
    assert_eq!(
        actions.to_vec(),
        vec![Action::PickTrump(Some(Suit::Diamonds)), Action::PickTrump(None)]
    );
    assert!(matches!(actions, ActionCollection::Trumps(0b11000)));
}

#[test]
fn without_takes_the_other_set_out() {
    let all = ActionCollection::Cards(Stack::from_slice(&[1, 2, 3, 4]));
    let tried = ActionCollection::Cards(Stack::from_slice(&[2, 4, 9]));
    assert_eq!(all.without(&tried).to_vec(), vec![play(1), play(3)]);
    assert_eq!(all.without(&ActionCollection::Uninit).to_vec().len(), 4);
    let trumps = ActionCollection::Trumps(0b11111);
    let tried = ActionCollection::Trumps(0b10001);
    assert!(matches!(trumps.without(&tried), ActionCollection::Trumps(0b01110)));
    assert!(matches!(trumps.without(&ActionCollection::Uninit), ActionCollection::Trumps(0b11111)));
}

#[test]
fn pop_random_empties_cards() {
    let mut actions = ActionCollection::Cards(Stack::from_slice(&[5, 6, 7]));
    let mut seen = vec![];
    while let Some(action) = actions.pop_random() {
        assert!(!actions.has(&action));
        seen.push(action);
    }
    seen.sort_by_key(|action| match action {
        Action::PlayCard(card) => card.get_index(),
        Action::PickTrump(_) => 99,
    });
    assert_eq!(seen, vec![play(5), play(6), play(7)]);
    assert_eq!(actions.len(), 0);
}

#[test]
fn pop_random_empties_trumps() {
    let mut actions = ActionCollection::Trumps(0b10110);
    let mut mask = 0u8;
    let mut count = 0;
    while let Some(action) = actions.pop_random() {
        assert!(!actions.has(&action));
        match action {
            Action::PickTrump(Some(suit)) => mask |= 1 << suit.to_index(),
            Action::PickTrump(None) => mask |= 1 << 4,
            Action::PlayCard(_) => panic!("a card among trump choices"),
        }
        count += 1;
    }
    assert_eq!(count, 3);
    assert_eq!(mask, 0b10110);
}
