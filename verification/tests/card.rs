use manille::card::Card;
use manille::io::card_image_src;
use manille::suit::Suit;

#[test]
fn test_to_index() {
    assert!(Card::new(31).get_index() == 31);
    assert!(Card::new(4).get_index() == 4);
    assert!(Card::new(17).get_index() == 17);
}

#[test]
fn card_index_splits_into_suit_and_rank() {
    for index in 0..32u32 {
        let card = Card::new(index);
        assert_eq!(card.get_index(), index);
        assert_eq!(card.value() as u32, index % 8);
        assert_eq!(card.suit().to_index() as u32, index / 8);
        assert_eq!(8 * card.suit().to_index() as u32 + card.value() as u32, index);
    }
}

#[test]
fn card_scores_follow_the_rank() {
    let expected = [0, 0, 0, 1, 2, 3, 4, 5];
    for suit in 0..4u32 {
        for rank in 0..8u32 {
            assert_eq!(Card::new(8 * suit + rank).score(), expected[rank as usize]);
        }
    }
}

#[test]
fn deck_is_worth_sixty_points() {
    let total: i16 = (0..32u32).map(|index| Card::new(index).score()).sum();
    assert_eq!(total, 60);
}

#[test]
fn from_raw_agrees_with_new() {
    for index in 0..32u32 {
        let plain = Card::new(index);
        let hinted = Card::from_raw(index, Some((index % 8) as u8), Some(Suit::from_index(index)));
        assert_eq!(plain, hinted);
        assert_eq!(plain, Card::from_raw(index, None, Some(Suit::from_index(index))));
        assert_eq!(plain, Card::from_raw(index, Some((index % 8) as u8), None));
    }
}

#[test]
fn default_card_is_seven_of_spades() {
    let card = Card::default();
    assert_eq!(card.get_index(), 0);
    assert_eq!(card.suit(), Suit::Spades);
    assert_eq!(card.value(), 0);
}

#[test]
fn card_text_is_glyph_then_rank() {
    assert_eq!(Card::new(0).to_string(), "♠7");
    assert_eq!(Card::new(1).to_string(), "♠8");
    assert_eq!(Card::new(2).to_string(), "♠9");
    assert_eq!(Card::new(11).to_string(), "♣J");
    assert_eq!(Card::new(20).to_string(), "♥Q");
    assert_eq!(Card::new(29).to_string(), "♦K");
    assert_eq!(Card::new(6).to_string(), "♠A");
    assert_eq!(Card::new(23).to_string(), "♥10");
}

#[test]
fn suit_masks_and_indices() {
    assert_eq!(Suit::Spades.mask(), 0x0000_00ff);
    assert_eq!(Suit::Clubs.mask(), 0x0000_ff00);
    assert_eq!(Suit::Hearts.mask(), 0x00ff_0000);
    assert_eq!(Suit::Diamonds.mask(), 0xff00_0000);
    assert_eq!(Suit::from_index(0), Suit::Spades);
    assert_eq!(Suit::from_index(7), Suit::Spades);
    assert_eq!(Suit::from_index(8), Suit::Clubs);
    assert_eq!(Suit::from_index(16), Suit::Hearts);
    assert_eq!(Suit::from_index(31), Suit::Diamonds);
    for ordinal in 0..4u8 {
        assert_eq!(Suit::from_ordinal(ordinal).to_index(), ordinal);
    }
    assert_eq!(Suit::default(), Suit::Spades);
}

#[test]
fn suit_glyphs() {
    assert_eq!(Suit::Spades.to_string(), "♠");
    assert_eq!(Suit::Clubs.to_string(), "♣");
    assert_eq!(Suit::Hearts.to_string(), "♥");
    assert_eq!(Suit::Diamonds.to_string(), "♦");
}

#[test]
fn card_image_sources() {
    assert_eq!(card_image_src(&Card::new(0)), "file://assets/cards/7_of_spades.png");
    assert_eq!(card_image_src(&Card::new(9)), "file://assets/cards/8_of_clubs.png");
    assert_eq!(card_image_src(&Card::new(18)), "file://assets/cards/9_of_hearts.png");
    assert_eq!(card_image_src(&Card::new(27)), "file://assets/cards/jack_of_diamonds.png");
    assert_eq!(card_image_src(&Card::new(20)), "file://assets/cards/queen_of_hearts.png");
    assert_eq!(card_image_src(&Card::new(5)), "file://assets/cards/king_of_spades.png");
    assert_eq!(card_image_src(&Card::new(14)), "file://assets/cards/ace_of_clubs.png");
    assert_eq!(card_image_src(&Card::new(31)), "file://assets/cards/10_of_diamonds.png");
}
