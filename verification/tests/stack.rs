use manille::array::Array;
use manille::bits::{lsb, msb, pop_lsb, pop_random_set_bit, select_random_set_bit, set_bits};
use manille::card::Card;
use manille::stack::{Stack, ALL, CLUBS, DIAMONDS, HEARTS, SPADES};
use manille::suit::Suit;

fn stack_of(indices: &[u32]) -> Stack {
    Stack::from_slice(indices)
}

fn indices_of(stack: Stack) -> Vec<u32> {
    let mut cards = stack.into_iter();
    let mut indices = vec![];
    while let Some(card) = cards.next() {
        indices.push(card.get_index());
    }
    indices
}

#[test]
fn lowest_and_highest_bits() {
    assert_eq!(lsb(0b1000), 3);
    assert_eq!(lsb(1), 0);
    assert_eq!(lsb(0x8000_0000), 31);
    assert_eq!(lsb(0), 32);
    assert_eq!(msb(0b1000), 3);
    assert_eq!(msb(0b1011), 3);
    assert_eq!(msb(1), 0);
    assert_eq!(msb(0xffff_ffff), 31);
}

#[test]
fn pop_lsb_clears_the_lowest_bit() {
    let mut data = 0b1011_0100u32;
    assert_eq!(pop_lsb(&mut data), 2);
    assert_eq!(data, 0b1011_0000);
    assert_eq!(pop_lsb(&mut data), 4);
    assert_eq!(pop_lsb(&mut data), 5);
    assert_eq!(pop_lsb(&mut data), 7);
    assert_eq!(data, 0);
}

#[test]
fn set_bits_lists_positions_in_order() {
    assert_eq!(set_bits(0), Vec::<u32>::new());
    assert_eq!(set_bits(0b1011_0100), vec![2, 4, 5, 7]);
    assert_eq!(set_bits(0x8000_0001), vec![0, 31]);
    assert_eq!(set_bits(0xffff_ffff).len(), 32);
}

#[test]
fn random_bit_is_a_set_bit() {
    let masks = [1u32, 0b1010, 0x8000_0000, 0x0f0f_0f0f, 0xffff_ffff, 0x0001_0000];
    for &mask in masks.iter() {
        for _ in 0..200 {
            let bit = select_random_set_bit(mask);
            assert!(bit < 32);
            assert!(mask & (1 << bit) != 0);
        }
    }
    assert_eq!(select_random_set_bit(0), 32);
}

#[test]
fn random_bit_reaches_every_set_bit() {
    let mask = 0b1001_0010u32;
    let mut seen = 0u32;
    for _ in 0..2000 {
        seen |= 1 << select_random_set_bit(mask);
    }
    assert_eq!(seen, mask);
}

#[test]
fn pop_random_bit_removes_what_it_returns() {
    let mut data = 0x00f0_00f0u32;
    let mut seen = 0u32;
    while data != 0 {
        let before = data;
        let bit = pop_random_set_bit(&mut data);
        assert!(before & (1 << bit) != 0);
        assert_eq!(data, before & !(1 << bit));
        seen |= 1 << bit;
    }
    assert_eq!(seen, 0x00f0_00f0);
}

#[test]
fn suit_constants() {
    assert_eq!(SPADES | CLUBS | HEARTS | DIAMONDS, ALL);
    assert_eq!(Stack::all().data(), ALL);
    assert_eq!(Stack::all().len(), 32);
    assert_eq!(Stack::default().len(), 0);
    assert!(Stack::default().is_empty());
    assert!(!Stack::all().is_empty());
}

#[test]
fn from_slice_and_membership() {
    let stack = stack_of(&[0, 6, 17, 31, 6]);
    assert_eq!(stack.len(), 4);
    assert_eq!(stack.data(), 1 | 1 << 6 | 1 << 17 | 1 << 31);
    for index in 0..32 {
        assert_eq!(stack.has_index(index), [0, 6, 17, 31].contains(&index));
        assert_eq!(stack.has_card(Card::new(index)), [0, 6, 17, 31].contains(&index));
    }
    assert_eq!(stack_of(&[]).data(), 0);
}

#[test]
fn set_data_and_from_data() {
    let mut stack = Stack::default();
    stack.set_data(0b101);
    assert_eq!(stack, Stack::from_data(0b101));
    assert_eq!(indices_of(stack), vec![0, 2]);
}

#[test]
fn push_remove_and_clear() {
    let mut stack = Stack::default();
    stack.push(Card::new(5));
    stack.push(Card::new(30));
    stack.push(Card::new(5));
    assert_eq!(indices_of(stack), vec![5, 30]);
    stack.remove(Card::new(5));
    stack.remove(Card::new(7));
    assert_eq!(indices_of(stack), vec![30]);
    stack.clear();
    assert!(stack.is_empty());
}

#[test]
fn set_operations() {
    let a = stack_of(&[0, 1, 2, 10]);
    let b = stack_of(&[2, 10, 20]);
    assert_eq!(indices_of(a.union(b)), vec![0, 1, 2, 10, 20]);
    assert_eq!(indices_of(a.intersect(b)), vec![2, 10]);
    assert_eq!(indices_of(a.difference(b)), vec![0, 1]);
    assert_eq!(indices_of(a.symmetric_difference(b)), vec![0, 1, 20]);
    assert_eq!(a.complement().len(), 28);
    assert_eq!(a.complement().intersect(a), Stack::default());
    assert_eq!(a.complement().union(a), Stack::all());
}

#[test]
fn operators_agree_with_the_set_operations() {
    let a = stack_of(&[0, 1, 2, 10]);
    let b = stack_of(&[2, 10, 20]);
    assert_eq!(a & b, a.intersect(b));
    assert_eq!(a | b, a.union(b));
    assert_eq!(a ^ b, a.symmetric_difference(b));
    assert_eq!(!a, a.complement());
}

#[test]
fn iterator_walks_from_the_lowest_card() {
    let stack = stack_of(&[31, 3, 16, 8]);
    let mut cards = stack.into_iter();
    assert_eq!(cards.next(), Some(Card::new(3)));
    assert_eq!(cards.next(), Some(Card::new(8)));
    assert_eq!(cards.next(), Some(Card::new(16)));
    assert_eq!(cards.next(), Some(Card::new(31)));
    assert_eq!(cards.next(), None);
    assert_eq!(cards.next(), None);
}

#[test]
fn arrays_list_the_cards_in_order() {
    let stack = stack_of(&[9, 1, 25]);
    let eight = stack.into_array_8();
    assert_eq!(eight.len(), 3);
    assert_eq!(eight.get(0), Some(Card::new(1)));
    assert_eq!(eight.get(1), Some(Card::new(9)));
    assert_eq!(eight.get(2), Some(Card::new(25)));
    assert_eq!(eight.get(3), None);
    assert_eq!(stack.into_array_13().iter(), vec![Card::new(1), Card::new(9), Card::new(25)]);
    let whole = Stack::all().into_array_52();
    assert_eq!(whole.len(), 32);
    for index in 0..32usize {
        assert_eq!(whole.get(index), Some(Card::new(index as u32)));
    }
}

#[test]
fn pop_lowest_takes_cards_in_order() {
    let mut stack = stack_of(&[12, 4, 30]);
    assert_eq!(stack.pop_lowest(), Some(Card::new(4)));
    assert_eq!(stack.pop_lowest(), Some(Card::new(12)));
    assert_eq!(stack.pop_lowest(), Some(Card::new(30)));
    assert_eq!(stack.pop_lowest(), None);
    assert!(stack.is_empty());
}

#[test]
fn random_card_comes_from_the_stack() {
    let stack = stack_of(&[2, 7, 19, 28]);
    let mut seen = Stack::default();
    for _ in 0..500 {
        let card = stack.pick_random_card();
        assert!(stack.has_card(card));
        seen.push(card);
        let suit = stack.pick_random_suit();
        assert!(stack.has_suit(suit));
    }
    assert_eq!(seen, stack);
}

#[test]
fn pop_random_card_empties_the_stack() {
    let mut stack = stack_of(&[2, 7, 19, 28]);
    let mut seen = Stack::default();
    for left in (0..4).rev() {
        let before = stack;
        let card = stack.pop_random_card().unwrap();
        assert!(before.has_card(card));
        assert!(!stack.has_card(card));
        assert_eq!(stack.len(), left);
        seen.push(card);
    }
    assert_eq!(seen, stack_of(&[2, 7, 19, 28]));
    assert_eq!(stack.pop_random_card(), None);
}

#[test]
fn suits_of_a_stack() {
    let stack = stack_of(&[1, 6, 17, 23]);
    assert_eq!(indices_of(stack.of_suit(Suit::Spades)), vec![1, 6]);
    assert_eq!(indices_of(stack.of_suit(Suit::Hearts)), vec![17, 23]);
    assert!(stack.of_suit(Suit::Clubs).is_empty());
    assert!(stack.has_suit(Suit::Spades));
    assert!(!stack.has_suit(Suit::Clubs));
    assert!(stack.has_suit(Suit::Hearts));
    assert!(!stack.has_suit(Suit::Diamonds));
    assert_eq!(stack.highest_of_suit(Suit::Spades), Some(Card::new(6)));
    assert_eq!(stack.lowest_of_suit(Suit::Spades), Some(Card::new(1)));
    assert_eq!(stack.highest_of_suit(Suit::Hearts), Some(Card::new(23)));
    assert_eq!(stack.lowest_of_suit(Suit::Hearts), Some(Card::new(17)));
    assert_eq!(stack.highest_of_suit(Suit::Clubs), None);
    assert_eq!(stack.lowest_of_suit(Suit::Diamonds), None);
}

#[test]
fn highest_and_lowest_go_by_rank() {
    // spades 8 and ace, hearts 8 and ten
    let stack = stack_of(&[1, 6, 17, 23]);
    assert_eq!(stack.lowest(), Some(Card::new(1)));
    assert_eq!(stack.highest(), Some(Card::new(23)));
    // same rank in two suits: the lower deck index
    assert_eq!(stack_of(&[15, 31]).highest(), Some(Card::new(15)));
    assert_eq!(stack_of(&[8, 24]).lowest(), Some(Card::new(8)));
    assert_eq!(Stack::default().highest(), None);
    assert_eq!(Stack::default().lowest(), None);
    assert_eq!(Stack::all().highest(), Some(Card::new(7)));
    assert_eq!(Stack::all().lowest(), Some(Card::new(0)));
}

#[test]
fn below_goes_by_rank_in_every_suit() {
    let jack = Card::new(3);
    assert_eq!(Stack::all_below(jack).data(), 0x0707_0707);
    assert_eq!(Stack::all_below(Card::new(8)).data(), 0);
    assert_eq!(Stack::all_below(Card::new(31)).data(), 0x7f7f_7f7f);
    let stack = stack_of(&[0, 3, 5, 10, 12]);
    assert_eq!(indices_of(stack.below(jack)), vec![0, 10]);
}

#[test]
fn above_is_strictly_higher_in_the_same_suit() {
    // the king of spades is outranked by the ace and the ten of spades
    assert_eq!(Stack::all_above(Card::new(5)), Stack::from_slice(&[6, 7]));
    assert_eq!(Stack::all_above(Card::new(3)).data(), 0x0000_00f0);
    assert_eq!(Stack::all_above(Card::new(8)).data(), 0x0000_fe00);
    assert_eq!(Stack::all_above(Card::new(31)).data(), 0);
    assert_eq!(indices_of(Stack::all_above(Card::new(22))), vec![23]);
    let stack = stack_of(&[0, 3, 5, 10, 12]);
    assert_eq!(indices_of(stack.above(Card::new(3))), vec![5]);
    let stack = stack_of(&[0, 3, 5, 7, 11, 15]);
    assert_eq!(indices_of(stack.above(Card::new(3))), vec![5, 7]);
    assert_eq!(indices_of(stack.above(Card::new(7))), Vec::<u32>::new());
    assert_eq!(indices_of(stack.above(Card::new(8))), vec![11, 15]);
    assert_eq!(indices_of(Stack::all().above(Card::new(22))), vec![23]);
}

#[test]
fn array_push_get_remove() {
    let mut array: Array<u32, 4> = Array::new();
    assert_eq!(array.len(), 0);
    assert_eq!(array.get(0), None);
    array.push(10);
    array.push(20);
    array.push(30);
    assert_eq!(array.len(), 3);
    assert_eq!(array.get(1), Some(20));
    assert_eq!(array.iter(), vec![10, 20, 30]);
    array.remove(0);
    assert_eq!(array.iter(), vec![20, 30]);
    array.push(40);
    array.remove(1);
    assert_eq!(array.iter(), vec![20, 40]);
    array.remove(1);
    assert_eq!(array.iter(), vec![20]);
    let copy = array.clone();
    array.clear();
    assert_eq!(array.len(), 0);
    assert_eq!(copy.iter(), vec![20]);
    let fresh: Array<u32, 4> = Array::default();
    assert_eq!(fresh.len(), 0);
}
