use vstd::prelude::*;
use crate::array::Array;
use crate::bits::{
    bit, bits_of, lemma_bits_algebra, lemma_bits_finite, lemma_bits_injective, lemma_bits_single,
    lists_bits, lsb, msb, pop_lsb, pop_random_set_bit, select_random_set_bit, set_bits,
};
use crate::card::{rank_of, Card};
use crate::suit::Suit;
use vstd::std_specs::ops::{BitAndSpec, BitOrSpec, BitXorSpec, NotSpec};

verus! {

/// The mask of the eight spades.
pub const SPADES: u32 = 0x0000_00ff;

/// The mask of the eight clubs.
pub const CLUBS: u32 = 0x0000_ff00;

/// The mask of the eight hearts.
pub const HEARTS: u32 = 0x00ff_0000;

/// The mask of the eight diamonds.
pub const DIAMONDS: u32 = 0xff00_0000;

/// The mask of the whole deck.
pub const ALL: u32 = 0xffff_ffff;

/// The four sevens, the lowest card of each suit.
const LOWEST_CARD: u32 = 0x0101_0101;

/// The deck indices of all 32 cards.
pub open spec fn deck() -> Set<nat> {
    Set::new(|i: nat| i < 32)
}

/// The deck indices of the eight cards of `suit`.
pub open spec fn suit_cards(suit: Suit) -> Set<nat> {
    Set::new(|i: nat| i < 32 && Suit::of_card(i) == suit)
}

/// The deck indices of the cards, of any suit, whose rank is below `rank`.
pub open spec fn ranks_below(rank: nat) -> Set<nat> {
    Set::new(|i: nat| i < 32 && rank_of(i) < rank)
}

/// The deck indices of the cards of the suit of card `index` that outrank it.
pub open spec fn cards_beating(index: nat) -> Set<nat> {
    Set::new(
        |i: nat| i < 32 && Suit::of_card(i) == Suit::of_card(index) && rank_of(i) > rank_of(index),
    )
}

/// Whether `c` comes first when cards are ordered by rank, and by deck index
/// within a rank.
pub open spec fn lower_rank_first(c: nat, i: nat) -> bool {
    rank_of(c) < rank_of(i) || (rank_of(c) == rank_of(i) && c <= i)
}

/// Whether `c` comes first when cards are ordered from the highest rank down,
/// and by deck index within a rank.
pub open spec fn higher_rank_first(c: nat, i: nat) -> bool {
    rank_of(c) > rank_of(i) || (rank_of(c) == rank_of(i) && c <= i)
}

proof fn lemma_mask_bits(i: u32, j: u32)
    by (bit_vector)
    requires
        i < 32,
    ensures
        (0x0000_00ffu32 >> i) & 1 == 1 <==> i < 8,
        (0x0000_ff00u32 >> i) & 1 == 1 <==> 8 <= i < 16,
        (0x00ff_0000u32 >> i) & 1 == 1 <==> 16 <= i < 24,
        (0xff00_0000u32 >> i) & 1 == 1 <==> 24 <= i,
        j < 8 ==> (((0x0101_0101u32 << j) >> i) & 1 == 1 <==> i % 8 == j),
{
}

/// The cards of a suit's mask are the cards of the suit.
pub proof fn lemma_suit_mask(suit: Suit)
    ensures
        bits_of(suit.spec_mask()) == suit_cards(suit),
{
    assert forall|i: nat| i < 32 implies bit(suit.spec_mask(), i) == (Suit::of_card(i) == suit) by {
        lemma_mask_bits(i as u32, 0);
    }
    assert(bits_of(suit.spec_mask()) =~= suit_cards(suit));
}

proof fn lemma_rank_mask(rank: u32)
    requires
        rank < 8,
    ensures
        bits_of(LOWEST_CARD << rank) == Set::new(|i: nat| i < 32 && rank_of(i) == rank),
{
    assert forall|i: nat| i < 32 implies bit(LOWEST_CARD << rank, i) == (rank_of(i) == rank) by {
        lemma_mask_bits(i as u32, rank);
    }
    assert(bits_of(LOWEST_CARD << rank) =~= Set::new(|i: nat| i < 32 && rank_of(i) == rank));
}

/// A set of cards, one bit of a 32-bit mask for each card of the deck.
#[derive(Clone, Copy, PartialEq, Eq, Debug, Structural)]
pub struct Stack {
    data: u32,
}

impl View for Stack {
    type V = Set<nat>;

    /// The deck indices of the cards in the stack.
    closed spec fn view(&self) -> Set<nat> {
        bits_of(self.data)
    }
}

/// Walks the cards of a stack from the lowest deck index up.
pub struct CardIterator(u32);

impl View for CardIterator {
    type V = Set<nat>;

    /// The deck indices of the cards still to come.
    closed spec fn view(&self) -> Set<nat> {
        bits_of(self.0)
    }
}

impl CardIterator {
    /// The card with the lowest deck index among those still to come, which
    /// it leaves out from then on; `None` when none is left.
    pub fn next(&mut self) -> (r: Option<Card>)
        ensures
            old(self)@.is_empty() ==> r.is_none() && final(self)@ == old(self)@,
            !old(self)@.is_empty() ==> r.is_some(),
            r matches Some(card) ==> {
                &&& old(self)@.contains(card@)
                &&& forall|i: nat| old(self)@.contains(i) ==> card@ <= i
                &&& final(self)@ == old(self)@.remove(card@)
            },
    {
        proof {
            lemma_bits_injective(self.0, 0);
        }
        if self.0 == 0 {
            None
        } else {
            let index = pop_lsb(&mut self.0);
            assert forall|i: nat| old(self)@.contains(i) implies index <= i by {
                if i < index {
                    assert(!bit(old(self).0, i));
                }
            }
            Some(Card::new(index))
        }
    }
}

impl Stack {
    /// The mask behind the stack.
    pub closed spec fn spec_data(self) -> u32 {
        self.data
    }

    /// A stack holds cards of the deck only, so at most 32.
    pub proof fn lemma_view(self)
        ensures
            self@.finite(),
            self@.subset_of(deck()),
            self@.len() <= 32,
            self@ == bits_of(self.spec_data()),
    {
        lemma_bits_finite(self.data);
    }

    /// Two stacks with the same cards are the same stack.
    pub proof fn lemma_view_injective(a: Stack, b: Stack)
        ensures
            a@ == b@ <==> a == b,
    {
        lemma_bits_injective(a.data, b.data);
    }

    /// The whole deck.
    pub fn all() -> (r: Stack)
        ensures
            r@ == deck(),
    {
        proof {
            lemma_bits_algebra(0, 0);
        }
        Stack { data: ALL }
    }

    /// The stack whose mask is `data`.
    pub fn from_data(data: u32) -> (r: Stack)
        ensures
            r@ == bits_of(data),
            r.spec_data() == data,
    {
        Stack { data }
    }

    /// The mask behind the stack.
    pub fn data(&self) -> (r: u32)
        ensures
            r == self.spec_data(),
            bits_of(r) == self@,
    {
        self.data
    }

    /// The stack of the cards whose deck indices are listed in `data`.
    pub fn from_slice(data: &[u32]) -> (r: Stack)
        requires
            forall|k: int| 0 <= k < data@.len() ==> data@[k] < 32,
        ensures
            forall|i: nat| r@.contains(i) <==> exists|k: int| 0 <= k < data@.len() && data@[k] == i,
    {
        let mut cards = Stack { data: 0 };
        let mut n: usize = 0;
        proof {
            lemma_bits_algebra(0, 0);
        }
        while n < data.len()
            invariant
                n <= data@.len(),
                forall|k: int| 0 <= k < data@.len() ==> data@[k] < 32,
                forall|i: nat|
                    cards@.contains(i) <==> exists|k: int| 0 <= k < n && data@[k] == i,
            decreases data@.len() - n,
        {
            let index: u32 = data[n];
            let ghost before = cards;
            proof {
                lemma_bits_single(cards.data, index);
            }
            cards.data = cards.data | (1u32 << index);
            n += 1;
            assert forall|i: nat| cards@.contains(i) implies exists|k: int|
                0 <= k < n && data@[k] == i by {
                if i == index {
                    assert(data@[n - 1] == i);
                } else {
                    assert(before@.contains(i));
                    let k = choose|k: int| 0 <= k < n - 1 && data@[k] == i;
                    assert(0 <= k < n && data@[k] == i);
                }
            }
            assert forall|i: nat| (exists|k: int| 0 <= k < n && data@[k] == i) implies cards@.contains(
                i,
            ) by {
                let k = choose|k: int| 0 <= k < n && data@[k] == i;
                if k == n - 1 {
                    assert(i == index);
                } else {
                    assert(0 <= k < n - 1 && data@[k] == i);
                    assert(before@.contains(i));
                }
            }
        }
        cards
    }

    /// Replaces the cards by those of the mask `data`.
    pub fn set_data(&mut self, data: u32)
        ensures
            final(self)@ == bits_of(data),
            final(self).spec_data() == data,
    {
        self.data = data;
    }

    /// An iterator over the cards, lowest deck index first.
    pub fn into_iter(self) -> (r: CardIterator)
        ensures
            r@ == self@,
    {
        CardIterator(self.data)
    }

    /// Whether `cards` lists the cards of this stack, lowest deck index first.
    pub open spec fn listed_by(self, cards: Seq<Card>) -> bool {
        &&& cards.len() == self@.len()
        &&& forall|k: int| 0 <= k < cards.len() ==> self@.contains(#[trigger] cards[k]@)
        &&& forall|k: int, l: int| 0 <= k < l < cards.len() ==> cards[k]@ < cards[l]@
        &&& forall|i: nat|
            self@.contains(i) ==> exists|k: int| 0 <= k < cards.len() && cards[k]@ == i
    }

    fn collect<const N: usize>(self) -> (r: Array<Card, N>)
        requires
            self@.len() <= N,
        ensures
            self.listed_by(r@),
    {
        let positions = set_bits(self.data);
        let mut cards: Array<Card, N> = Array::new();
        let mut n: usize = 0;
        while n < positions.len()
            invariant
                n <= positions@.len() <= N,
                lists_bits(self.data, positions@),
                cards@.len() == n,
                forall|k: int| 0 <= k < n ==> (#[trigger] cards@[k])@ == positions@[k],
            decreases positions@.len() - n,
        {
            let index: u32 = positions[n];
            assert(bit(self.data, positions@[n as int] as nat));
            let card = Card::new(index);
            let ghost listed = cards@;
            cards.push(card);
            assert forall|k: int| 0 <= k < n + 1 implies (#[trigger] cards@[k])@
                == positions@[k] by {
                if k < n {
                    assert(cards@[k] == listed[k]);
                }
            }
            n += 1;
        }
        assert forall|i: nat| self@.contains(i) implies exists|k: int|
            0 <= k < cards@.len() && cards@[k]@ == i by {
            let k = choose|k: int| 0 <= k < positions@.len() && positions@[k] == i;
            assert(cards@[k]@ == i);
        }
        cards
    }

    /// The cards in an array of eight places, lowest deck index first.
    pub fn into_array_8(self) -> (r: Array<Card, 8>)
        requires
            self@.len() <= 8,
        ensures
            self.listed_by(r@),
    {
        self.collect::<8>()
    }

    /// The cards in an array of thirteen places, lowest deck index first.
    pub fn into_array_13(self) -> (r: Array<Card, 13>)
        requires
            self@.len() <= 13,
        ensures
            self.listed_by(r@),
    {
        self.collect::<13>()
    }

    /// The cards in an array with room for any stack, lowest deck index
    /// first.
    pub fn into_array_52(self) -> (r: Array<Card, 52>)
        ensures
            self.listed_by(r@),
    {
        proof {
            lemma_bits_finite(self.data);
        }
        self.collect::<52>()
    }

    /// A card of the stack, picked at random.
    pub fn pick_random_card(&self) -> (r: Card)
        requires
            !self@.is_empty(),
        ensures
            self@.contains(r@),
    {
        proof {
            lemma_bits_injective(self.data, 0);
        }
        let index = select_random_set_bit(self.data);
        Card::new(index)
    }

    /// Takes a card picked at random out of the stack; `None` when the stack
    /// is empty.
    pub fn pop_random_card(&mut self) -> (r: Option<Card>)
        ensures
            r.is_none() <==> old(self)@.is_empty(),
            r.is_none() ==> *final(self) == *old(self),
            r matches Some(card) ==> old(self)@.contains(card@) && final(self)@ == old(self)@.remove(
                card@,
            ),
    {
        proof {
            lemma_bits_injective(self.data, 0);
        }
        if self.data == 0 {
            None
        } else {
            let index = pop_random_set_bit(&mut self.data);
            Some(Card::new(index))
        }
    }

    /// Takes the card with the lowest deck index out of the stack; `None`
    /// when the stack is empty.
    pub fn pop_lowest(&mut self) -> (r: Option<Card>)
        ensures
            r.is_none() <==> old(self)@.is_empty(),
            r.is_none() ==> *final(self) == *old(self),
            r matches Some(card) ==> {
                &&& old(self)@.contains(card@)
                &&& forall|i: nat| old(self)@.contains(i) ==> card@ <= i
                &&& final(self)@ == old(self)@.remove(card@)
            },
    {
        proof {
            lemma_bits_injective(self.data, 0);
        }
        if self.data == 0 {
            None
        } else {
            let index = pop_lsb(&mut self.data);
            assert forall|i: nat| old(self)@.contains(i) implies index <= i by {
                if i < index {
                    assert(!bit(old(self).data, i));
                }
            }
            Some(Card::new(index))
        }
    }

    /// Puts `card` into the stack.
    pub fn push(&mut self, card: Card)
        ensures
            final(self)@ == old(self)@.insert(card@),
    {
        let index = card.get_index();
        proof {
            lemma_bits_single(self.data, index);
        }
        self.data = self.data | (1u32 << index);
    }

    /// Takes `card` out of the stack, if it is there.
    pub fn remove(&mut self, card: Card)
        ensures
            final(self)@ == old(self)@.remove(card@),
    {
        let index = card.get_index();
        proof {
            lemma_bits_single(self.data, index);
        }
        self.data = self.data & !(1u32 << index);
    }

    /// Takes all cards out of the stack.
    pub fn clear(&mut self)
        ensures
            final(self)@ == Set::<nat>::empty(),
    {
        proof {
            lemma_bits_algebra(0, 0);
        }
        self.data = 0;
    }

    /// The suit of a card of the stack picked at random.
    pub fn pick_random_suit(&self) -> (r: Suit)
        requires
            !self@.is_empty(),
        ensures
            self.spec_has_suit(r),
    {
        let card = self.pick_random_card();
        proof {
            lemma_bits_finite(self.data);
            assert(self@.intersect(suit_cards(card.spec_suit())).contains(card@));
        }
        card.suit()
    }

    /// The strongest card of `suit` in the stack, if it holds one.
    pub fn highest_of_suit(&self, suit: Suit) -> (r: Option<Card>)
        ensures
            r.is_some() <==> self.spec_has_suit(suit),
            r matches Some(card) ==> {
                &&& self@.contains(card@)
                &&& card.spec_suit() == suit
                &&& forall|i: nat| self@.contains(i) && Suit::of_card(i) == suit ==> i <= card@
            },
    {
        let masked: u32 = self.data & suit.mask();
        proof {
            lemma_bits_algebra(self.data, suit.spec_mask());
            lemma_suit_mask(suit);
            lemma_bits_injective(masked, 0);
        }
        if masked != 0 {
            let index = msb(masked);
            assert(bits_of(masked).contains(index as nat));
            assert forall|i: nat| self@.contains(i) && Suit::of_card(i) == suit implies i
                <= index by {
                assert(bits_of(masked).contains(i));
                if index < i {
                    assert(!bit(masked, i));
                }
            }
            Some(Card::from_raw(index, None, Some(suit)))
        } else {
            None
        }
    }

    /// The card of the highest rank in the stack; of several, the one with
    /// the lowest deck index.
    pub fn highest(&self) -> (r: Option<Card>)
        ensures
            r.is_none() <==> self@.is_empty(),
            r matches Some(card) ==> {
                &&& self@.contains(card@)
                &&& forall|i: nat| self@.contains(i) ==> higher_rank_first(card@, i)
            },
    {
        let mut i: u32 = 0;
        proof {
            lemma_bits_finite(self.data);
        }
        while i < 8
            invariant
                i <= 8,
                forall|j: nat| self@.contains(j) ==> j < 32 && rank_of(j) + i < 8,
            decreases 8 - i,
        {
            let rank: u32 = 7 - i;
            let masked: u32 = self.data & (LOWEST_CARD << rank);
            proof {
                lemma_bits_algebra(self.data, LOWEST_CARD << rank);
                lemma_rank_mask(rank);
                lemma_bits_injective(masked, 0);
            }
            if masked != 0 {
                let index = lsb(masked);
                assert(bits_of(masked).contains(index as nat));
                assert forall|j: nat| self@.contains(j) implies higher_rank_first(
                    index as nat,
                    j,
                ) by {
                    if rank_of(j) == rank && j < index {
                        assert(bits_of(masked).contains(j));
                        assert(!bit(masked, j));
                    }
                }
                return Some(Card::from_raw(index, Some(rank as u8), None));
            }
            assert forall|j: nat| self@.contains(j) implies rank_of(j) + i + 1 < 8 by {
                if rank_of(j) == rank {
                    assert(bits_of(masked).contains(j));
                }
            }
            i += 1;
        }
        assert(self@ =~= Set::<nat>::empty());
        None
    }

    /// The weakest card of `suit` in the stack, if it holds one.
    pub fn lowest_of_suit(&self, suit: Suit) -> (r: Option<Card>)
        ensures
            r.is_some() <==> self.spec_has_suit(suit),
            r matches Some(card) ==> {
                &&& self@.contains(card@)
                &&& card.spec_suit() == suit
                &&& forall|i: nat| self@.contains(i) && Suit::of_card(i) == suit ==> card@ <= i
            },
    {
        let masked: u32 = self.data & suit.mask();
        proof {
            lemma_bits_algebra(self.data, suit.spec_mask());
            lemma_suit_mask(suit);
            lemma_bits_injective(masked, 0);
        }
        if masked != 0 {
            let index = lsb(masked);
            assert(bits_of(masked).contains(index as nat));
            assert forall|i: nat| self@.contains(i) && Suit::of_card(i) == suit implies index
                <= i by {
                assert(bits_of(masked).contains(i));
                if i < index {
                    assert(!bit(masked, i));
                }
            }
            Some(Card::from_raw(index, None, Some(suit)))
        } else {
            None
        }
    }

    /// The card of the lowest rank in the stack; of several, the one with
    /// the lowest deck index.
    pub fn lowest(&self) -> (r: Option<Card>)
        ensures
            r.is_none() <==> self@.is_empty(),
            r matches Some(card) ==> {
                &&& self@.contains(card@)
                &&& forall|i: nat| self@.contains(i) ==> lower_rank_first(card@, i)
            },
    {
        let mut rank: u32 = 0;
        proof {
            lemma_bits_finite(self.data);
        }
        while rank < 8
            invariant
                rank <= 8,
                forall|j: nat| self@.contains(j) ==> j < 32 && rank_of(j) >= rank,
            decreases 8 - rank,
        {
            let masked: u32 = self.data & (LOWEST_CARD << rank);
            proof {
                lemma_bits_algebra(self.data, LOWEST_CARD << rank);
                lemma_rank_mask(rank);
                lemma_bits_injective(masked, 0);
            }
            if masked != 0 {
                let index = lsb(masked);
                assert(bits_of(masked).contains(index as nat));
                assert forall|j: nat| self@.contains(j) implies lower_rank_first(
                    index as nat,
                    j,
                ) by {
                    if rank_of(j) == rank && j < index {
                        assert(bits_of(masked).contains(j));
                        assert(!bit(masked, j));
                    }
                }
                return Some(Card::from_raw(index, Some(rank as u8), None));
            }
            assert forall|j: nat| self@.contains(j) implies rank_of(j) >= rank + 1 by {
                if rank_of(j) == rank {
                    assert(bits_of(masked).contains(j));
                }
            }
            rank += 1;
        }
        assert(self@ =~= Set::<nat>::empty());
        None
    }

    /// All cards of the deck, in every suit, whose rank is below that of
    /// `card`.
    pub fn all_below(card: Card) -> (r: Stack)
        ensures
            r@ == ranks_below(card.rank()),
    {
        let value: u32 = card.value() as u32;
        let mut mask: u32 = 0;
        let mut j: u32 = 0;
        proof {
            lemma_bits_algebra(0, 0);
            assert(bits_of(0u32) =~= ranks_below(0));
        }
        while j < value
            invariant
                j <= value < 8,
                bits_of(mask) == ranks_below(j as nat),
            decreases value - j,
        {
            proof {
                lemma_bits_algebra(mask, LOWEST_CARD << j);
                lemma_rank_mask(j);
                assert(ranks_below(j as nat).union(
                    Set::new(|i: nat| i < 32 && rank_of(i) == j),
                ) =~= ranks_below((j + 1) as nat));
            }
            mask = mask | (LOWEST_CARD << j);
            j += 1;
        }
        Stack { data: mask }
    }

    /// The cards of the deck that have the suit of `card` and outrank it.
    pub fn all_above(card: Card) -> (r: Stack)
        ensures
            r@ == cards_beating(card@),
    {
        let not_below = Stack::all_below(card).complement();
        let higher = not_below.of_suit(card.suit());
        let index = card.get_index();
        proof {
            lemma_bits_single(higher.data, index);
            assert(higher@.remove(index as nat) =~= cards_beating(card@));
        }
        Stack { data: higher.data & !(1u32 << index) }
    }

    /// The cards of the stack that belong to `suit`.
    pub fn of_suit(&self, suit: Suit) -> (r: Stack)
        ensures
            r@ == self@.intersect(suit_cards(suit)),
    {
        proof {
            lemma_bits_algebra(self.data, suit.spec_mask());
            lemma_suit_mask(suit);
        }
        Stack { data: self.data & suit.mask() }
    }

    /// The cards of the stack that have the suit of `card` and outrank it.
    pub fn above(&self, card: Card) -> (r: Stack)
        ensures
            r@ == self@.intersect(cards_beating(card@)),
    {
        self.intersect(Stack::all_above(card))
    }

    /// The cards of the stack whose rank is below that of `card`.
    pub fn below(&self, card: Card) -> (r: Stack)
        ensures
            r@ == self@.intersect(ranks_below(card.rank())),
    {
        let below = Stack::all_below(card);
        self.intersect(below)
    }

    /// Whether the stack holds a card of `suit`.
    pub open spec fn spec_has_suit(&self, suit: Suit) -> bool {
        !self@.intersect(suit_cards(suit)).is_empty()
    }

    /// Whether the stack holds a card of `suit`.
    #[verifier::when_used_as_spec(spec_has_suit)]
    pub fn has_suit(&self, suit: Suit) -> (r: bool)
        ensures
            r == self.spec_has_suit(suit),
    {
        let masked: u32 = self.data & suit.mask();
        proof {
            lemma_bits_algebra(self.data, suit.spec_mask());
            lemma_suit_mask(suit);
            lemma_bits_injective(masked, 0);
        }
        masked != 0
    }

    /// Whether the stack holds `card`.
    pub fn has_card(&self, card: Card) -> (r: bool)
        ensures
            r == self@.contains(card@),
    {
        self.has_index(card.get_index())
    }

    /// Whether the stack holds the card with deck index `index`.
    pub fn has_index(&self, index: u32) -> (r: bool)
        requires
            index < 32,
        ensures
            r == self@.contains(index as nat),
    {
        let masked: u32 = self.data & (1u32 << index);
        proof {
            lemma_bits_algebra(self.data, 1u32 << index);
            lemma_bits_single(self.data, index);
            lemma_bits_injective(masked, 0);
            assert(self@.intersect(set![index as nat]).is_empty() <==> !self@.contains(
                index as nat,
            )) by {
                if self@.contains(index as nat) {
                    assert(self@.intersect(set![index as nat]).contains(index as nat));
                }
            }
        }
        masked != 0
    }

    /// The number of cards in the stack.
    pub fn len(&self) -> (r: u32)
        ensures
            r == self@.len(),
            r <= 32,
    {
        proof {
            lemma_bits_finite(self.data);
        }
        self.data.count_ones()
    }

    /// Whether the stack holds no card.
    pub fn is_empty(&self) -> (r: bool)
        ensures
            r == self@.is_empty(),
            r == (self@.len() == 0),
    {
        proof {
            lemma_bits_injective(self.data, 0);
        }
        self.data == 0
    }

    /// The cards that are in this stack or in `other`.
    pub fn union(self, other: Stack) -> (r: Stack)
        ensures
            r@ == self@.union(other@),
    {
        proof {
            lemma_bits_algebra(self.data, other.data);
        }
        Stack { data: self.data | other.data }
    }

    /// The cards that are in this stack and in `other`.
    pub fn intersect(self, other: Stack) -> (r: Stack)
        ensures
            r@ == self@.intersect(other@),
    {
        proof {
            lemma_bits_algebra(self.data, other.data);
        }
        Stack { data: self.data & other.data }
    }

    /// The cards of this stack that are not in `other`.
    pub fn difference(self, other: Stack) -> (r: Stack)
        ensures
            r@ == self@.difference(other@),
    {
        proof {
            lemma_bits_algebra(self.data, other.data);
        }
        Stack { data: self.data & !other.data }
    }

    /// The cards that are in exactly one of this stack and `other`.
    pub fn symmetric_difference(self, other: Stack) -> (r: Stack)
        ensures
            r@ == self@.difference(other@).union(other@.difference(self@)),
    {
        proof {
            lemma_bits_algebra(self.data, other.data);
        }
        Stack { data: self.data ^ other.data }
    }

    /// The cards of the deck that are not in this stack.
    pub fn complement(self) -> (r: Stack)
        ensures
            r@ == deck().difference(self@),
    {
        proof {
            lemma_bits_algebra(self.data, 0);
        }
        Stack { data: !self.data }
    }
}

impl core::ops::BitAnd for Stack {
    type Output = Stack;

    fn bitand(self, rhs: Stack) -> (r: Stack) {
        Stack { data: self.data & rhs.data }
    }
}

impl vstd::std_specs::ops::BitAndSpecImpl for Stack {
    open spec fn obeys_bitand_spec() -> bool {
        true
    }

    open spec fn bitand_req(self, rhs: Stack) -> bool {
        true
    }

    closed spec fn bitand_spec(self, rhs: Stack) -> Stack {
        Stack { data: self.data & rhs.data }
    }
}

impl core::ops::BitOr for Stack {
    type Output = Stack;

    fn bitor(self, rhs: Stack) -> (r: Stack) {
        Stack { data: self.data | rhs.data }
    }
}

impl vstd::std_specs::ops::BitOrSpecImpl for Stack {
    open spec fn obeys_bitor_spec() -> bool {
        true
    }

    open spec fn bitor_req(self, rhs: Stack) -> bool {
        true
    }

    closed spec fn bitor_spec(self, rhs: Stack) -> Stack {
        Stack { data: self.data | rhs.data }
    }
}

impl core::ops::BitXor for Stack {
    type Output = Stack;

    fn bitxor(self, rhs: Stack) -> (r: Stack) {
        Stack { data: self.data ^ rhs.data }
    }
}

impl vstd::std_specs::ops::BitXorSpecImpl for Stack {
    open spec fn obeys_bitxor_spec() -> bool {
        true
    }

    open spec fn bitxor_req(self, rhs: Stack) -> bool {
        true
    }

    closed spec fn bitxor_spec(self, rhs: Stack) -> Stack {
        Stack { data: self.data ^ rhs.data }
    }
}

impl core::ops::Not for Stack {
    type Output = Stack;

    fn not(self) -> (r: Stack) {
        Stack { data: !self.data }
    }
}

impl vstd::std_specs::ops::NotSpecImpl for Stack {
    open spec fn obeys_not_spec() -> bool {
        true
    }

    open spec fn not_req(self) -> bool {
        true
    }

    closed spec fn not_spec(self) -> Stack {
        Stack { data: !self.data }
    }
}

/// What `&`, `|`, `^` and `!` do to the cards of stacks: intersection,
/// union, symmetric difference, and complement within the deck.
pub proof fn lemma_operators(a: Stack, b: Stack)
    ensures
        a.bitand_spec(b)@ == a@.intersect(b@),
        a.bitor_spec(b)@ == a@.union(b@),
        a.bitxor_spec(b)@ == a@.difference(b@).union(b@.difference(a@)),
        a.not_spec()@ == deck().difference(a@),
{
    lemma_bits_algebra(a.data, b.data);
}

impl Default for Stack {
    /// The empty stack.
    fn default() -> (r: Stack)
        ensures
            r@ == Set::<nat>::empty(),
    {
        proof {
            lemma_bits_algebra(0, 0);
        }
        Stack { data: 0 }
    }
}

} // verus!
