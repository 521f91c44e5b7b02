use vstd::prelude::*;
use crate::action::{trump_slot, Action};
use crate::bits::{
    bit, bits_of, lemma_bits_algebra, lemma_bits_finite, lemma_bits_injective, lemma_bits_single,
    lists_bits, select_random_set_bit, set_bits,
};
use crate::stack::Stack;
use crate::suit::Suit;

verus! {

/// The slot of the choice to play without trump.
pub const NO_TRUMP_INDEX: u8 = 4;

/// The mask of the choice to play without trump.
pub const NO_TRUMP_MASK: u8 = 16;

proof fn lemma_five_bits(b: u32, c: u32, i: u32)
    by (bit_vector)
    requires
        b < 32,
        i < 32,
    ensures
        (b >> i) & 1 == 1 ==> i < 5,
        i < 5 ==> (b | (1u32 << i)) < 32,
        i < 5 ==> (1u32 << i) < 32,
        b & !c < 32,
{
}

/// A set of actions of one kind: cards to play, or trump choices.
#[derive(Clone, Copy, Debug)]
pub enum ActionCollection {
    Cards(Stack),
    /// Bits 0 to 3 stand for the suits, bit 4 for playing without trump.
    Trumps(u8),
    /// An empty set of no kind yet: the first action pushed decides.
    Uninit,
}

impl ActionCollection {
    /// A set of trump choices uses no bit above the fifth.
    pub open spec fn wf(self) -> bool {
        self matches ActionCollection::Trumps(bits) ==> bits < 32
    }

    /// The slots of the actions in the set: deck indices of cards, or slots
    /// of trump choices.
    pub open spec fn slots(self) -> Set<nat> {
        match self {
            ActionCollection::Cards(stack) => stack@,
            ActionCollection::Trumps(bits) => bits_of(bits as u32),
            ActionCollection::Uninit => Set::<nat>::empty(),
        }
    }

    /// Whether `action` is of the kind of the set, or the set is of no kind
    /// yet.
    pub open spec fn takes(self, action: Action) -> bool {
        match (self, action) {
            (ActionCollection::Cards(_), Action::PlayCard(_)) => true,
            (ActionCollection::Trumps(_), Action::PickTrump(_)) => true,
            (ActionCollection::Uninit, _) => true,
            _ => false,
        }
    }

    /// Whether `action` is in the set.
    pub open spec fn spec_has(self, action: Action) -> bool {
        match (self, action) {
            (ActionCollection::Cards(stack), Action::PlayCard(card)) => stack@.contains(card@),
            (ActionCollection::Trumps(bits), Action::PickTrump(trump)) => bits_of(
                bits as u32,
            ).contains(trump_slot(trump)),
            _ => false,
        }
    }

    /// Whether `actions` lists the actions of the set, lowest slot first.
    pub open spec fn listed_by(self, actions: Seq<Action>) -> bool {
        &&& actions.len() == self.slots().len()
        &&& forall|k: int| 0 <= k < actions.len() ==> self.spec_has(#[trigger] actions[k])
        &&& forall|k: int, l: int|
            0 <= k < l < actions.len() ==> actions[k].slot() < actions[l].slot()
        &&& forall|i: nat|
            self.slots().contains(i) ==> exists|k: int|
                0 <= k < actions.len() && actions[k].slot() == i
    }

    /// The slots of a well-formed set are finitely many: at most 32 cards, or
    /// at most five trump choices with slots below 5.
    pub proof fn lemma_slots(self)
        requires
            self.wf(),
        ensures
            self.slots().finite(),
            self.slots().len() <= 32,
            self is Trumps ==> forall|i: nat| self.slots().contains(i) ==> i < 5,
    {
        match self {
            ActionCollection::Cards(stack) => {
                stack.lemma_view();
            },
            ActionCollection::Trumps(bits) => {
                lemma_bits_finite(bits as u32);
                assert forall|i: nat| #[trigger] bits_of(bits as u32).contains(i) implies i < 5 by {
                    lemma_five_bits(bits as u32, 0, i as u32);
                }
            },
            ActionCollection::Uninit => {},
        }
    }

    fn trump_of(slot: u32) -> (r: Option<Suit>)
        requires
            slot < 5,
        ensures
            trump_slot(r) == slot,
    {
        if slot == 4 {
            None
        } else {
            Some(Suit::from_ordinal(slot as u8))
        }
    }

    fn slot_of(trump: Option<Suit>) -> (r: u32)
        ensures
            r == trump_slot(trump),
            r < 5,
    {
        match trump {
            Some(suit) => suit.to_index() as u32,
            None => 4,
        }
    }

    /// The actions of the set, lowest slot first.
    pub fn to_vec(self) -> (r: Vec<Action>)
        requires
            self.wf(),
        ensures
            self.listed_by(r@),
    {
        let mut actions: Vec<Action> = Vec::new();
        match self {
            ActionCollection::Cards(stack) => {
                let cards = stack.into_array_52();
                let mut n: usize = 0;
                while n < cards.len()
                    invariant
                        n <= cards@.len(),
                        stack.listed_by(cards@),
                        actions@.len() == n,
                        forall|k: int|
                            0 <= k < n ==> #[trigger] actions@[k] == Action::PlayCard(cards@[k]),
                    decreases cards@.len() - n,
                {
                    let card = cards.get(n).unwrap();
                    actions.push(Action::PlayCard(card));
                    n += 1;
                }
                assert forall|i: nat| self.slots().contains(i) implies exists|k: int|
                    0 <= k < actions@.len() && actions@[k].slot() == i by {
                    let k = choose|k: int| 0 <= k < cards@.len() && cards@[k]@ == i;
                    assert(actions@[k].slot() == i);
                }
                assert forall|k: int| 0 <= k < actions@.len() implies self.spec_has(
                    #[trigger] actions@[k],
                ) by {
                    assert(stack@.contains(cards@[k]@));
                }
            },
            ActionCollection::Trumps(bits) => {
                let data: u32 = bits as u32;
                let positions = set_bits(data);
                let mut n: usize = 0;
                while n < positions.len()
                    invariant
                        n <= positions@.len(),
                        data < 32,
                        lists_bits(data, positions@),
                        actions@.len() == n,
                        forall|k: int|
                            0 <= k < n ==> (#[trigger] actions@[k]) is PickTrump
                                && actions@[k].slot() == positions@[k],
                    decreases positions@.len() - n,
                {
                    let slot: u32 = positions[n];
                    proof {
                        assert(bit(data, positions@[n as int] as nat));
                        lemma_five_bits(data, 0, slot);
                    }
                    actions.push(Action::PickTrump(Self::trump_of(slot)));
                    n += 1;
                }
                assert forall|i: nat| self.slots().contains(i) implies exists|k: int|
                    0 <= k < actions@.len() && actions@[k].slot() == i by {
                    let k = choose|k: int| 0 <= k < positions@.len() && positions@[k] == i;
                    assert(actions@[k].slot() == i);
                }
                assert forall|k: int| 0 <= k < actions@.len() implies self.spec_has(
                    #[trigger] actions@[k],
                ) by {
                    assert(bit(data, positions@[k] as nat));
                }
            },
            ActionCollection::Uninit => {},
        }
        actions
    }

    /// The empty set of no kind yet.
    pub fn uninit() -> (r: ActionCollection)
        ensures
            r is Uninit,
    {
        ActionCollection::Uninit
    }

    /// Adds `action` to the set. A set of no kind yet takes the kind of
    /// `action`.
    pub fn push(&mut self, action: Action)
        requires
            old(self).wf(),
            old(self).takes(action),
        ensures
            final(self).wf(),
            final(self).slots() == old(self).slots().insert(action.slot()),
            action is PlayCard ==> (*final(self)) is Cards,
            action is PickTrump ==> (*final(self)) is Trumps,
    {
        match action {
            Action::PlayCard(card) => {
                let mut stack = match *self {
                    ActionCollection::Cards(stack) => stack,
                    _ => Stack::default(),
                };
                stack.push(card);
                *self = ActionCollection::Cards(stack);
            },
            Action::PickTrump(trump) => {
                let bits: u32 = match *self {
                    ActionCollection::Trumps(bits) => bits as u32,
                    _ => 0,
                };
                let slot = Self::slot_of(trump);
                proof {
                    lemma_five_bits(bits, 0, slot);
                    lemma_bits_single(bits, slot);
                    lemma_bits_algebra(0, 0);
                }
                *self = ActionCollection::Trumps((bits | (1u32 << slot)) as u8);
            },
        }
    }

    /// Takes an action picked at random out of the set; `None` when the set
    /// is empty.
    pub fn pop_random(&mut self) -> (r: Option<Action>)
        requires
            old(self).wf(),
            !((*old(self)) is Uninit),
        ensures
            final(self).wf(),
            r is None <==> old(self).slots().is_empty(),
            r is None ==> *final(self) == *old(self),
            r matches Some(action) ==> {
                &&& old(self).spec_has(action)
                &&& final(self).slots() == old(self).slots().remove(action.slot())
                &&& (*final(self)) is Cards <==> (*old(self)) is Cards
                &&& (*final(self)) is Trumps <==> (*old(self)) is Trumps
            },
    {
        match *self {
            ActionCollection::Cards(stack) => {
                let mut rest = stack;
                match rest.pop_random_card() {
                    Some(card) => {
                        *self = ActionCollection::Cards(rest);
                        Some(Action::PlayCard(card))
                    },
                    None => None,
                }
            },
            ActionCollection::Trumps(bits) => {
                let data: u32 = bits as u32;
                proof {
                    lemma_bits_injective(data, 0);
                }
                if data == 0 {
                    None
                } else {
                    let slot = select_random_set_bit(data);
                    proof {
                        lemma_five_bits(data, 1u32 << slot, slot);
                        lemma_bits_single(data, slot);
                    }
                    let choice = Self::trump_of(slot);
                    *self = ActionCollection::Trumps((data & !(1u32 << slot)) as u8);
                    Some(Action::PickTrump(choice))
                }
            },
            ActionCollection::Uninit => None,
        }
    }

    /// The number of actions in the set.
    pub fn len(&self) -> (r: usize)
        ensures
            r == self.slots().len(),
            r <= 32,
    {
        match self {
            ActionCollection::Cards(stack) => stack.len() as usize,
            ActionCollection::Trumps(bits) => {
                proof {
                    lemma_bits_finite(*bits as u32);
                }
                (*bits as u32).count_ones() as usize
            },
            ActionCollection::Uninit => 0,
        }
    }

    /// Whether the set holds no action.
    pub fn is_empty(&self) -> (r: bool)
        ensures
            r == self.slots().is_empty(),
            r == (self.slots().len() == 0),
    {
        match self {
            ActionCollection::Cards(stack) => stack.is_empty(),
            ActionCollection::Trumps(bits) => {
                proof {
                    lemma_bits_injective(*bits as u32, 0);
                }
                *bits == 0
            },
            ActionCollection::Uninit => true,
        }
    }

    /// Whether `item` is in the set.
    pub fn has(&self, item: &Action) -> (r: bool)
        requires
            self.takes(*item),
        ensures
            r == self.spec_has(*item),
    {
        match (self, item) {
            (ActionCollection::Cards(stack), Action::PlayCard(card)) => stack.has_card(*card),
            (ActionCollection::Trumps(bits), Action::PickTrump(trump)) => {
                let slot = Self::slot_of(*trump);
                Stack::from_data(*bits as u32).has_index(slot)
            },
            _ => false,
        }
    }

    /// The actions of this set that are not in `other`.
    pub fn without(&self, other: &ActionCollection) -> (r: ActionCollection)
        requires
            self.wf(),
            (self is Cards && other is Cards) || (self is Trumps && other is Trumps)
                || other is Uninit,
        ensures
            r.wf(),
            r.slots() == self.slots().difference(other.slots()),
            r is Cards <==> self is Cards,
            r is Trumps <==> self is Trumps,
    {
        match (self, other) {
            (ActionCollection::Cards(stack), ActionCollection::Cards(other_stack)) => {
                ActionCollection::Cards(stack.difference(*other_stack))
            },
            (ActionCollection::Trumps(bits), ActionCollection::Trumps(other_bits)) => {
                let mine: u32 = *bits as u32;
                let theirs: u32 = *other_bits as u32;
                proof {
                    lemma_five_bits(mine, theirs, 0);
                    lemma_bits_algebra(mine, theirs);
                }
                ActionCollection::Trumps((mine & !theirs) as u8)
            },
            _ => {
                assert(self.slots().difference(other.slots()) =~= self.slots());
                *self
            },
        }
    }
}

} // verus!
