use vstd::prelude::*;
use vstd::string::StringExecFns;
use crate::suit::Suit;

verus! {

/// Rank of the card with deck index `index`: 0 is the seven, then eight,
/// nine, jack, queen, king, ace, and 7 is the ten, the strongest.
pub open spec fn rank_of(index: nat) -> nat {
    index % 8
}

/// Points that the card with deck index `index` is worth: nothing for seven,
/// eight and nine, then 1 for the jack up to 5 for the ten.
pub open spec fn points_of(index: nat) -> nat {
    if rank_of(index) < 3 {
        0
    } else {
        (rank_of(index) - 2) as nat
    }
}

/// The symbol of a rank: `7`, `8`, `9`, `J`, `Q`, `K`, `A`, `10`.
pub open spec fn rank_symbol(rank: nat) -> Seq<char> {
    if rank == 0 {
        "7"@
    } else if rank == 1 {
        "8"@
    } else if rank == 2 {
        "9"@
    } else if rank == 3 {
        "J"@
    } else if rank == 4 {
        "Q"@
    } else if rank == 5 {
        "K"@
    } else if rank == 6 {
        "A"@
    } else {
        "10"@
    }
}

/// One of the 32 cards. The deck index `8 * suit + rank` identifies it; rank
/// and suit are kept beside it and always agree with it.
#[derive(Clone, Copy, PartialEq, Eq, Debug, Structural)]
pub struct Card {
    value: u8,
    suit: Suit,
    index: u8,
}

impl View for Card {
    type V = nat;

    /// The deck index.
    closed spec fn view(&self) -> nat {
        self.index as nat
    }
}

impl Card {
    /// The deck index is below 32, and rank and suit are those of the index.
    #[verifier::type_invariant]
    pub closed spec fn wf(self) -> bool {
        &&& self.index < 32
        &&& self.value == self.index % 8
        &&& self.suit == Suit::of_card(self.index as nat)
    }

    /// Two well-formed cards with the same deck index are the same card.
    pub proof fn lemma_view_injective(a: Card, b: Card)
        requires
            a.wf(),
            b.wf(),
            a@ == b@,
        ensures
            a == b,
    {
    }

    /// The rank, `0..=7`.
    pub open spec fn rank(self) -> nat {
        rank_of(self@)
    }

    /// The suit.
    pub open spec fn spec_suit(self) -> Suit {
        Suit::of_card(self@)
    }

    /// The points the card is worth.
    pub open spec fn points(self) -> nat {
        points_of(self@)
    }

    /// The card's text: the suit's glyph, then the rank's symbol.
    pub open spec fn text(self) -> Seq<char> {
        self.spec_suit().glyph() + rank_symbol(self.rank())
    }

    /// The card with deck index `index`.
    pub fn new(index: u32) -> (r: Card)
        requires
            index < 32,
        ensures
            r@ == index,
            r.wf(),
    {
        Card::from_raw(index, None, None)
    }

    /// The card with deck index `index`. A rank or a suit that the caller
    /// already holds is taken over instead of being computed again.
    pub fn from_raw(index: u32, value: Option<u8>, suit: Option<Suit>) -> (r: Card)
        requires
            index < 32,
            value matches Some(v) ==> v == rank_of(index as nat),
            suit matches Some(s) ==> s == Suit::of_card(index as nat),
        ensures
            r@ == index,
            r.wf(),
    {
        let value: u8 = match value {
            Some(v) => v,
            None => (index % 8) as u8,
        };
        let suit = match suit {
            Some(s) => s,
            None => Suit::from_index(index),
        };
        Card { value, index: index as u8, suit }
    }

    /// The deck index, `0..=31`.
    pub fn get_index(&self) -> (r: u32)
        ensures
            r == self@,
            r < 32,
            self.wf(),
    {
        proof {
            use_type_invariant(self);
        }
        self.index as u32
    }

    /// The rank, `0..=7`.
    pub fn value(&self) -> (r: u16)
        ensures
            r == self.rank(),
            r < 8,
    {
        proof {
            use_type_invariant(self);
        }
        self.value as u16
    }

    /// The suit.
    pub fn suit(&self) -> (r: Suit)
        ensures
            r == self.spec_suit(),
    {
        proof {
            use_type_invariant(self);
        }
        self.suit
    }

    /// The points the card is worth.
    pub fn score(&self) -> (r: i16)
        ensures
            r == self.points(),
            0 <= r <= 5,
    {
        let v: u16 = self.value();
        if v <= 2 {
            0
        } else {
            (v - 2) as i16
        }
    }

    /// The card's text, such as `♠7` or `♥10`.
    pub fn to_string(&self) -> (r: String)
        ensures
            r@ == self.text(),
    {
        let mut text = self.suit().to_string();
        let v: u16 = self.value();
        if v == 0 {
            text.append("7");
        } else if v == 1 {
            text.append("8");
        } else if v == 2 {
            text.append("9");
        } else if v == 3 {
            text.append("J");
        } else if v == 4 {
            text.append("Q");
        } else if v == 5 {
            text.append("K");
        } else if v == 6 {
            text.append("A");
        } else {
            text.append("10");
        }
        text
    }
}

impl Default for Card {
    /// The seven of spades.
    fn default() -> (r: Card)
        ensures
            r@ == 0,
    {
        Card::new(0)
    }
}

} // verus!
