use vstd::prelude::*;
use vstd::string::StringExecFns;

verus! {

/// The four suits, in deck order.
#[derive(Clone, Copy, PartialEq, Eq, Debug, Structural)]
pub enum Suit {
    Spades,
    Clubs,
    Hearts,
    Diamonds,
}

impl Suit {
    /// Position of the suit in the deck: cards `8 * ordinal .. 8 * ordinal + 8`
    /// belong to it.
    pub open spec fn ordinal(self) -> nat {
        match self {
            Suit::Spades => 0,
            Suit::Clubs => 1,
            Suit::Hearts => 2,
            Suit::Diamonds => 3,
        }
    }

    /// The suit at deck position `ordinal`.
    pub open spec fn of_ordinal(ordinal: nat) -> Suit {
        if ordinal == 0 {
            Suit::Spades
        } else if ordinal == 1 {
            Suit::Clubs
        } else if ordinal == 2 {
            Suit::Hearts
        } else {
            Suit::Diamonds
        }
    }

    /// The suit of the card with the given deck index.
    pub open spec fn of_card(index: nat) -> Suit {
        Suit::of_ordinal(index / 8)
    }

    /// The mask of the eight cards of the suit.
    pub open spec fn spec_mask(&self) -> u32 {
        match self {
            Suit::Spades => 0x0000_00ffu32,
            Suit::Clubs => 0x0000_ff00u32,
            Suit::Hearts => 0x00ff_0000u32,
            Suit::Diamonds => 0xff00_0000u32,
        }
    }

    /// The mask of the eight cards of the suit.
    #[verifier::when_used_as_spec(spec_mask)]
    pub fn mask(&self) -> (r: u32)
        ensures
            r == self.spec_mask(),
    {
        match self {
            Suit::Spades => 0x0000_00ffu32,
            Suit::Clubs => 0x0000_ff00u32,
            Suit::Hearts => 0x00ff_0000u32,
            Suit::Diamonds => 0xff00_0000u32,
        }
    }

    /// The suit of the card with deck index `index`.
    pub fn from_index(index: u32) -> (r: Suit)
        requires
            index < 32,
        ensures
            r == Suit::of_card(index as nat),
    {
        let q: u32 = index / 8;
        if q == 0 {
            Suit::Spades
        } else if q == 1 {
            Suit::Clubs
        } else if q == 2 {
            Suit::Hearts
        } else {
            Suit::Diamonds
        }
    }

    /// The suit's glyph.
    pub open spec fn glyph(self) -> Seq<char> {
        match self {
            Suit::Spades => "♠"@,
            Suit::Clubs => "♣"@,
            Suit::Hearts => "♥"@,
            Suit::Diamonds => "♦"@,
        }
    }

    /// The suit's glyph as a string.
    pub fn to_string(&self) -> (r: String)
        ensures
            r@ == self.glyph(),
    {
        match self {
            Suit::Spades => String::from_str("♠"),
            Suit::Clubs => String::from_str("♣"),
            Suit::Hearts => String::from_str("♥"),
            Suit::Diamonds => String::from_str("♦"),
        }
    }

    /// The suit with the given number.
    pub fn from_ordinal(ordinal: u8) -> (r: Suit)
        requires
            ordinal < 4,
        ensures
            r == Suit::of_ordinal(ordinal as nat),
            r.ordinal() == ordinal,
    {
        if ordinal == 0 {
            Suit::Spades
        } else if ordinal == 1 {
            Suit::Clubs
        } else if ordinal == 2 {
            Suit::Hearts
        } else {
            Suit::Diamonds
        }
    }

    /// The suit as a number, `0..=3`.
    pub fn to_index(&self) -> (r: u8)
        ensures
            r == self.ordinal(),
    {
        match self {
            Suit::Spades => 0,
            Suit::Clubs => 1,
            Suit::Hearts => 2,
            Suit::Diamonds => 3,
        }
    }
}

impl Default for Suit {
    fn default() -> (r: Suit)
        ensures
            r == Suit::Spades,
    {
        Suit::Spades
    }
}

} // verus!
