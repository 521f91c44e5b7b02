use vstd::prelude::*;
use vstd::string::StringExecFns;
use crate::card::Card;
use crate::suit::Suit;

verus! {

/// The place of a trump choice among the five there are: the suit's number,
/// and 4 for playing without trump.
pub open spec fn trump_slot(trump: Option<Suit>) -> nat {
    match trump {
        Some(suit) => suit.ordinal(),
        None => 4,
    }
}

/// What a player can do when it is their turn.
#[derive(Clone, Copy, PartialEq, Eq, Debug, Structural)]
pub enum Action {
    /// Choose the trump suit of the round; `None` plays it without trump.
    PickTrump(Option<Suit>),
    /// Play a card into the trick.
    PlayCard(Card),
}

impl Action {
    /// The action's place among those of its kind: the trump choice's slot,
    /// or the card's deck index.
    pub open spec fn slot(self) -> nat {
        match self {
            Action::PickTrump(trump) => trump_slot(trump),
            Action::PlayCard(card) => card@,
        }
    }

    /// The action's text: the glyph of the chosen suit, `None` for no trump,
    /// or the card's text.
    pub open spec fn text(self) -> Seq<char> {
        match self {
            Action::PickTrump(Some(suit)) => suit.glyph(),
            Action::PickTrump(None) => "None"@,
            Action::PlayCard(card) => card.text(),
        }
    }

    /// The action's text.
    pub fn to_string(&self) -> (r: String)
        ensures
            r@ == self.text(),
    {
        match self {
            Action::PickTrump(Some(suit)) => suit.to_string(),
            Action::PickTrump(None) => String::from_str("None"),
            Action::PlayCard(card) => card.to_string(),
        }
    }
}

} // verus!
