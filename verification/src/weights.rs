use vstd::prelude::*;
use crate::card::Card;

verus! {

/// For each player and each card, how likely the player is to hold the card,
/// as a whole number that counts only against the numbers of the other
/// players for the same card. Zero stands for a card that the player cannot
/// hold.
#[derive(Clone, Copy)]
pub struct Weights {
    table: [u32; 128],
}

impl Weights {
    /// The weight of the card with deck index `card` for `player`.
    pub closed spec fn spec_weight(self, player: int, card: nat) -> u32 {
        self.table@[32 * player + card]
    }

    /// The same weight for every player and every card, so that every
    /// player is as likely as the others to hold any card.
    pub fn uniform() -> (r: Weights)
        ensures
            forall|player: int, card: nat|
                0 <= player < 4 && card < 32 ==> r.spec_weight(player, card) == 1,
    {
        Weights::filled(1)
    }

    /// The weight `weight` for every player and every card.
    pub fn filled(weight: u32) -> (r: Weights)
        ensures
            forall|player: int, card: nat|
                0 <= player < 4 && card < 32 ==> r.spec_weight(player, card) == weight,
    {
        let mut table: [u32; 128] = [0u32; 128];
        let mut k: usize = 0;
        while k < 128
            invariant
                k <= 128,
                forall|j: int| 0 <= j < k ==> table@[j] == weight,
            decreases 128 - k,
        {
            table[k] = weight;
            k += 1;
        }
        Weights { table }
    }

    /// Sets the weight of `card` for `player`.
    pub fn set(&mut self, player: usize, card: Card, weight: u32)
        requires
            player < 4,
        ensures
            final(self).spec_weight(player as int, card@) == weight,
            forall|other: int, index: nat|
                0 <= other < 4 && index < 32 && (other != player || index != card@)
                    ==> #[trigger] final(self).spec_weight(other, index)
                    == old(self).spec_weight(other, index),
    {
        let index = card.get_index() as usize;
        self.table[32 * player + index] = weight;
    }

    /// The weight of `card` for `player`.
    pub fn weight(&self, player: usize, card: Card) -> (r: u32)
        requires
            player < 4,
        ensures
            r == self.spec_weight(player as int, card@),
    {
        let index = card.get_index() as usize;
        self.table[32 * player + index]
    }
}

} // verus!
