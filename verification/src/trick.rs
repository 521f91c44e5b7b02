use vstd::prelude::*;
use crate::array::Array;
use crate::card::{rank_of, Card};
use crate::stack::{cards_beating, suit_cards, Stack};
use crate::suit::Suit;

verus! {

/// Whether the card with deck index `card`, played now, takes the trick from
/// the card `winner` that holds it. A trump takes it from any card that is
/// not a trump; otherwise only a higher card of the holder's suit does.
pub open spec fn beats(card: nat, winner: nat, trump: Option<Suit>) -> bool {
    let same_suit_higher = Suit::of_card(card) == Suit::of_card(winner) && rank_of(card) > rank_of(
        winner,
    );
    match trump {
        Some(t) => (Suit::of_card(card) == t && Suit::of_card(winner) != t) || same_suit_higher,
        None => same_suit_higher,
    }
}

/// Position in `cards` of the card that holds the trick after they were
/// played in this order: the first card holds it until a later one beats the
/// holder.
pub open spec fn winner_index(cards: Seq<Card>, trump: Option<Suit>) -> int
    decreases cards.len(),
{
    if cards.len() <= 1 {
        0
    } else {
        let before = winner_index(cards.drop_last(), trump);
        if beats(cards.last()@, cards[before]@, trump) {
            cards.len() - 1
        } else {
            before
        }
    }
}

/// The points of `cards` together.
pub open spec fn total_points(cards: Seq<Card>) -> int
    decreases cards.len(),
{
    if cards.len() == 0 {
        0
    } else {
        total_points(cards.drop_last()) + cards.last().points()
    }
}

/// How strong a card is in a trick led in suit `lead`: trumps above the led
/// suit, the led suit above everything else, and by rank within each.
pub open spec fn strength(card: nat, lead: Suit, trump: Option<Suit>) -> nat {
    if trump == Some(Suit::of_card(card)) {
        16 + rank_of(card)
    } else if Suit::of_card(card) == lead {
        8 + rank_of(card)
    } else {
        0
    }
}

/// The holder of the trick and the player who played it, once `card` has
/// been played by `player`.
pub open spec fn next_winner(
    winner: Option<(Card, usize)>,
    trump: Option<Suit>,
    card: Card,
    player: usize,
) -> (Card, usize) {
    match winner {
        Some((held, holder)) => if beats(card@, held@, trump) {
            (card, player)
        } else {
            (held, holder)
        },
        None => (card, player),
    }
}

/// The cards of `hand` that follow the led suit, or all of `hand` where no
/// suit was led or `hand` holds none of it.
pub open spec fn following(hand: Set<nat>, lead: Option<Suit>) -> Set<nat> {
    match lead {
        Some(suit) => if hand.intersect(suit_cards(suit)).is_empty() {
            hand
        } else {
            hand.intersect(suit_cards(suit))
        },
        None => hand,
    }
}

/// The cards that take the trick from the card `held`: higher cards of its
/// suit and, where it is not a trump itself, every trump.
pub open spec fn overtaking(held: nat, trump: Option<Suit>) -> Set<nat> {
    match trump {
        Some(t) => if Suit::of_card(held) != t {
            cards_beating(held).union(suit_cards(t))
        } else {
            cards_beating(held)
        },
        None => cards_beating(held),
    }
}

/// The cards that `player` may play from `hand`. The player follows suit
/// where possible. While the other team holds the trick, the player must
/// also take it where a card that is left after following suit can.
pub open spec fn legal_set(
    hand: Set<nat>,
    lead: Option<Suit>,
    winner: Option<(Card, usize)>,
    trump: Option<Suit>,
    player: usize,
) -> Set<nat> {
    let followed = following(hand, lead);
    match winner {
        Some((held, holder)) => if holder % 2 != player % 2 && !followed.intersect(
            overtaking(held@, trump),
        ).is_empty() {
            followed.intersect(overtaking(held@, trump))
        } else {
            followed
        },
        None => followed,
    }
}

/// Whether `winner` and `score` are what a trick shows once `plays` were
/// played, in this order, under `trump`: at most four cards, the points are
/// theirs, and the holder is the card that won through.
pub open spec fn table_wf(
    plays: Seq<Card>,
    trump: Option<Suit>,
    winner: Option<(Card, usize)>,
    score: int,
) -> bool {
    &&& plays.len() <= 4
    &&& score == total_points(plays)
    &&& plays.len() == 0 ==> winner is None
    &&& plays.len() > 0 ==> (winner matches Some((held, _)) && held == plays[winner_index(
        plays,
        trump,
    )])
}

/// Every card of `cards` adds between 0 and 5 points.
pub proof fn lemma_total_points_bounds(cards: Seq<Card>)
    ensures
        0 <= total_points(cards) <= 5 * cards.len(),
    decreases cards.len(),
{
    if cards.len() > 0 {
        lemma_total_points_bounds(cards.drop_last());
    }
}

/// The card that holds a trick is one of its cards, and none of its cards is
/// stronger: it is the highest trump played or, where no trump was played,
/// the highest card of the led suit.
pub proof fn lemma_winner_is_strongest(cards: Seq<Card>, trump: Option<Suit>)
    requires
        cards.len() > 0,
    ensures
        0 <= winner_index(cards, trump) < cards.len(),
        forall|k: int|
            0 <= k < cards.len() ==> strength(#[trigger] cards[k]@, cards[0].spec_suit(), trump)
                <= strength(cards[winner_index(cards, trump)]@, cards[0].spec_suit(), trump),
        strength(cards[winner_index(cards, trump)]@, cards[0].spec_suit(), trump) >= 8,
    decreases cards.len(),
{
    if cards.len() > 1 {
        let front = cards.drop_last();
        lemma_winner_is_strongest(front, trump);
        let before = winner_index(front, trump);
        assert(front[before] == cards[before]);
        assert(front[0] == cards[0]);
        assert forall|k: int| 0 <= k < cards.len() implies strength(
            #[trigger] cards[k]@,
            cards[0].spec_suit(),
            trump,
        ) <= strength(cards[winner_index(cards, trump)]@, cards[0].spec_suit(), trump) by {
            if k < cards.len() - 1 {
                assert(front[k] == cards[k]);
            }
        }
    }
}

/// A well-formed table stays well formed when one more card is played.
pub proof fn lemma_table_push(
    plays: Seq<Card>,
    trump: Option<Suit>,
    winner: Option<(Card, usize)>,
    score: int,
    card: Card,
    player: usize,
)
    requires
        table_wf(plays, trump, winner, score),
        plays.len() < 4,
    ensures
        table_wf(
            plays.push(card),
            trump,
            Some(next_winner(winner, trump, card, player)),
            score + card.points(),
        ),
{
    let after = plays.push(card);
    assert(after.drop_last() =~= plays);
    assert(after.last() == card);
    if plays.len() > 0 {
        lemma_winner_is_strongest(plays, trump);
        assert(plays[winner_index(plays, trump)] == after[winner_index(plays, trump)]);
    }
}

/// The cards played to the table in one turn of the four players, with the
/// trump suit of the round, the card that holds the trick and who played it,
/// and the points on the table.
#[derive(Clone, Copy)]
pub struct Trick {
    cards: Array<Card, 4>,
    trump: Option<Suit>,
    winner: Option<(Card, usize)>,
    score: i16,
}

impl Trick {
    /// The cards played so far, in the order of play.
    pub closed spec fn plays(self) -> Seq<Card> {
        self.cards@
    }

    /// The trump suit; `None` when the round is played without trump.
    pub closed spec fn spec_trump(self) -> Option<Suit> {
        self.trump
    }

    /// The card that holds the trick and the player who played it.
    pub closed spec fn spec_winner(self) -> Option<(Card, usize)> {
        self.winner
    }

    /// The points on the table.
    pub closed spec fn spec_score(self) -> int {
        self.score as int
    }

    /// The suit of the first card played, which the others must follow.
    pub open spec fn lead(self) -> Option<Suit> {
        if self.plays().len() > 0 {
            Some(self.plays()[0].spec_suit())
        } else {
            None
        }
    }

    /// At most four cards are on the table, the points are theirs, and the
    /// holder is the card that won through as they were played.
    pub open spec fn wf(self) -> bool {
        table_wf(self.plays(), self.spec_trump(), self.spec_winner(), self.spec_score())
    }

    /// The cards that `player` may play from `hand` into this trick.
    pub open spec fn legal(self, hand: Set<nat>, player: usize) -> Set<nat> {
        legal_set(hand, self.lead(), self.spec_winner(), self.spec_trump(), player)
    }

    /// Takes the cards off the table. The trump suit stays.
    pub fn clear(&mut self)
        ensures
            final(self).plays() == Seq::<Card>::empty(),
            final(self).spec_winner() is None,
            final(self).spec_score() == 0,
            final(self).spec_trump() == old(self).spec_trump(),
            final(self).wf(),
    {
        self.cards.clear();
        self.winner = None;
        self.score = 0;
    }

    /// Sets the trump suit. It decides who holds the trick, so a trick stays
    /// well formed only if no card is on the table yet.
    pub fn set_trump(&mut self, trump: Option<Suit>)
        ensures
            final(self).spec_trump() == trump,
            final(self).plays() == old(self).plays(),
            final(self).spec_winner() == old(self).spec_winner(),
            final(self).spec_score() == old(self).spec_score(),
            old(self).wf() && old(self).plays().len() == 0 ==> final(self).wf(),
    {
        self.trump = trump;
    }

    /// Puts `card`, played by `player`, on the table.
    pub fn play(&mut self, card: Card, player: usize)
        requires
            old(self).wf(),
            old(self).plays().len() < 4,
        ensures
            final(self).wf(),
            final(self).plays() == old(self).plays().push(card),
            final(self).spec_trump() == old(self).spec_trump(),
            final(self).spec_winner() == Some(
                next_winner(old(self).spec_winner(), old(self).spec_trump(), card, player),
            ),
            final(self).spec_score() == old(self).spec_score() + card.points(),
    {
        proof {
            lemma_total_points_bounds(self.cards@);
        }
        match self.winner {
            None => {
                self.winner = Some((card, player));
            },
            Some((winner_card, _)) => {
                let winner_suit = winner_card.suit();
                let card_suit = card.suit();
                let higher = card.value() > winner_card.value() && card_suit == winner_suit;
                match self.trump {
                    Some(trump) => {
                        if (card_suit == trump && winner_suit != trump) || higher {
                            self.winner = Some((card, player));
                        }
                    },
                    None => {
                        if higher {
                            self.winner = Some((card, player));
                        }
                    },
                }
            },
        }
        self.score = self.score + card.score();
        self.cards.push(card);
        proof {
            lemma_table_push(
                old(self).cards@,
                old(self).trump,
                old(self).winner,
                old(self).score as int,
                card,
                player,
            );
        }
    }

    /// The card that holds the trick and the player who played it.
    pub fn winner(&self) -> (r: Option<(Card, usize)>)
        ensures
            r == self.spec_winner(),
    {
        self.winner
    }

    /// The points on the table.
    pub fn score(&self) -> (r: i16)
        ensures
            r == self.spec_score(),
    {
        self.score
    }

    /// The suit of the first card played, which the others must follow.
    pub fn suit_to_follow(&self) -> (r: Option<Suit>)
        ensures
            r == self.lead(),
    {
        match self.cards.get(0) {
            Some(card) => Some(card.suit()),
            None => None,
        }
    }

    /// The trump suit; `None` when the round is played without trump.
    pub fn trump(&self) -> (r: Option<Suit>)
        ensures
            r == self.spec_trump(),
    {
        self.trump
    }

    /// Whether all four players have played.
    pub fn is_finished(&self) -> (r: bool)
        ensures
            r == (self.plays().len() == 4),
    {
        self.cards.len() == 4
    }

    /// The cards played so far, in the order of play.
    pub fn cards(&self) -> (r: Array<Card, 4>)
        ensures
            r@ == self.plays(),
    {
        self.cards
    }

    /// The place in the trick of the card that holds it.
    pub fn holder_place(&self) -> (r: usize)
        requires
            self.plays().len() > 0,
        ensures
            r == winner_index(self.plays(), self.spec_trump()),
            r < self.plays().len(),
    {
        let played = self.cards.iter();
        let count = self.cards.len();
        let mut place: usize = 0;
        let mut n: usize = 1;
        assert(winner_index(self.plays().take(1), self.spec_trump()) == 0);
        while n < count
            invariant
                1 <= n <= count <= 4,
                count == played@.len(),
                played@ == self.plays(),
                place < n,
                place == winner_index(self.plays().take(n as int), self.spec_trump()),
            decreases count - n,
        {
            let card = played[n];
            let held = played[place];
            proof {
                let upto = self.plays().take(n + 1);
                assert(upto.drop_last() =~= self.plays().take(n as int));
                assert(upto.last() == card);
                assert(upto[place as int] == held);
            }
            let higher = card.value() > held.value() && card.suit() == held.suit();
            let takes = match self.trump {
                Some(trump) => (card.suit() == trump && held.suit() != trump) || higher,
                None => higher,
            };
            if takes {
                place = n;
            }
            n += 1;
        }
        assert(self.plays().take(n as int) =~= self.plays());
        place
    }

    /// Whether the trick is well formed, found by playing its cards again.
    pub fn is_consistent(&self) -> (r: bool)
        ensures
            r == self.wf(),
    {
        let played = self.cards.iter();
        let count = self.cards.len();
        let mut replay = Trick::default();
        replay.set_trump(self.trump);
        let mut n: usize = 0;
        while n < count
            invariant
                n <= count <= 4,
                count == played@.len(),
                played@ == self.plays(),
                replay.wf(),
                replay.plays() == self.plays().take(n as int),
                replay.spec_trump() == self.spec_trump(),
            decreases count - n,
        {
            replay.play(played[n], 0);
            assert(self.plays().take(n + 1) =~= self.plays().take(n as int).push(played@[n as int]));
            n += 1;
        }
        assert(self.plays().take(n as int) =~= self.plays());
        let same_holder = match (self.winner, replay.winner) {
            (None, None) => true,
            (Some((held, _)), Some((other, _))) => {
                let same = held.get_index() == other.get_index();
                proof {
                    if same {
                        Card::lemma_view_injective(held, other);
                    }
                }
                same
            },
            _ => false,
        };
        self.score == replay.score && same_holder
    }

    /// The cards of `hand` that `player` may play into this trick.
    pub fn legal_cards(&self, hand: Stack, player: usize) -> (r: Stack)
        ensures
            r@ == self.legal(hand@, player),
            r@.subset_of(hand@),
            r@.is_empty() <==> hand@.is_empty(),
    {
        let mut cards = hand;
        match self.suit_to_follow() {
            Some(suit) => {
                let filtered = cards.of_suit(suit);
                if !filtered.is_empty() {
                    cards = filtered;
                }
            },
            None => {},
        }
        assert(cards@ == following(hand@, self.lead()));
        match self.winner {
            Some((winning_card, winning_player)) => {
                if winning_player % 2 != player % 2 {
                    let deck = Stack::all();
                    let mut mask = deck.above(winning_card);
                    proof {
                        assert(mask@ =~= cards_beating(winning_card@));
                    }
                    match self.trump {
                        Some(trump) => {
                            if winning_card.suit() != trump {
                                mask = mask.union(deck.of_suit(trump));
                                proof {
                                    assert(mask@ =~= cards_beating(winning_card@).union(
                                        suit_cards(trump),
                                    ));
                                }
                            }
                        },
                        None => {},
                    }
                    assert(mask@ == overtaking(winning_card@, self.trump));
                    let filtered = cards.intersect(mask);
                    if !filtered.is_empty() {
                        cards = filtered;
                    }
                }
            },
            None => {},
        }
        proof {
            hand.lemma_view();
        }
        cards
    }
}

impl Default for Trick {
    /// An empty table in a round without trump.
    fn default() -> (r: Trick)
        ensures
            r.plays() == Seq::<Card>::empty(),
            r.spec_trump() is None,
            r.spec_winner() is None,
            r.spec_score() == 0,
            r.wf(),
    {
        Trick { cards: Array::new(), trump: None, winner: None, score: 0 }
    }
}

} // verus!
