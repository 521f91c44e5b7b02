use vstd::prelude::*;
use crate::action::Action;
use crate::card::{rank_of, Card};
use crate::model::{deal_follows, dealt_by_weight, others_weight, unlikely_or_full, RoundState};
use crate::round::Round;
use crate::stack::{cards_beating, deck, suit_cards, Stack};
use crate::suit::Suit;
use crate::weights::Weights;

verus! {

/// The cards that `player` shows not to hold by playing the card with deck
/// index `card` in the round `state`, besides that card itself, which nobody
/// holds any more.
///
/// A player who does not follow suit holds no card of the led suit. A player
/// whose team does not hold the trick and who
/// - plays a lower card of the holder's suit, holds no higher card of it;
/// - follows neither suit nor trumps a trick held by a card that is no trump,
///   holds no trump;
/// - follows neither suit nor trumps a trick held by a trump, holds no trump
///   above the holder.
pub open spec fn ruled_out_by(state: RoundState, player: nat, card: nat) -> Set<nat> {
    let unplayed = deck().difference(state.played);
    let suit = Suit::of_card(card);
    let followed = match state.lead() {
        Some(lead) => suit == lead,
        None => true,
    };
    let void_in_lead = match state.lead() {
        Some(lead) => if suit != lead {
            unplayed.intersect(suit_cards(lead))
        } else {
            Set::<nat>::empty()
        },
        None => Set::<nat>::empty(),
    };
    let shown_by_losing = match state.winner {
        Some((held, holder)) => if holder % 2 != player % 2 {
            let held_suit = Suit::of_card(held@);
            let no_higher = if held_suit == suit && rank_of(held@) > rank_of(card) {
                unplayed.intersect(cards_beating(held@))
            } else {
                Set::<nat>::empty()
            };
            let no_trump = match state.trump {
                Some(trump) => if !followed && suit != trump {
                    if held_suit == trump {
                        unplayed.intersect(cards_beating(held@))
                    } else if held_suit != suit {
                        unplayed.intersect(suit_cards(trump))
                    } else {
                        Set::<nat>::empty()
                    }
                } else {
                    Set::<nat>::empty()
                },
                None => Set::<nat>::empty(),
            };
            no_higher.union(no_trump)
        } else {
            Set::<nat>::empty()
        },
        None => Set::<nat>::empty(),
    };
    void_in_lead.union(shown_by_losing)
}

/// The cards whose likelihoods the choice of `trump` changes: the cards of
/// the chosen suit that are not played yet. The player who chose is more
/// likely to hold them, the more so the higher they are.
pub open spec fn marked_by_trump(state: RoundState, trump: Option<Suit>) -> Set<nat> {
    match trump {
        Some(suit) => deck().difference(state.played).intersect(suit_cards(suit)),
        None => Set::<nat>::empty(),
    }
}

/// The weight that stands for certainty: the weights of the cards that a
/// player can hold add up to it, but for what rounding takes off.
pub const SCALE: u32 = 1048576;

/// Of 120 parts, how many speak for the player who chose the trump suit
/// holding the trump with deck index `card`: from 35 for the seven up to 84
/// for the ten, that is 0.7 times a twelfth of the rank plus 5.
pub open spec fn trump_parts(card: nat) -> nat {
    ((rank_of(card) + 5) * 7) as nat
}

/// The `num` parts of `den` of `weight`, rounded down, but never less than 1
/// for a weight that is not 0: what can be held never becomes impossible by
/// rounding.
pub open spec fn share(weight: nat, num: nat, den: nat) -> nat {
    if weight == 0 {
        0
    } else if weight * num / den == 0 {
        1
    } else {
        weight * num / den
    }
}

/// Whether a row of weights that add up to `total` is to scale: within one
/// for each of the 32 cards of [`SCALE`], which is as near as rounding
/// brings a row.
pub open spec fn to_scale(total: nat) -> bool {
    SCALE - 32 <= total <= SCALE + 32
}

/// What becomes of `weight` when its row, which adds up to `total`, is
/// brought to scale: its share of [`SCALE`] in `total`. A row that is to
/// scale already is left as it is.
pub open spec fn rescaled(weight: nat, total: nat) -> nat {
    if to_scale(total) {
        weight
    } else {
        share(weight, SCALE as nat, total)
    }
}

/// The sum of `entries` over the cards with a deck index below `upto`.
pub open spec fn row_sum(entries: spec_fn(nat) -> nat, upto: nat) -> nat
    decreases upto,
{
    if upto == 0 {
        0
    } else {
        row_sum(entries, (upto - 1) as nat) + entries((upto - 1) as nat)
    }
}

/// The weight of the card with deck index `card` for `player` once `action`
/// of the player `actor` in the round `state` is taken in, before the rows
/// are brought back to scale.
///
/// A card played gets weight 0 for every player, and what it rules out gets
/// weight 0 for the player who played it. The choice of a trump suit gives
/// each unplayed trump that the chooser can hold the weight of its
/// [`trump_parts`] for the chooser, and leaves the other players the
/// remaining parts of the weight they had.
pub open spec fn taken_in(
    table: Weights,
    state: RoundState,
    action: Action,
    actor: nat,
    player: int,
    card: nat,
) -> nat {
    let before = table.spec_weight(player, card) as nat;
    match action {
        Action::PlayCard(played) => if card == played@ || (player == actor && ruled_out_by(
            state,
            actor,
            played@,
        ).contains(card)) {
            0
        } else {
            before
        },
        Action::PickTrump(trump) => if marked_by_trump(state, trump).contains(card) {
            if player == actor {
                if before != 0 {
                    share(SCALE as nat, trump_parts(card), 120)
                } else {
                    0
                }
            } else {
                share(before, (120 - trump_parts(card)) as nat, 120)
            }
        } else {
            before
        },
    }
}

/// The weight of the card with deck index `card` for `player` once `action`
/// of the player `actor` in the round `state` is taken in and the player's
/// row is brought back to scale, as [`rescaled`] says.
pub open spec fn weight_after(
    table: Weights,
    state: RoundState,
    action: Action,
    actor: nat,
    player: int,
    card: nat,
) -> nat {
    let entries = taken_row(table, state, action, actor, player);
    rescaled(entries(card), row_sum(entries, 32))
}

/// The weights of the cards for `player` once `action` is taken in, before
/// the row is brought back to scale.
pub open spec fn taken_row(
    table: Weights,
    state: RoundState,
    action: Action,
    actor: nat,
    player: int,
) -> spec_fn(nat) -> nat {
    |card: nat| taken_in(table, state, action, actor, player, card)
}

/// The weights of the cards for `player` in `table`.
pub open spec fn row_of(table: Weights, player: int) -> spec_fn(nat) -> nat {
    |card: nat| table.spec_weight(player, card) as nat
}

/// What the four players can still hold after `action` of `player` in the
/// round `state`, where they could hold `possible` before. A card played
/// leaves every hand, and what it rules out leaves the hand of the player
/// who played it. The choice of the trump suit rules out nothing.
pub open spec fn possible_after(
    possible: Seq<Set<nat>>,
    state: RoundState,
    action: Action,
    player: nat,
) -> Seq<Set<nat>> {
    match action {
        Action::PlayCard(card) => Seq::new(
            4,
            |p: int|
                if p == player {
                    possible[p].remove(card@).difference(ruled_out_by(state, player, card@))
                } else {
                    possible[p].remove(card@)
                },
        ),
        Action::PickTrump(_) => possible,
    }
}

/// Sums of rows that agree below `upto` agree.
pub proof fn lemma_row_sum_agrees(first: spec_fn(nat) -> nat, second: spec_fn(nat) -> nat, upto: nat)
    requires
        forall|c: nat| c < upto ==> #[trigger] first(c) == second(c),
    ensures
        row_sum(first, upto) == row_sum(second, upto),
    decreases upto,
{
    if upto > 0 {
        lemma_row_sum_agrees(first, second, (upto - 1) as nat);
    }
}

/// No entry of a row is more than the sum of the row.
pub proof fn lemma_row_sum_bounds(entries: spec_fn(nat) -> nat, upto: nat)
    ensures
        forall|c: nat| c < upto ==> #[trigger] entries(c) <= row_sum(entries, upto),
    decreases upto,
{
    if upto > 0 {
        lemma_row_sum_bounds(entries, (upto - 1) as nat);
    }
}

/// A share of no more than the whole is no more than the weight, and a
/// share is 0 only of the weight 0.
pub proof fn lemma_share_bounds(weight: nat, num: nat, den: nat)
    requires
        den > 0,
    ensures
        share(weight, num, den) == 0 <==> weight == 0,
        num <= den ==> share(weight, num, den) <= weight,
        weight <= den ==> share(weight, num, den) <= num || share(weight, num, den) == 1,
{
    if weight > 0 {
        if num <= den {
            assert(weight * num / den <= weight) by (nonlinear_arith)
                requires
                    weight > 0,
                    num <= den,
                    den > 0,
            ;
        }
        if weight <= den {
            assert(weight * num / den <= num) by (nonlinear_arith)
                requires
                    weight <= den,
                    den > 0,
            ;
        }
    }
}

/// The weights of the cards for `player` once `action` is taken in and the
/// row is brought back to scale.
pub open spec fn row_after(
    table: Weights,
    state: RoundState,
    action: Action,
    actor: nat,
    player: int,
) -> spec_fn(nat) -> nat {
    |card: nat| weight_after(table, state, action, actor, player, card)
}

/// The shares of [`SCALE`] that the entries of a row have in `total`.
pub open spec fn scaled(entries: spec_fn(nat) -> nat, total: nat) -> spec_fn(nat) -> nat {
    |card: nat| share(entries(card), SCALE as nat, total)
}

/// A share of [`SCALE`] in `total` differs from the exact share by less
/// than one.
proof fn lemma_share_error(weight: nat, total: nat)
    requires
        total > 0,
    ensures
        weight * SCALE <= total * share(weight, SCALE as nat, total) + total,
        total * share(weight, SCALE as nat, total) <= weight * SCALE + total,
{
    let product: nat = weight * (SCALE as nat);
    let part: nat = product / total;
    vstd::arithmetic::div_mod::lemma_fundamental_div_mod(product as int, total as int);
    vstd::arithmetic::div_mod::lemma_mod_bound(product as int, total as int);
    assert(product == total * part + product % total);
    if weight == 0 {
        assert(product == 0) by (nonlinear_arith)
            requires
                product == weight * SCALE,
                weight == 0,
        ;
    } else if part == 0 {
        assert(total * 1 == total) by (nonlinear_arith);
    }
}

/// The shares of the entries below `upto` add up to the exact share of
/// their sum, give or take one for each entry.
proof fn lemma_scaled_sum(entries: spec_fn(nat) -> nat, total: nat, upto: nat)
    requires
        total > 0,
    ensures
        row_sum(entries, upto) * SCALE <= total * row_sum(scaled(entries, total), upto) + upto
            * total,
        total * row_sum(scaled(entries, total), upto) <= row_sum(entries, upto) * SCALE + upto
            * total,
    decreases upto,
{
    if upto > 0 {
        let last = (upto - 1) as nat;
        lemma_scaled_sum(entries, total, last);
        lemma_share_error(entries(last), total);
        let before = row_sum(entries, last);
        let scaled_before = row_sum(scaled(entries, total), last);
        let step = share(entries(last), SCALE as nat, total);
        assert(row_sum(scaled(entries, total), upto) == scaled_before + step);
        assert((before + entries(last)) * SCALE == before * SCALE + entries(last) * SCALE)
            by (nonlinear_arith);
        assert(total * (scaled_before + step) == total * scaled_before + total * step)
            by (nonlinear_arith);
        assert(upto * total == last * total + total) by (nonlinear_arith)
            requires
                upto == last + 1,
        ;
    } else {
        assert(total * 0 == 0) by (nonlinear_arith);
    }
}

/// A row without a weight above 0 adds up to 0.
proof fn lemma_row_sum_zero(entries: spec_fn(nat) -> nat, upto: nat)
    requires
        forall|c: nat| c < upto ==> #[trigger] entries(c) == 0,
    ensures
        row_sum(entries, upto) == 0,
    decreases upto,
{
    if upto > 0 {
        lemma_row_sum_zero(entries, (upto - 1) as nat);
    }
}

/// Once an action is taken in, the weights of each player are to scale,
/// unless the player can hold no card at all: then they are all 0. So no
/// weight is above [`SCALE`] by more than 32. Bringing a row to scale
/// leaves a weight of 0 at 0 and turns no other weight into 0.
pub proof fn lemma_rows_to_scale(
    table: Weights,
    state: RoundState,
    action: Action,
    actor: nat,
    player: int,
)
    ensures
        forall|card: nat|
            card < 32 ==> #[trigger] weight_after(table, state, action, actor, player, card)
                <= SCALE + 32,
        forall|card: nat|
            card < 32 ==> (#[trigger] weight_after(table, state, action, actor, player, card) == 0
                <==> taken_in(table, state, action, actor, player, card) == 0),
        row_sum(taken_row(table, state, action, actor, player), 32) == 0 ==> row_sum(
            row_after(table, state, action, actor, player),
            32,
        ) == 0,
        row_sum(taken_row(table, state, action, actor, player), 32) > 0 ==> to_scale(
            row_sum(row_after(table, state, action, actor, player), 32),
        ),
{
    let entries = taken_row(table, state, action, actor, player);
    let total = row_sum(entries, 32);
    let after = row_after(table, state, action, actor, player);
    lemma_row_sum_bounds(entries, 32);
    assert forall|card: nat| card < 32 implies (#[trigger] weight_after(
        table,
        state,
        action,
        actor,
        player,
        card,
    ) == 0 <==> taken_in(table, state, action, actor, player, card) == 0) by {
        assert(entries(card) <= total);
        if total > 0 {
            lemma_share_bounds(entries(card), SCALE as nat, total);
        }
    }
    if to_scale(total) {
        assert forall|card: nat| card < 32 implies #[trigger] after(card) == entries(card) by {}
        lemma_row_sum_agrees(after, entries, 32);
    } else if total == 0 {
        assert forall|card: nat| card < 32 implies #[trigger] after(card) == 0 by {
            assert(entries(card) <= total);
        }
        lemma_row_sum_zero(after, 32);
    } else {
        assert forall|card: nat| card < 32 implies #[trigger] after(card) == scaled(
            entries,
            total,
        )(card) by {}
        lemma_row_sum_agrees(after, scaled(entries, total), 32);
        assert forall|card: nat| card < 32 implies #[trigger] weight_after(
            table,
            state,
            action,
            actor,
            player,
            card,
        ) <= SCALE by {
            assert(entries(card) <= total);
            lemma_share_bounds(entries(card), SCALE as nat, total);
        }
        lemma_scaled_sum(entries, total, 32);
        let sum = row_sum(scaled(entries, total), 32);
        assert(SCALE - 32 <= sum <= SCALE + 32) by (nonlinear_arith)
            requires
                total > 0,
                total * SCALE <= total * sum + 32 * total,
                total * sum <= total * SCALE + 32 * total,
        ;
    }
}

/// Taking in a second time that a card was played changes no weight: the
/// card and what it rules out have weight 0 already, and the rows are to
/// scale.
pub proof fn lemma_idempotent_weights(
    table: Weights,
    state: RoundState,
    card: Card,
    actor: nat,
    once: Weights,
)
    requires
        forall|p: int, c: nat|
            0 <= p < 4 && c < 32 ==> #[trigger] once.spec_weight(p, c) == weight_after(
                table,
                state,
                Action::PlayCard(card),
                actor,
                p,
                c,
            ),
    ensures
        forall|p: int, c: nat|
            0 <= p < 4 && c < 32 ==> #[trigger] weight_after(
                once,
                state,
                Action::PlayCard(card),
                actor,
                p,
                c,
            ) == once.spec_weight(p, c),
{
    let action = Action::PlayCard(card);
    assert forall|p: int, c: nat| 0 <= p < 4 && c < 32 implies #[trigger] weight_after(
        once,
        state,
        action,
        actor,
        p,
        c,
    ) == once.spec_weight(p, c) by {
        let first = taken_row(table, state, action, actor, p);
        let second = taken_row(once, state, action, actor, p);
        let after = row_after(table, state, action, actor, p);
        lemma_rows_to_scale(table, state, action, actor, p);
        lemma_row_sum_bounds(first, 32);
        assert forall|i: nat| i < 32 implies #[trigger] second(i) == after(i) by {
            assert(once.spec_weight(p, i) == weight_after(table, state, action, actor, p, i));
            if first(i) == 0 {
                assert(after(i) == 0);
            }
        }
        lemma_row_sum_agrees(second, after, 32);
        assert(second(c) == after(c));
        if row_sum(first, 32) == 0 {
            assert(first(c) <= row_sum(first, 32));
        }
    }
}

/// Where the weights are those of rows to scale, as after every action
/// taken in, a deal that follows the weights gives a card to a player who
/// cannot hold it only where none of the players who were still to get
/// cards could hold it.
pub proof fn lemma_deal_within_scale(
    hands: Seq<Set<nat>>,
    observer: int,
    counts: Seq<usize>,
    weights: Weights,
    card: nat,
    p: int,
)
    requires
        0 <= observer < 4,
        0 <= p < 4,
        p != observer,
        deal_follows(hands, observer, counts, weights),
        hands[p].contains(card),
        weights.spec_weight(p, card) == 0,
        forall|q: int| 0 <= q < 4 ==> #[trigger] weights.spec_weight(q, card) <= SCALE + 32,
    ensures
        forall|q: int|
            0 <= q < 4 && q != observer ==> #[trigger] unlikely_or_full(
                hands,
                counts,
                weights,
                card,
                q,
            ),
{
    assert(dealt_by_weight(hands, observer, counts, weights, card, p));
    assert(others_weight(weights, observer, card) <= 3 * (SCALE + 32));
    assert forall|q: int| 0 <= q < 4 && q != observer implies #[trigger] unlikely_or_full(
        hands,
        counts,
        weights,
        card,
        q,
    ) by {
        assert(q == (observer + 1) % 4 || q == (observer + 2) % 4 || q == (observer + 3) % 4);
    }
}

/// The cards that `player` shows not to hold by playing `card` in the round
/// `state`, besides `card` itself.
pub fn ruled_out(state: &Round, player: usize, card: Card) -> (r: Stack)
    ensures
        r@ == ruled_out_by(state@, player as nat, card@),
{
    let unplayed = state.unplayed_cards();
    let mut excluded = Stack::default();
    let mut followed = true;
    match state.suit_to_follow() {
        Some(suit) => {
            if card.suit() != suit {
                followed = false;
                excluded = excluded.union(unplayed.of_suit(suit));
            }
        },
        None => {},
    }
    let trick = state.trick_ref();
    match trick.winner() {
        Some((winning_card, winning_player)) => {
            if winning_player % 2 != player % 2 {
                if winning_card.suit() == card.suit() && winning_card.value() > card.value() {
                    excluded = excluded.union(unplayed.above(winning_card));
                }
                match state.trump() {
                    Some(trump) => {
                        if !followed && card.suit() != trump {
                            if winning_card.suit() == trump {
                                excluded = excluded.union(unplayed.above(winning_card));
                            } else if winning_card.suit() != card.suit() {
                                excluded = excluded.union(unplayed.of_suit(trump));
                            }
                        }
                    },
                    None => {},
                }
            }
        },
        None => {},
    }
    assert(excluded@ =~= ruled_out_by(state@, player as nat, card@));
    excluded
}

/// The cards whose likelihoods the choice of `trump` changes in the round
/// `state`.
pub fn trump_marked(state: &Round, trump: Option<Suit>) -> (r: Stack)
    ensures
        r@ == marked_by_trump(state@, trump),
{
    match trump {
        Some(suit) => state.unplayed_cards().of_suit(suit),
        None => Stack::default(),
    }
}

/// What the play so far tells of the hands: for each player and each card a
/// weight that says how likely the player is to hold the card, 0 where the
/// player cannot hold it.
#[derive(Clone, Copy)]
pub struct Inference {
    table: Weights,
}

fn share_of(weight: u32, num: u32, den: u64) -> (r: u32)
    requires
        den > 0,
        weight * num <= den * 0xffff_ffff,
    ensures
        r == share(weight as nat, num as nat, den as nat),
{
    if weight == 0 {
        0
    } else {
        proof {
            assert(weight * num <= 0xffff_ffff * 0xffff_ffff) by (nonlinear_arith)
                requires
                    weight <= 0xffff_ffff,
                    num <= 0xffff_ffff,
            ;
            assert((weight * num) / (den as int) <= 0xffff_ffff) by (nonlinear_arith)
                requires
                    weight * num <= den * 0xffff_ffff,
                    den > 0,
            ;
        }
        let product: u64 = (weight as u64) * (num as u64);
        let part: u64 = product / den;
        if part == 0 {
            1
        } else {
            part as u32
        }
    }
}

impl Inference {
    /// The weights as a table.
    pub closed spec fn spec_table(&self) -> Weights {
        self.table
    }

    /// The weight of the card with deck index `card` for `player`.
    pub open spec fn spec_weight(&self, player: int, card: nat) -> u32 {
        self.spec_table().spec_weight(player, card)
    }

    /// The cards that `player` can hold: those with a weight above 0.
    pub open spec fn possible_for(&self, player: int) -> Set<nat> {
        Set::new(|card: nat| card < 32 && self.spec_weight(player, card) > 0)
    }

    /// For each of the four players the cards that the player can hold.
    pub open spec fn all_possible(&self) -> Seq<Set<nat>> {
        Seq::new(4, |p: int| self.possible_for(p))
    }

    /// Nothing is known at first: every player is as likely as any other to
    /// hold any card, with a weight of a 32nd of [`SCALE`].
    pub fn new() -> (r: Inference)
        ensures
            forall|player: int, card: nat|
                0 <= player < 4 && card < 32 ==> #[trigger] r.spec_weight(player, card) == SCALE
                    / 32,
    {
        Inference { table: Weights::filled(SCALE / 32) }
    }

    /// The weights of the 32 cards for `player`.
    pub fn weights(&self, player: usize) -> (r: [u32; 32])
        requires
            player < 4,
        ensures
            forall|card: int| 0 <= card < 32 ==> r[card] == self.spec_weight(player as int, card as nat),
    {
        let mut row: [u32; 32] = [0u32; 32];
        let mut index: u32 = 0;
        while index < 32
            invariant
                index <= 32,
                player < 4,
                forall|card: int|
                    0 <= card < index ==> row[card] == self.spec_weight(player as int, card as nat),
            decreases 32 - index,
        {
            row[index as usize] = self.table.weight(player, Card::new(index));
            index += 1;
        }
        row
    }

    /// The weight of `card` for `player`.
    pub fn weight(&self, player: usize, card: Card) -> (r: u32)
        requires
            player < 4,
        ensures
            r == self.spec_weight(player as int, card@),
    {
        self.table.weight(player, card)
    }

    /// The weights as a table, for dealing the hidden cards.
    pub fn table(&self) -> (r: &Weights)
        ensures
            *r == self.spec_table(),
    {
        &self.table
    }

    /// The cards that `player` can hold.
    pub fn possible(&self, player: usize) -> (r: Stack)
        requires
            player < 4,
        ensures
            r@ == self.possible_for(player as int),
    {
        let mut cards = Stack::default();
        let mut index: u32 = 0;
        while index < 32
            invariant
                index <= 32,
                player < 4,
                forall|card: nat|
                    cards@.contains(card) <==> card < index && self.spec_weight(
                        player as int,
                        card,
                    ) > 0,
            decreases 32 - index,
        {
            let card = Card::new(index);
            if self.table.weight(player, card) > 0 {
                cards.push(card);
            }
            index += 1;
        }
        assert(cards@ =~= self.possible_for(player as int));
        cards
    }

    /// Whether `player` can hold `card`.
    pub fn may_hold(&self, player: usize, card: Card) -> (r: bool)
        requires
            player < 4,
        ensures
            r == (self.spec_weight(player as int, card@) > 0),
    {
        self.table.weight(player, card) > 0
    }

    /// Takes in what `action` of `player` in the round `state` shows, and
    /// brings the row of every player back to scale.
    pub fn infer(&mut self, state: &Round, action: Action, player: usize)
        requires
            player < 4,
        ensures
            forall|p: int, card: nat|
                0 <= p < 4 && card < 32 ==> #[trigger] final(self).spec_weight(p, card)
                    == weight_after(old(self).spec_table(), state@, action, player as nat, p, card),
            final(self).all_possible() == possible_after(
                old(self).all_possible(),
                state@,
                action,
                player as nat,
            ),
    {
        let ghost before = self.table;
        match action {
            Action::PlayCard(card) => self.infer_card(state, player, card),
            Action::PickTrump(trump) => self.infer_trump(state, player, trump),
        }
        let ghost taken = self.table;
        let mut p: usize = 0;
        while p < 4
            invariant
                p <= 4,
                forall|q: int, card: nat|
                    0 <= q < p && card < 32 ==> #[trigger] self.table.spec_weight(q, card)
                        == weight_after(before, state@, action, player as nat, q, card),
                forall|q: int, card: nat|
                    p <= q < 4 && card < 32 ==> #[trigger] self.table.spec_weight(q, card)
                        == taken.spec_weight(q, card),
                forall|q: int, card: nat|
                    0 <= q < 4 && card < 32 ==> #[trigger] taken.spec_weight(q, card) == taken_in(
                        before,
                        state@,
                        action,
                        player as nat,
                        q,
                        card,
                    ),
            decreases 4 - p,
        {
            proof {
                lemma_row_sum_agrees(
                    row_of(self.table, p as int),
                    taken_row(before, state@, action, player as nat, p as int),
                    32,
                );
            }
            self.rescale(p);
            p += 1;
        }
        proof {
            assert forall|q: int| 0 <= q < 4 implies #[trigger] self.all_possible()[q]
                == possible_after(old(self).all_possible(), state@, action, player as nat)[q] by {
                let entries = taken_row(before, state@, action, player as nat, q);
                let sum = row_sum(entries, 32);
                assert forall|card: nat| card < 32 implies (self.spec_weight(q, card) > 0) == (
                entries(card) > 0) by {
                    lemma_row_sum_bounds(entries, 32);
                    if entries(card) > 0 {
                        lemma_share_bounds(entries(card), SCALE as nat, sum);
                    }
                }
                assert forall|card: nat| card < 32 implies (entries(card) > 0) == possible_after(
                    old(self).all_possible(),
                    state@,
                    action,
                    player as nat,
                )[q].contains(card) by {
                    let had = before.spec_weight(q, card) as nat;
                    assert(old(self).all_possible()[q].contains(card) == (had > 0));
                    match action {
                        Action::PlayCard(_) => {},
                        Action::PickTrump(trump) => {
                            lemma_share_bounds(SCALE as nat, trump_parts(card), 120);
                            lemma_share_bounds(had, (120 - trump_parts(card)) as nat, 120);
                        },
                    }
                }
                assert(self.all_possible()[q] =~= possible_after(
                    old(self).all_possible(),
                    state@,
                    action,
                    player as nat,
                )[q]);
            }
            assert(self.all_possible() =~= possible_after(
                old(self).all_possible(),
                state@,
                action,
                player as nat,
            ));
        }
    }

    fn infer_card(&mut self, state: &Round, player: usize, card: Card)
        requires
            player < 4,
        ensures
            forall|p: int, c: nat|
                0 <= p < 4 && c < 32 ==> #[trigger] final(self).table.spec_weight(p, c) == taken_in(
                    old(self).table,
                    state@,
                    Action::PlayCard(card),
                    player as nat,
                    p,
                    c,
                ),
    {
        let excluded = ruled_out(state, player, card);
        let ghost action = Action::PlayCard(card);
        let mut p: usize = 0;
        while p < 4
            invariant
                p <= 4,
                player < 4,
                action == Action::PlayCard(card),
                excluded@ == ruled_out_by(state@, player as nat, card@),
                forall|q: int, c: nat|
                    0 <= q < p && c < 32 ==> #[trigger] self.table.spec_weight(q, c) == taken_in(
                        old(self).table,
                        state@,
                        action,
                        player as nat,
                        q,
                        c,
                    ),
                forall|q: int, c: nat|
                    p <= q < 4 && c < 32 ==> #[trigger] self.table.spec_weight(q, c) == old(self).table.spec_weight(q, c),
            decreases 4 - p,
        {
            let mut index: u32 = 0;
            while index < 32
                invariant
                    index <= 32,
                    p < 4,
                    player < 4,
                    action == Action::PlayCard(card),
                    excluded@ == ruled_out_by(state@, player as nat, card@),
                    forall|q: int, c: nat|
                        0 <= q < 4 && c < 32 && (q < p || (q == p && c < index))
                            ==> #[trigger] self.table.spec_weight(q, c) == taken_in(
                            old(self).table,
                            state@,
                            action,
                            player as nat,
                            q,
                            c,
                        ),
                    forall|q: int, c: nat|
                        0 <= q < 4 && c < 32 && (q > p || (q == p && c >= index))
                            ==> #[trigger] self.table.spec_weight(q, c) == old(self).table.spec_weight(q, c),
                decreases 32 - index,
            {
                let other = Card::new(index);
                if index == card.get_index() || (p == player && excluded.has_card(other)) {
                    self.table.set(p, other, 0);
                }
                index += 1;
            }
            p += 1;
        }
    }

    fn infer_trump(&mut self, state: &Round, player: usize, trump: Option<Suit>)
        requires
            player < 4,
        ensures
            forall|p: int, c: nat|
                0 <= p < 4 && c < 32 ==> #[trigger] final(self).table.spec_weight(p, c) == taken_in(
                    old(self).table,
                    state@,
                    Action::PickTrump(trump),
                    player as nat,
                    p,
                    c,
                ),
    {
        let marked = trump_marked(state, trump);
        let ghost action = Action::PickTrump(trump);
        let mut p: usize = 0;
        while p < 4
            invariant
                p <= 4,
                player < 4,
                action == Action::PickTrump(trump),
                marked@ == marked_by_trump(state@, trump),
                forall|q: int, c: nat|
                    0 <= q < p && c < 32 ==> #[trigger] self.table.spec_weight(q, c) == taken_in(
                        old(self).table,
                        state@,
                        action,
                        player as nat,
                        q,
                        c,
                    ),
                forall|q: int, c: nat|
                    p <= q < 4 && c < 32 ==> #[trigger] self.table.spec_weight(q, c) == old(self).table.spec_weight(q, c),
            decreases 4 - p,
        {
            let mut index: u32 = 0;
            while index < 32
                invariant
                    index <= 32,
                    p < 4,
                    player < 4,
                    action == Action::PickTrump(trump),
                    marked@ == marked_by_trump(state@, trump),
                    forall|q: int, c: nat|
                        0 <= q < 4 && c < 32 && (q < p || (q == p && c < index))
                            ==> #[trigger] self.table.spec_weight(q, c) == taken_in(
                            old(self).table,
                            state@,
                            action,
                            player as nat,
                            q,
                            c,
                        ),
                    forall|q: int, c: nat|
                        0 <= q < 4 && c < 32 && (q > p || (q == p && c >= index))
                            ==> #[trigger] self.table.spec_weight(q, c) == old(self).table.spec_weight(q, c),
                decreases 32 - index,
            {
                let card = Card::new(index);
                if marked.has_card(card) {
                    let parts: u32 = (card.value() as u32 + 5) * 7;
                    let before = self.table.weight(p, card);
                    if p == player {
                        if before != 0 {
                            self.table.set(p, card, share_of(SCALE, parts, 120));
                        }
                    } else {
                        proof {
                            assert(before * (120 - parts) <= 120 * 0xffff_ffff) by (nonlinear_arith)
                                requires
                                    before <= 0xffff_ffff,
                                    0 <= 120 - parts <= 120,
                            ;
                        }
                        self.table.set(p, card, share_of(before, 120 - parts, 120));
                    }
                }
                index += 1;
            }
            p += 1;
        }
    }

    /// Brings the row of `player` back to scale: each weight becomes its
    /// share of [`SCALE`] in the sum of the row. A row of zeros and a row
    /// that is to scale stay as they are.
    fn rescale(&mut self, player: usize)
        requires
            player < 4,
        ensures
            forall|c: nat|
                c < 32 ==> #[trigger] final(self).table.spec_weight(player as int, c) == rescaled(
                    old(self).table.spec_weight(player as int, c) as nat,
                    row_sum(row_of(old(self).table, player as int), 32),
                ),
            forall|q: int, c: nat|
                0 <= q < 4 && q != player && c < 32 ==> #[trigger] final(self).table.spec_weight(
                    q,
                    c,
                ) == old(self).table.spec_weight(q, c),
    {
        let ghost entries = row_of(old(self).table, player as int);
        let mut sum: u64 = 0;
        let mut index: u32 = 0;
        proof {
            lemma_row_sum_bounds(entries, 32);
        }
        while index < 32
            invariant
                index <= 32,
                player < 4,
                self.table == old(self).table,
                entries == row_of(old(self).table, player as int),
                sum == row_sum(entries, index as nat),
                sum <= index * 0xffff_ffff,
            decreases 32 - index,
        {
            let weight = self.table.weight(player, Card::new(index));
            proof {
                assert(entries(index as nat) == weight);
                assert((index + 1) * 0xffff_ffff == index * 0xffff_ffff + 0xffff_ffff)
                    by (nonlinear_arith);
            }
            sum = sum + weight as u64;
            index += 1;
        }
        proof {
            lemma_row_sum_bounds(entries, 32);
            assert forall|c: nat| c < 32 implies #[trigger] entries(c) == old(self).table.spec_weight(player as int, c) by {}
        }
        let in_scale = SCALE as u64 - 32 <= sum && sum <= SCALE as u64 + 32;
        if sum > 0 && !in_scale {
            let mut index: u32 = 0;
            while index < 32
                invariant
                    index <= 32,
                    player < 4,
                    sum > 0,
                    entries == row_of(old(self).table, player as int),
                    sum == row_sum(entries, 32),
                    forall|c: nat| c < 32 ==> #[trigger] entries(c) <= sum,
                    forall|c: nat|
                        c < 32 ==> #[trigger] entries(c) == old(self).table.spec_weight(
                            player as int,
                            c,
                        ),
                    forall|c: nat|
                        c < index ==> #[trigger] self.table.spec_weight(player as int, c) == share(
                            entries(c),
                            SCALE as nat,
                            sum as nat,
                        ),
                    forall|c: nat|
                        index <= c < 32 ==> #[trigger] self.table.spec_weight(player as int, c)
                            == old(self).table.spec_weight(player as int, c),
                    forall|q: int, c: nat|
                        0 <= q < 4 && q != player && c < 32 ==> #[trigger] self.table.spec_weight(
                            q,
                            c,
                        ) == old(self).table.spec_weight(q, c),
                decreases 32 - index,
            {
                let card = Card::new(index);
                let weight = self.table.weight(player, card);
                proof {
                    assert(entries(index as nat) == weight);
                    assert(weight * SCALE <= sum * 0xffff_ffff) by (nonlinear_arith)
                        requires
                            weight <= sum,
                            SCALE <= 0xffff_ffff,
                    ;
                }
                self.table.set(player, card, share_of(weight, SCALE, sum));
                index += 1;
            }
        } else if sum == 0 {
            proof {
                assert forall|c: nat| c < 32 implies #[trigger] entries(c) == 0 by {}
            }
        }
        proof {
            assert forall|c: nat| c < 32 implies #[trigger] self.table.spec_weight(
                player as int,
                c,
            ) == rescaled(
                old(self).table.spec_weight(player as int, c) as nat,
                row_sum(row_of(old(self).table, player as int), 32),
            ) by {
                assert(entries(c) == old(self).table.spec_weight(player as int, c));
            }
        }
    }

    /// What was ruled out stays ruled out: no action makes a card possible
    /// for a player for whom it was not.
    pub proof fn lemma_only_shrinks(
        possible: Seq<Set<nat>>,
        state: RoundState,
        action: Action,
        player: nat,
    )
        requires
            possible.len() == 4,
        ensures
            possible_after(possible, state, action, player).len() == 4,
            forall|p: int|
                0 <= p < 4 ==> (#[trigger] possible_after(
                    possible,
                    state,
                    action,
                    player,
                )[p]).subset_of(possible[p]),
    {
    }

    /// Taking in a second time that a card was played rules out nothing
    /// more: what the players can hold stays as it was after the first time.
    pub proof fn lemma_idempotent(
        possible: Seq<Set<nat>>,
        state: RoundState,
        action: Action,
        player: nat,
    )
        requires
            possible.len() == 4,
        ensures
            possible_after(possible_after(possible, state, action, player), state, action, player)
                == possible_after(possible, state, action, player),
    {
        let once = possible_after(possible, state, action, player);
        let twice = possible_after(once, state, action, player);
        assert forall|p: int| 0 <= p < 4 implies #[trigger] twice[p] == once[p] by {
            assert(twice[p] =~= once[p]);
        }
        assert(twice =~= once);
    }
}

impl Default for Inference {
    fn default() -> (r: Inference)
        ensures
            forall|player: int, card: nat|
                0 <= player < 4 && card < 32 ==> #[trigger] r.spec_weight(player, card) == SCALE
                    / 32,
    {
        Inference::new()
    }
}

} // verus!
