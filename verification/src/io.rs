use vstd::prelude::*;
use vstd::string::StringExecFns;
use crate::action::Action;
use crate::bits::{bits_of, lemma_bits_algebra, lemma_bits_single};
use crate::card::Card;
use crate::model::{others_count, redealt, undealt, RoundPhase};
use crate::round::{points_held, Round};
use crate::stack::Stack;
use crate::suit::Suit;

verus! {

/// The name of a rank in the file names of the card images.
pub open spec fn rank_name(rank: nat) -> Seq<char> {
    if rank == 0 {
        "7"@
    } else if rank == 1 {
        "8"@
    } else if rank == 2 {
        "9"@
    } else if rank == 3 {
        "jack"@
    } else if rank == 4 {
        "queen"@
    } else if rank == 5 {
        "king"@
    } else if rank == 6 {
        "ace"@
    } else {
        "10"@
    }
}

/// The name of a suit in the file names of the card images.
pub open spec fn suit_name(suit: Suit) -> Seq<char> {
    match suit {
        Suit::Spades => "spades"@,
        Suit::Clubs => "clubs"@,
        Suit::Hearts => "hearts"@,
        Suit::Diamonds => "diamonds"@,
    }
}

/// Where the image of a card is found.
pub open spec fn image_src(card: Card) -> Seq<char> {
    "file://assets/cards/"@ + rank_name(card.rank()) + "_of_"@ + suit_name(card.spec_suit())
        + ".png"@
}

/// Where the image of `card` is found, such as
/// `file://assets/cards/queen_of_hearts.png`.
pub fn card_image_src(card: &Card) -> (r: String)
    ensures
        r@ == image_src(*card),
{
    let mut result = String::from_str("file://assets/cards/");
    let value: u16 = card.value();
    if value == 0 {
        result.append("7");
    } else if value == 1 {
        result.append("8");
    } else if value == 2 {
        result.append("9");
    } else if value == 3 {
        result.append("jack");
    } else if value == 4 {
        result.append("queen");
    } else if value == 5 {
        result.append("king");
    } else if value == 6 {
        result.append("ace");
    } else {
        result.append("10");
    }
    result.append("_of_");
    match card.suit() {
        Suit::Clubs => result.append("clubs"),
        Suit::Hearts => result.append("hearts"),
        Suit::Diamonds => result.append("diamonds"),
        Suit::Spades => result.append("spades"),
    }
    result.append(".png");
    result
}

/// The stack of the cards whose deck indices are among `indices`. A number
/// that is no deck index is passed over.
pub fn stack_of_indices(indices: &Vec<u32>) -> (r: Stack)
    ensures
        forall|i: nat|
            r@.contains(i) <==> i < 32 && exists|k: int|
                0 <= k < indices@.len() && indices@[k] == i,
{
    let mut mask: u32 = 0;
    let mut n: usize = 0;
    proof {
        lemma_bits_algebra(0, 0);
    }
    while n < indices.len()
        invariant
            n <= indices@.len(),
            forall|i: nat|
                bits_of(mask).contains(i) <==> i < 32 && exists|k: int|
                    0 <= k < n && indices@[k] == i,
        decreases indices@.len() - n,
    {
        let index: u32 = indices[n];
        let ghost before = mask;
        if index < 32 {
            proof {
                lemma_bits_single(mask, index);
            }
            mask = mask | (1u32 << index);
        }
        n += 1;
        assert forall|i: nat| bits_of(mask).contains(i) implies i < 32 && exists|k: int|
            0 <= k < n && indices@[k] == i by {
            if index < 32 && i == index {
                assert(indices@[n - 1] == i);
            } else {
                assert(bits_of(before).contains(i));
                let k = choose|k: int| 0 <= k < n - 1 && indices@[k] == i;
                assert(0 <= k < n && indices@[k] == i);
            }
        }
        assert forall|i: nat|
            i < 32 && (exists|k: int| 0 <= k < n && indices@[k] == i) implies bits_of(
            mask,
        ).contains(i) by {
            let k = choose|k: int| 0 <= k < n && indices@[k] == i;
            if k < n - 1 {
                assert(bits_of(before).contains(i));
            }
        }
    }
    Stack::from_data(mask)
}

/// The phase that a number stands for.
pub open spec fn phase_at(index: u8) -> Option<RoundPhase> {
    if index == 0 {
        Some(RoundPhase::PickTrump)
    } else if index == 1 {
        Some(RoundPhase::PlayCards)
    } else {
        None
    }
}

/// The phase that `index` stands for: 0 for the choice of the trump suit, 1
/// for the play of the cards.
pub fn phase_of_index(index: u8) -> (r: Option<RoundPhase>)
    ensures
        r == phase_at(index),
{
    if index == 0 {
        Some(RoundPhase::PickTrump)
    } else if index == 1 {
        Some(RoundPhase::PlayCards)
    } else {
        None
    }
}

/// The trump choice that a number stands for.
pub open spec fn trump_at(index: u8) -> Option<Option<Suit>> {
    if index < 4 {
        Some(Some(Suit::of_ordinal(index as nat)))
    } else if index == 4 {
        Some(None)
    } else {
        None
    }
}

/// The trump choice that `index` stands for: a suit by its ordinal, or 4 for
/// a round without trumps.
pub fn trump_of_index(index: u8) -> (r: Option<Option<Suit>>)
    ensures
        r == trump_at(index),
{
    if index < 4 {
        Some(Some(Suit::from_ordinal(index)))
    } else if index == 4 {
        Some(None)
    } else {
        None
    }
}

/// The actions of `actions` at the places `indices[from..]`, in that order;
/// a place beyond the end of `actions` is passed over.
pub open spec fn chosen_from(actions: Seq<Action>, indices: Seq<usize>, from: int) -> Seq<Action>
    decreases indices.len() - from,
{
    if from < 0 || from >= indices.len() {
        Seq::empty()
    } else if indices[from] < actions.len() {
        seq![actions[indices[from] as int]] + chosen_from(actions, indices, from + 1)
    } else {
        chosen_from(actions, indices, from + 1)
    }
}

/// The actions of `actions` that `indices` select, in the order of
/// `indices`. A place beyond the end of `actions` selects nothing.
pub fn selected_actions(actions: &Vec<Action>, indices: &Vec<usize>) -> (r: Vec<Action>)
    ensures
        r@ == chosen_from(actions@, indices@, 0),
{
    let mut selected: Vec<Action> = Vec::new();
    let mut n: usize = 0;
    while n < indices.len()
        invariant
            n <= indices@.len(),
            selected@ + chosen_from(actions@, indices@, n as int) == chosen_from(
                actions@,
                indices@,
                0,
            ),
        decreases indices@.len() - n,
    {
        let index: usize = indices[n];
        let ghost before = selected@;
        let ghost rest = chosen_from(actions@, indices@, n + 1);
        if index < actions.len() {
            selected.push(actions[index]);
            assert(selected@ + rest =~= before + (seq![actions@[index as int]] + rest));
        }
        n += 1;
    }
    assert(selected@ + Seq::<Action>::empty() =~= selected@);
    selected
}

/// Whether what an observer reports can be a round between tricks, as
/// `Round::observation_ok` says it.
pub fn observation_fits(
    observer_cards: Stack,
    played_cards: Stack,
    player_card_counts: &[usize; 4],
    dealer: usize,
    turn: usize,
    phase: RoundPhase,
    scores: &[i16; 2],
) -> (r: bool)
    ensures
        r == Round::observation_ok(
            observer_cards@,
            played_cards@,
            player_card_counts@,
            dealer,
            turn,
            phase,
            scores@,
        ),
{
    let held: usize = observer_cards.len() as usize;
    let pool = Stack::all().difference(observer_cards).difference(played_cards);
    proof {
        observer_cards.lemma_view();
        played_cards.lemma_view();
        assert(pool@ =~= undealt(observer_cards@, played_cards@));
        assert(observer_cards@.disjoint(played_cards@) <==> observer_cards@.intersect(
            played_cards@,
        ).is_empty()) by {
            if observer_cards@.disjoint(played_cards@) {
                assert(observer_cards@.intersect(played_cards@) =~= Set::<nat>::empty());
            } else {
                let i = choose|i: nat| observer_cards@.contains(i) && played_cards@.contains(i);
                assert(observer_cards@.intersect(played_cards@).contains(i));
            }
        }
        assert(played_cards@.is_empty() <==> played_cards@ == Set::<nat>::empty()) by {
            if played_cards@.is_empty() {
                assert(played_cards@ =~= Set::<nat>::empty());
            }
        }
    }
    let counted = player_card_counts[0] == held && player_card_counts[1] == held
        && player_card_counts[2] == held && player_card_counts[3] == held;
    let first: i16 = scores[0];
    let second: i16 = scores[1];
    dealer < 4 && turn < 4 && observer_cards.intersect(played_cards).is_empty() && counted && 3
        * held == pool.len() as usize && first >= 0 && second >= 0 && first as i32 + second as i32
        == points_held(played_cards) as i32 && (phase != RoundPhase::PickTrump
        || played_cards.is_empty())
}

/// A round between tricks as player 0 sees it, as `Round::from_observer`
/// makes it, where the three other players have room for the cards that are
/// neither played nor in the observer's hand; `None` where they have not.
pub fn observed_round(
    observer_cards: Stack,
    played_cards: Stack,
    player_card_counts: [usize; 4],
    dealer: usize,
    turn: usize,
    phase: RoundPhase,
    trump: Option<Suit>,
    scores: [i16; 2],
) -> (r: Option<Round>)
    ensures
        r is Some <==> others_count(player_card_counts@, 0) >= undealt(
            observer_cards@,
            played_cards@,
        ).len(),
        r matches Some(round) ==> {
            &&& round@.turn == turn
            &&& round@.dealer == dealer
            &&& round@.phase == phase
            &&& round@.trump == trump
            &&& round@.scores == seq![scores[0] as int, scores[1] as int]
            &&& round@.played == played_cards@
            &&& round@.plays == Seq::<Card>::empty()
            &&& redealt(
                round@.hands,
                0,
                observer_cards@,
                undealt(observer_cards@, played_cards@),
                player_card_counts@,
            )
            &&& Round::observation_ok(
                observer_cards@,
                played_cards@,
                player_card_counts@,
                dealer,
                turn,
                phase,
                scores@,
            ) ==> round.wf()
        },
{
    let pool = Stack::all().difference(observer_cards).difference(played_cards);
    proof {
        observer_cards.lemma_view();
        played_cards.lemma_view();
        assert(pool@ =~= undealt(observer_cards@, played_cards@));
    }
    let needed: usize = pool.len() as usize;
    let first: usize = player_card_counts[1];
    let second: usize = player_card_counts[2];
    let third: usize = player_card_counts[3];
    let enough = first >= needed || second >= needed - first || third >= needed - first - second;
    if enough {
        Some(
            Round::from_observer(
                observer_cards,
                played_cards,
                player_card_counts,
                dealer,
                turn,
                phase,
                trump,
                scores,
            ),
        )
    } else {
        None
    }
}

} // verus!
