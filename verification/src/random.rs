use vstd::prelude::*;
use rand::seq::IndexedRandom;

verus! {

/// `romu::mod_u32` draws from the thread's generator a value in `0..n`. It
/// scales a 32-bit draw by `n` and keeps the high word, so for `n == 0` it
/// returns 0.
#[verifier::external_body]
pub(crate) fn mod_u32(n: u32) -> (r: u32)
    ensures
        n > 0 ==> r < n,
        n == 0 ==> r == 0,
{
    romu::mod_u32(n)
}

/// `romu::mod_usize` draws from the thread's generator a value in `0..n`, and
/// 0 for `n == 0`.
#[verifier::external_body]
pub(crate) fn mod_usize(n: usize) -> (r: usize)
    ensures
        n > 0 ==> r < n,
        n == 0 ==> r == 0,
{
    romu::mod_usize(n)
}

/// `romu::range_usize` draws from the thread's generator a value of the
/// range it is given, here `low..high`. It panics on an empty range, which
/// is left out.
#[verifier::external_body]
pub(crate) fn range_usize(low: usize, high: usize) -> (r: usize)
    requires
        low < high,
    ensures
        low <= r < high,
{
    romu::range_usize(low..high)
}

/// The weights of the players of `players` together, where `weights[p]` is
/// the weight of player `p`.
pub open spec fn weight_sum(players: Seq<usize>, weights: Seq<u32>) -> int
    decreases players.len(),
{
    if players.len() == 0 {
        0
    } else {
        weight_sum(players.drop_last(), weights) + weights[players.last() as int]
    }
}

/// `choose_weighted` of rand's `IndexedRandom` picks one element of a slice,
/// each with a likelihood in proportion to its weight, here `weights[p]` for
/// player `p`: so never one whose weight is zero. It fails when the slice is
/// empty, when the weights add up to zero, and when they do not add up
/// within `u32`, and then only.
#[verifier::external_body]
pub(crate) fn pick_weighted(players: &Vec<usize>, weights: &[u32; 4]) -> (r: Option<usize>)
    requires
        forall|k: int| 0 <= k < players@.len() ==> players@[k] < 4,
    ensures
        r matches Some(player) ==> players@.contains(player) && weights@[player as int] > 0,
        r is None <==> players@.len() == 0 || weight_sum(players@, weights@) == 0 || weight_sum(
            players@,
            weights@,
        ) > u32::MAX,
{
    let mut rng = rand::rng();
    players.choose_weighted(&mut rng, |&player| weights[player]).ok().copied()
}

/// `choose` of rand's `IndexedRandom` picks one element of a slice, each
/// with the same likelihood, and `None` only when the slice is empty.
#[verifier::external_body]
pub(crate) fn pick_uniform(players: &Vec<usize>) -> (r: Option<usize>)
    ensures
        r is None <==> players@.len() == 0,
        r matches Some(player) ==> players@.contains(player),
{
    let mut rng = rand::rng();
    players.choose(&mut rng).copied()
}

} // verus!
