use vstd::prelude::*;
use vstd::std_specs::bits::{
    axiom_u32_leading_zeros, axiom_u32_trailing_zeros, u32_leading_zeros, u32_trailing_zeros,
};
use crate::random::mod_u32;

verus! {

/// Whether bit `i` of `x` is set. No bit at or above position 32 is.
pub open spec fn bit(x: u32, i: nat) -> bool {
    i < 32 && (x >> (i as u32)) & 1u32 == 1u32
}

/// The positions of the set bits of `x`.
pub open spec fn bits_of(x: u32) -> Set<nat> {
    Set::new(|i: nat| bit(x, i))
}

/// `u32::count_ones` returns the number of ones in the binary representation
/// of its argument, that is the number of positions at which a bit is set.
pub assume_specification[ u32::count_ones ](i: u32) -> (r: u32)
    ensures
        r == bits_of(i).len(),
;

proof fn lemma_bitwise(a: u32, b: u32, i: u32)
    by (bit_vector)
    requires
        i < 32,
    ensures
        (a >> i) & 1 == 0 || (a >> i) & 1 == 1,
        ((a | b) >> i) & 1 == 1 <==> ((a >> i) & 1 == 1 || (b >> i) & 1 == 1),
        ((a & b) >> i) & 1 == 1 <==> ((a >> i) & 1 == 1 && (b >> i) & 1 == 1),
        ((a ^ b) >> i) & 1 == 1 <==> ((a >> i) & 1 == 1) != ((b >> i) & 1 == 1),
        ((!a) >> i) & 1 == 1 <==> (a >> i) & 1 != 1,
        b < 32 ==> (((1u32 << b) >> i) & 1 == 1 <==> i == b),
        a == 0 ==> (a >> i) & 1 == 0,
        a == 0xffff_ffffu32 ==> (a >> i) & 1 == 1,
{
}

proof fn lemma_lowest_cleared(d: u32, t: u32)
    by (bit_vector)
    requires
        t < 32,
        (d >> t) & 1 == 1,
        d << ((32 - t) as u32) == 0,
    ensures
        d != 0,
        d & ((d - 1) as u32) == d & !(1u32 << t),
{
}

/// The bits of a union, an intersection, a symmetric difference, a
/// complement, a single-bit mask, the empty mask and the full mask.
pub proof fn lemma_bits_algebra(a: u32, b: u32)
    ensures
        bits_of(a | b) == bits_of(a).union(bits_of(b)),
        bits_of(a & b) == bits_of(a).intersect(bits_of(b)),
        bits_of(a ^ b) == bits_of(a).difference(bits_of(b)).union(
            bits_of(b).difference(bits_of(a)),
        ),
        bits_of(a & !b) == bits_of(a).difference(bits_of(b)),
        bits_of(!a) == bits_of(0xffff_ffffu32).difference(bits_of(a)),
        bits_of(0u32) == Set::<nat>::empty(),
        bits_of(0xffff_ffffu32) == Set::new(|i: nat| i < 32),
{
    assert forall|i: nat| i < 32 implies {
        &&& bit(a | b, i) == (bit(a, i) || bit(b, i))
        &&& bit(a & b, i) == (bit(a, i) && bit(b, i))
        &&& bit(a ^ b, i) == (bit(a, i) != bit(b, i))
        &&& bit(a & !b, i) == (bit(a, i) && !bit(b, i))
        &&& bit(!a, i) == !bit(a, i)
        &&& !bit(0u32, i)
        &&& bit(0xffff_ffffu32, i)
    } by {
        lemma_bitwise(a, b, i as u32);
        lemma_bitwise(a, !b, i as u32);
        lemma_bitwise(b, a, i as u32);
        lemma_bitwise(0u32, a, i as u32);
        lemma_bitwise(0xffff_ffffu32, a, i as u32);
    }
    assert(bits_of(a | b) =~= bits_of(a).union(bits_of(b)));
    assert(bits_of(a & b) =~= bits_of(a).intersect(bits_of(b)));
    assert(bits_of(a ^ b) =~= bits_of(a).difference(bits_of(b)).union(
        bits_of(b).difference(bits_of(a)),
    ));
    assert(bits_of(a & !b) =~= bits_of(a).difference(bits_of(b)));
    assert(bits_of(!a) =~= bits_of(0xffff_ffffu32).difference(bits_of(a)));
    assert(bits_of(0u32) =~= Set::<nat>::empty());
    assert(bits_of(0xffff_ffffu32) =~= Set::new(|i: nat| i < 32));
}

/// The mask `1 << i` has bit `i` set and no other; taking it out of a mask
/// removes position `i`, adding it inserts position `i`.
pub proof fn lemma_bits_single(a: u32, i: u32)
    requires
        i < 32,
    ensures
        bits_of(1u32 << i) == set![i as nat],
        bits_of(a | (1u32 << i)) == bits_of(a).insert(i as nat),
        bits_of(a & !(1u32 << i)) == bits_of(a).remove(i as nat),
{
    assert forall|j: nat| j < 32 implies #[trigger] bit(1u32 << i, j) == (j == i) by {
        lemma_bitwise(a, i, j as u32);
    }
    assert(bits_of(1u32 << i) =~= set![i as nat]);
    lemma_bits_algebra(a, 1u32 << i);
    assert(bits_of(a | (1u32 << i)) =~= bits_of(a).insert(i as nat));
    assert(bits_of(a & !(1u32 << i)) =~= bits_of(a).remove(i as nat));
}

/// The set-bit positions of any mask form a finite set of at most 32 numbers
/// below 32.
pub proof fn lemma_bits_finite(a: u32)
    ensures
        bits_of(a).finite(),
        bits_of(a).len() <= 32,
        forall|i: nat| bits_of(a).contains(i) ==> i < 32,
{
    let all = Set::new(|i: nat| i < 32);
    lemma_below_finite(32);
    assert(bits_of(a).subset_of(all));
    vstd::set_lib::lemma_len_subset(bits_of(a), all);
}

/// The numbers below `n` form a finite set of `n` elements.
pub proof fn lemma_below_finite(n: nat)
    ensures
        Set::new(|i: nat| i < n).finite(),
        Set::new(|i: nat| i < n).len() == n,
    decreases n,
{
    let s = Set::new(|i: nat| i < n);
    if n == 0 {
        assert(s =~= Set::<nat>::empty());
    } else {
        let m = (n - 1) as nat;
        lemma_below_finite(m);
        assert(s =~= Set::new(|i: nat| i < m).insert(m));
    }
}

/// A mask is determined by its set bits; it is zero exactly when none is set.
pub proof fn lemma_bits_injective(a: u32, b: u32)
    ensures
        bits_of(a) == bits_of(b) <==> a == b,
        a == 0 <==> bits_of(a) == Set::<nat>::empty(),
        a == 0 <==> bits_of(a).len() == 0,
{
    lemma_bits_algebra(a, b);
    lemma_bits_finite(a);
    if a != b {
        let x = a ^ b;
        assert(x != 0) by (bit_vector)
            requires
                x == a ^ b,
                a != b,
        ;
        axiom_u32_trailing_zeros(x);
        let t = u32_trailing_zeros(x) as nat;
        assert(bit(x, t));
        assert(bits_of(x).contains(t));
        assert(bits_of(a).contains(t) != bits_of(b).contains(t));
    }
    if a != 0 {
        axiom_u32_trailing_zeros(a);
        let t = u32_trailing_zeros(a) as nat;
        assert(bit(a, t));
        assert(bits_of(a).contains(t));
    }
}

/// Position of the lowest set bit; 32 for the empty mask.
pub fn lsb(data: u32) -> (r: u32)
    ensures
        data == 0 <==> r == 32,
        data != 0 ==> bit(data, r as nat),
        forall|j: nat| j < r ==> !bit(data, j),
        r == u32_trailing_zeros(data),
{
    proof {
        axiom_u32_trailing_zeros(data);
        assert forall|j: nat| j < u32_trailing_zeros(data) implies !bit(data, j) by {
            let k = j as u32;
            assert((data >> k) & 1u32 == 0u32);
        }
    }
    data.trailing_zeros()
}

/// Position of the highest set bit of a mask that is not empty.
pub fn msb(data: u32) -> (r: u32)
    requires
        data != 0,
    ensures
        bit(data, r as nat),
        forall|j: nat| r < j ==> !bit(data, j),
        r == 31 - u32_leading_zeros(data),
{
    proof {
        axiom_u32_leading_zeros(data);
        let z = u32_leading_zeros(data);
        lemma_bitwise(data, data, (31 - z) as u32);
        assert forall|j: nat| 31 - z < j implies !bit(data, j) by {
            if j < 32 {
                let k = j as u32;
                assert((data >> k) & 1u32 == 0u32);
            }
        }
    }
    31 - data.leading_zeros()
}

/// Clears the lowest set bit of a mask that is not empty and returns its
/// position.
pub fn pop_lsb(data: &mut u32) -> (r: u32)
    requires
        *old(data) != 0,
    ensures
        r == u32_trailing_zeros(*old(data)),
        bit(*old(data), r as nat),
        forall|j: nat| j < r ==> !bit(*old(data), j),
        bits_of(*final(data)) == bits_of(*old(data)).remove(r as nat),
        *final(data) == *old(data) & !(1u32 << r),
{
    let d: u32 = *data;
    let r = lsb(d);
    proof {
        axiom_u32_trailing_zeros(d);
        lemma_lowest_cleared(d, r);
        lemma_bits_single(d, r);
    }
    *data = d & (d - 1);
    r
}

/// Whether `positions` lists the set bits of `data` from the lowest up.
pub open spec fn lists_bits(data: u32, positions: Seq<u32>) -> bool {
    &&& positions.len() == bits_of(data).len()
    &&& forall|k: int| 0 <= k < positions.len() ==> bit(data, #[trigger] positions[k] as nat)
    &&& forall|k: int, l: int| 0 <= k < l < positions.len() ==> positions[k] < positions[l]
    &&& forall|i: nat|
        bit(data, i) ==> exists|k: int| 0 <= k < positions.len() && positions[k] == i
}

/// The positions of the set bits of `data`, from the lowest up.
pub fn set_bits(data: u32) -> (r: Vec<u32>)
    ensures
        lists_bits(data, r@),
{
    let mut positions: Vec<u32> = Vec::new();
    let mut rest: u32 = data;
    proof {
        lemma_bits_finite(data);
    }
    while rest != 0
        invariant
            bits_of(rest).finite(),
            bits_of(rest).subset_of(bits_of(data)),
            bits_of(data).finite(),
            positions@.len() + bits_of(rest).len() == bits_of(data).len(),
            forall|k: int| 0 <= k < positions@.len() ==> bit(data, #[trigger] positions@[k] as nat),
            forall|k: int, l: int| 0 <= k < l < positions@.len() ==> positions@[k] < positions@[l],
            forall|k: int, i: nat|
                0 <= k < positions@.len() && bit(rest, i) ==> positions@[k] < i,
            forall|i: nat|
                bit(data, i) ==> bit(rest, i) || exists|k: int|
                    0 <= k < positions@.len() && positions@[k] == i,
        decreases bits_of(rest).len(),
    {
        let ghost before = rest;
        let ghost listed = positions@;
        let index = pop_lsb(&mut rest);
        proof {
            lemma_bits_finite(rest);
            assert(bits_of(before).contains(index as nat));
            assert(bits_of(data).contains(index as nat));
        }
        positions.push(index);
        assert forall|k: int, i: nat| 0 <= k < positions@.len() && bit(rest, i) implies positions@[k]
            < i by {
            assert(bits_of(rest).contains(i));
            assert(bit(before, i));
            if k < listed.len() {
                assert(positions@[k] == listed[k]);
            }
        }
        assert forall|i: nat| bit(data, i) implies bit(rest, i) || exists|k: int|
            0 <= k < positions@.len() && positions@[k] == i by {
            if i == index {
                assert(positions@[listed.len() as int] == i);
            } else if bit(before, i) {
                assert(bits_of(before).contains(i));
                assert(bits_of(rest).contains(i));
            } else {
                let k = choose|k: int| 0 <= k < listed.len() && listed[k] == i;
                assert(positions@[k] == listed[k]);
            }
        }
    }
    proof {
        lemma_bits_injective(rest, 0);
        assert forall|i: nat| !bit(rest, i) by {
            assert(!bits_of(rest).contains(i));
        }
    }
    positions
}

/// Position of a set bit of `data` picked at random; 32 for the empty mask.
pub fn select_random_set_bit(data: u32) -> (r: u32)
    ensures
        data == 0 <==> r == 32,
        data != 0 ==> bit(data, r as nat),
{
    let n: u32 = data.count_ones();
    let skip: u32 = mod_u32(n);
    let mut d: u32 = data;
    let mut i: u32 = 0;
    proof {
        lemma_bits_injective(data, 0);
        lemma_bits_finite(data);
    }
    while i < skip
        invariant
            i <= skip,
            n == 0 ==> skip == 0,
            n > 0 ==> skip < n,
            bits_of(d).subset_of(bits_of(data)),
            bits_of(d).finite(),
            bits_of(d).len() == n - i,
            n == bits_of(data).len(),
        decreases skip - i,
    {
        proof {
            lemma_bits_injective(d, 0);
        }
        pop_lsb(&mut d);
        proof {
            lemma_bits_finite(d);
        }
        i = i + 1;
    }
    proof {
        lemma_bits_injective(d, 0);
    }
    let r = lsb(d);
    proof {
        if data != 0 {
            assert(bits_of(d).contains(r as nat));
        }
    }
    r
}

/// Clears a set bit picked at random from a mask that is not empty and
/// returns its position.
pub fn pop_random_set_bit(data: &mut u32) -> (r: u32)
    requires
        *old(data) != 0,
    ensures
        bit(*old(data), r as nat),
        bits_of(*final(data)) == bits_of(*old(data)).remove(r as nat),
        *final(data) == *old(data) & !(1u32 << r),
{
    let d: u32 = *data;
    let r = select_random_set_bit(d);
    proof {
        lemma_bits_single(d, r);
    }
    *data = d & !(1u32 << r);
    r
}

} // verus!
