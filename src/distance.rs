use vstd::prelude::*;

verus! {

/// Number of significant bits of `d`: zero for zero, else the position of the
/// highest set bit plus one.
pub open spec fn bit_len(d: nat) -> nat
    decreases d,
{
    if d == 0 {
        0
    } else {
        1 + bit_len(d / 2)
    }
}

/// Largest value with `k` bits.
pub open spec fn all_ones(k: nat) -> nat
    decreases k,
{
    if k == 0 {
        0
    } else {
        2 * all_ones((k - 1) as nat) + 1
    }
}

/// A value no larger than `all_ones(k)` has at most `k` significant bits.
pub proof fn lemma_bit_len_bound(x: nat, k: nat)
    requires
        x <= all_ones(k),
    ensures
        bit_len(x) <= k,
    decreases k,
{
    if x > 0 {
        lemma_bit_len_bound(x / 2, (k - 1) as nat);
    }
}

/// A 64-bit value has at most 64 significant bits.
pub proof fn lemma_bit_len_u64(x: u64)
    ensures
        bit_len(x as nat) <= 64,
{
    reveal_with_fuel(all_ones, 65);
    assert(all_ones(64) == 0xffff_ffff_ffff_ffffnat);
    lemma_bit_len_bound(x as nat, 64);
}

/// XOR distance between two identifiers; comparing distances as integers is
/// the lexicographic order of their bits, most significant first.
pub open spec fn dist(a: u64, b: u64) -> u64 {
    a ^ b
}

/// Index of the bucket that `peer` falls into, seen from `local`.
pub open spec fn bucket_of(local: u64, peer: u64) -> nat {
    bit_len(dist(local, peer) as nat)
}

/// Distances to one target are distinct for distinct identifiers.
pub proof fn lemma_dist_injective(a: u64, b: u64, t: u64)
    ensures
        dist(a, t) == dist(b, t) <==> a == b,
{
    assert((a ^ t) == (b ^ t) <==> a == b) by (bit_vector);
}

pub fn xor_distance(a: u64, b: u64) -> (r: u64)
    ensures
        r == dist(a, b),
{
    a ^ b
}

/// Bucket index of `peer` in a table owned by `local`.
pub fn bucket_index(local: u64, peer: u64) -> (r: u32)
    ensures
        r as nat == bucket_of(local, peer),
        r <= 64,
{
    let d = xor_distance(local, peer);
    let mut x: u64 = d;
    let mut n: u32 = 0;
    proof {
        lemma_bit_len_u64(d);
    }
    while x > 0
        invariant
            bit_len(d as nat) == n + bit_len(x as nat),
            n as nat + bit_len(x as nat) <= 64,
        decreases x,
    {
        x = x / 2;
        n = n + 1;
    }
    n
}

} // verus!
