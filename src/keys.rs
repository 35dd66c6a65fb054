use vstd::prelude::*;

verus! {

/// The bytes of libp2p's Kademlia key for a preimage (a peer id's bytes or a
/// record key): its SHA-256 digest.
pub uninterp spec fn kad_digest(preimage: Seq<u8>) -> Seq<u8>;

/// Relies on libp2p::kad::KBucketKey::new and hashed_bytes: the key's bytes are
/// the SHA-256 digest of the preimage, 32 bytes, a function of the bytes alone.
#[verifier::external_body]
fn kad_key_bytes(preimage: &Vec<u8>) -> (r: Vec<u8>)
    ensures
        r@ == kad_digest(preimage@),
        r@.len() == 32,
{
    libp2p::kad::KBucketKey::new(preimage.clone()).hashed_bytes().to_vec()
}

/// 256 to the power `n`.
pub open spec fn pow256(n: nat) -> nat
    decreases n,
{
    if n == 0 {
        1
    } else {
        256 * pow256((n - 1) as nat)
    }
}

/// The first `n` bytes of `s` read as a big-endian number.
pub open spec fn be_prefix(s: Seq<u8>, n: nat) -> nat
    decreases n,
{
    if n == 0 {
        0
    } else {
        be_prefix(s, (n - 1) as nat) * 256 + s[n - 1] as nat
    }
}

proof fn lemma_be_prefix_bound(s: Seq<u8>, n: nat)
    ensures
        be_prefix(s, n) < pow256(n),
    decreases n,
{
    if n > 0 {
        lemma_be_prefix_bound(s, (n - 1) as nat);
        let a = be_prefix(s, (n - 1) as nat);
        let p = pow256((n - 1) as nat);
        let b = s[n - 1] as nat;
        assert(a * 256 + b < 256 * p) by (nonlinear_arith)
            requires
                a < p,
                b < 256,
        ;
    }
}

/// The 64-bit identifier held in a key digest: its first eight bytes, big-endian.
pub fn id_from_digest(d: &Vec<u8>) -> (r: u64)
    requires
        d@.len() >= 8,
    ensures
        r as nat == be_prefix(d@, 8),
{
    let mut acc: u64 = 0;
    let mut i: usize = 0;
    proof {
        reveal_with_fuel(pow256, 9);
        assert(pow256(7) == 0x100_0000_0000_0000nat);
    }
    while i < 8
        invariant
            i <= 8,
            d@.len() >= 8,
            acc as nat == be_prefix(d@, i as nat),
        decreases 8 - i,
    {
        proof {
            lemma_be_prefix_bound(d@, i as nat);
            if i < 7 {
                lemma_pow256_monotonic(i as nat, 7);
            }
            reveal_with_fuel(pow256, 9);
            assert(acc * 256 + 255 <= 0xffff_ffff_ffff_ffffnat) by (nonlinear_arith)
                requires
                    acc < 0x100_0000_0000_0000nat,
            ;
        }
        acc = acc * 256 + d[i] as u64;
        i = i + 1;
    }
    acc
}

proof fn lemma_pow256_monotonic(a: nat, b: nat)
    requires
        a <= b,
    ensures
        pow256(a) <= pow256(b),
    decreases b,
{
    if a < b {
        lemma_pow256_monotonic(a, (b - 1) as nat);
    }
}

/// The identifier of a peer in this library, from the bytes of its libp2p
/// peer id: the leading 64 bits of its Kademlia key, so that XOR distances
/// between identifiers order peers as Kademlia's keys do, most significant
/// bits first.
pub fn peer_key(peer_id_bytes: &Vec<u8>) -> (r: u64)
    ensures
        r as nat == be_prefix(kad_digest(peer_id_bytes@), 8),
{
    let d = kad_key_bytes(peer_id_bytes);
    id_from_digest(&d)
}

} // verus!
