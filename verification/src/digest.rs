//! Digests as byte vectors: exact comparison, copying, and the injective
//! packing of a narrow digest into a 64-bit key for use in hash tables.

use vstd::prelude::*;

verus! {

/// Base-256 value of a byte sequence, most significant byte first.
pub open spec fn key_spec(s: Seq<u8>) -> nat
    decreases s.len(),
{
    if s.len() == 0 {
        0
    } else {
        key_spec(s.drop_last()) * 256 + (s.last() as nat)
    }
}

/// 256 raised to `n`; bounds the key of an `n`-byte digest.
pub open spec fn pow256(n: nat) -> nat
    decreases n,
{
    if n == 0 {
        1
    } else {
        256 * pow256((n - 1) as nat)
    }
}

pub proof fn lemma_pow256_mono(a: nat, b: nat)
    requires
        a <= b,
    ensures
        pow256(a) <= pow256(b),
        pow256(a) >= 1,
    decreases b,
{
    if b == 0 {
    } else if a == b {
        lemma_pow256_mono((a - 1) as nat, (b - 1) as nat);
    } else {
        lemma_pow256_mono(a, (b - 1) as nat);
    }
}

pub proof fn lemma_key_bound(s: Seq<u8>)
    ensures
        key_spec(s) < pow256(s.len()),
    decreases s.len(),
{
    if s.len() == 0 {
    } else {
        lemma_key_bound(s.drop_last());
    }
}

/// Law: the 64-bit key is injective on digests of one width, so keying a
/// table by it never conflates two distinct endpoints.
pub proof fn lemma_key_injective(a: Seq<u8>, b: Seq<u8>)
    requires
        a.len() == b.len(),
        key_spec(a) == key_spec(b),
    ensures
        a == b,
    decreases a.len(),
{
    if a.len() == 0 {
        assert(a =~= b);
    } else {
        let ka = key_spec(a.drop_last());
        let kb = key_spec(b.drop_last());
        assert(ka * 256 + (a.last() as nat) == kb * 256 + (b.last() as nat));
        assert(ka == kb && a.last() == b.last()) by (nonlinear_arith)
            requires
                ka * 256 + (a.last() as nat) == kb * 256 + (b.last() as nat),
                a.last() < 256,
                b.last() < 256,
        ;
        lemma_key_injective(a.drop_last(), b.drop_last());
        assert forall|i: int| 0 <= i < a.len() implies a[i] == b[i] by {
            if i < a.len() - 1 {
                assert(a[i] == a.drop_last()[i]);
                assert(b[i] == b.drop_last()[i]);
            }
        }
        assert(a =~= b);
    }
}

/// The key of a digest of at most 8 bytes fits a 64-bit word, so casting it
/// to `u64` and back loses nothing.
pub proof fn lemma_key_fits(p: Seq<u8>)
    requires
        p.len() <= 8,
    ensures
        key_spec(p) < 0x10000000000000000,
        (key_spec(p) as u64) as nat == key_spec(p),
{
    lemma_key_bound(p);
    lemma_pow256_mono(p.len() as nat, 8);
    assert(pow256(8) == 0x10000000000000000) by {
        reveal_with_fuel(pow256, 9);
    }
}

/// Pack a digest of at most 8 bytes into a 64-bit key, big-endian.
pub fn digest_key(d: &Vec<u8>) -> (r: u64)
    requires
        d@.len() <= 8,
    ensures
        r as nat == key_spec(d@),
{
    let mut k: u64 = 0;
    let mut i: usize = 0;
    while i < d.len()
        invariant
            i <= d@.len() <= 8,
            k as nat == key_spec(d@.take(i as int)),
        decreases d@.len() - i,
    {
        proof {
            lemma_key_bound(d@.take(i as int));
            lemma_pow256_mono(i as nat, 7);
            assert(pow256(7) == 0x100000000000000) by {
                reveal_with_fuel(pow256, 8);
            }
            assert(d@.take(i + 1).drop_last() =~= d@.take(i as int));
            assert(d@.take(i + 1).last() == d@[i as int]);
        }
        k = k * 256 + (d[i] as u64);
        i += 1;
    }
    proof {
        assert(d@.take(d@.len() as int) =~= d@);
    }
    k
}

/// Exact byte-wise comparison of two digests.
pub fn bytes_eq(a: &Vec<u8>, b: &Vec<u8>) -> (r: bool)
    ensures
        r == (a@ == b@),
{
    if a.len() != b.len() {
        return false;
    }
    let mut i: usize = 0;
    while i < a.len()
        invariant
            i <= a@.len(),
            a@.len() == b@.len(),
            forall|j: int| 0 <= j < i ==> a@[j] == b@[j],
        decreases a@.len() - i,
    {
        if a[i] != b[i] {
            return false;
        }
        i += 1;
    }
    proof {
        assert(a@ =~= b@);
    }
    true
}

/// Copy of a digest, equal byte for byte.
pub fn clone_bytes(v: &Vec<u8>) -> (r: Vec<u8>)
    ensures
        r@ == v@,
{
    let mut r: Vec<u8> = Vec::new();
    let mut i: usize = 0;
    while i < v.len()
        invariant
            i <= v@.len(),
            r@ == v@.take(i as int),
        decreases v@.len() - i,
    {
        r.push(v[i]);
        proof {
            assert(v@.take(i + 1) =~= v@.take(i as int).push(v@[i as int]));
        }
        i += 1;
    }
    proof {
        assert(v@.take(v@.len() as int) =~= v@);
    }
    r
}

} // verus!
