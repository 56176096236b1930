//! Maps and sets of entry ids, and an integer hash for ids.
//!
//! `IdHasher` is Fibonacci hashing: the id times 2^64/φ, whose high bits spread what is
//! regular in the low bits of the id. It serves callers that build a table of their own.
//! `IdMap` and `IdSet` do not use it: they hash as the standard library does by default, and
//! what they hold is the same either way.
use vstd::prelude::*;

verus! {

/// 2^64 / φ, made odd.
pub const K: u64 = 0x9E37_79B9_7F4A_7C15;

#[derive(Default, Clone, Copy)]
pub struct IdHasher {
    pub state: u64,
}

/// The product modulo 2^64.
pub open spec fn wrap_product(a: u64, b: u64) -> u64 {
    ((a * b) % 0x1_0000_0000_0000_0000) as u64
}

/// The state after hashing bytes: each is mixed in and the state multiplied.
pub open spec fn mixed(state: u64, bytes: Seq<u8>) -> u64
    decreases bytes.len(),
{
    if bytes.len() == 0 {
        state
    } else {
        wrap_product(mixed(state, bytes.drop_last()) ^ (bytes.last() as u64), K)
    }
}

impl IdHasher {
    pub fn new() -> (r: Self)
        ensures
            r.state == 0,
    {
        IdHasher { state: 0 }
    }

    pub fn finish(&self) -> (r: u64)
        ensures
            r == self.state,
    {
        self.state
    }

    /// The fallback for keys that are no integers.
    pub fn write(&mut self, bytes: &[u8])
        ensures
            final(self).state == mixed(old(self).state, bytes@),
    {
        let ghost start = self.state;
        let mut i: usize = 0;
        assert(bytes@.take(0) =~= Seq::<u8>::empty());
        while i < bytes.len()
            invariant
                i <= bytes.len(),
                self.state == mixed(start, bytes@.take(i as int)),
            decreases bytes.len() - i,
        {
            self.state = (self.state ^ (bytes[i] as u64)).wrapping_mul(K);
            assert(bytes@.take(i as int + 1).drop_last() =~= bytes@.take(i as int));
            i = i + 1;
        }
        assert(bytes@.take(i as int) =~= bytes@);
    }

    pub fn write_u32(&mut self, n: u32)
        ensures
            final(self).state == wrap_product(n as u64, K),
    {
        self.state = (n as u64).wrapping_mul(K);
    }

    pub fn write_u64(&mut self, n: u64)
        ensures
            final(self).state == wrap_product(n, K),
    {
        self.state = n.wrapping_mul(K);
    }

    pub fn write_usize(&mut self, n: usize)
        ensures
            final(self).state == wrap_product(n as u64, K),
    {
        self.write_u64(n as u64);
    }
}

/// The inverse of `K` modulo 2^64.
pub const K_INVERSE: u64 = 0xF1DE_83E1_9937_733D;

/// Distinct ids never share a hash.
pub proof fn law_ids_do_not_collide(a: u64, b: u64)
    requires
        wrap_product(a, K) == wrap_product(b, K),
    ensures
        a == b,
{
    lemma_undo(a);
    lemma_undo(b);
}

proof fn lemma_undo(a: u64)
    ensures
        wrap_product(wrap_product(a, K), K_INVERSE) == a,
{
    let m: int = 0x1_0000_0000_0000_0000;
    let k: int = K as int;
    let inv: int = K_INVERSE as int;
    vstd::arithmetic::div_mod::lemma_mul_mod_noop_left(a * k, inv, m);
    assert((a * k) * inv == a * (k * inv)) by (nonlinear_arith);
    assert(k * inv % m == 1);
    vstd::arithmetic::div_mod::lemma_mul_mod_noop_right(a as int, k * inv, m);
    assert(((a * k) % m) * inv % m == a * (k * inv) % m);
    assert(a * 1 % m == a);
}

/// A map from entry ids, with the default hasher.
pub type IdMap<V> = std::collections::HashMap<u32, V>;

/// A set of entry ids, with the default hasher.
pub type IdSet = std::collections::HashSet<u32>;

} // verus!
