//! The keyed hash that derives the graph's edges: SipHash-2-4 with a
//! 256-bit key that initialises the four state words directly.
use vstd::prelude::*;
use vstd::wrapping::u64_specs::wrapping_add;

verus! {

/// The four state words of the hash.
pub type SipState = (u64, u64, u64, u64);

/// Rotates `x` left by `r` bits, for `0 < r < 64`.
pub open spec fn rotl(x: u64, r: u64) -> u64 {
    (x << r) | (x >> (64 - r))
}

/// One ARX mixing round.
pub open spec fn sip_round_spec(s: SipState) -> SipState {
    let (v0, v1, v2, v3) = s;
    let v0 = wrapping_add(v0, v1);
    let v2 = wrapping_add(v2, v3);
    let v1 = rotl(v1, 13);
    let v3 = rotl(v3, 16);
    let v1 = v1 ^ v0;
    let v3 = v3 ^ v2;
    let v0 = rotl(v0, 32);
    let v2 = wrapping_add(v2, v1);
    let v0 = wrapping_add(v0, v3);
    let v1 = rotl(v1, 17);
    let v3 = rotl(v3, 21);
    let v1 = v1 ^ v2;
    let v3 = v3 ^ v0;
    let v2 = rotl(v2, 32);
    (v0, v1, v2, v3)
}

/// The state after absorbing `word` into the state built from `key`:
/// `word` into `v3`, two rounds, `word` into `v0`.
pub open spec fn compress(key: [u64; 4], word: u64) -> SipState {
    let s = sip_round_spec(sip_round_spec((key[0], key[1], key[2], key[3] ^ word)));
    (s.0 ^ word, s.1, s.2, s.3)
}

/// `0xff` into `v2`, then four rounds.
pub open spec fn finalize(s: SipState) -> SipState {
    sip_round_spec(sip_round_spec(sip_round_spec(sip_round_spec((s.0, s.1, s.2 ^ 0xff, s.3)))))
}

/// The hash of one 64-bit word under `key`.
pub open spec fn siphash24(key: [u64; 4], word: u64) -> u64 {
    let s = finalize(compress(key, word));
    s.0 ^ s.1 ^ s.2 ^ s.3
}

fn rotate(x: u64, r: u64) -> (y: u64)
    requires
        0 < r < 64,
    ensures
        y == rotl(x, r),
{
    (x << r) | (x >> (64 - r))
}

/// A keyed hasher: a pure function from a 64-bit word to a 64-bit value.
pub struct SipHash {
    key: [u64; 4],
}

impl View for SipHash {
    type V = [u64; 4];

    /// The key.
    closed spec fn view(&self) -> [u64; 4] {
        self.key
    }
}

impl SipHash {
    /// A hasher for `key`.
    pub fn new(key: [u64; 4]) -> (h: Self)
        ensures
            h@ == key,
    {
        SipHash { key }
    }

    /// The hash of `data` under this hasher's key.
    pub fn hash(&self, data: u64) -> (r: u64)
        ensures
            r == siphash24(self@, data),
    {
        let mut v0 = self.key[0];
        let mut v1 = self.key[1];
        let mut v2 = self.key[2];
        let mut v3 = self.key[3];

        v3 = v3 ^ data;
        Self::sip_round(&mut v0, &mut v1, &mut v2, &mut v3);
        Self::sip_round(&mut v0, &mut v1, &mut v2, &mut v3);
        v0 = v0 ^ data;
        proof {
            let c = compress(self.key, data);
            assert((v0, v1, v2, v3) == c);
        }

        v2 = v2 ^ 0xff;
        Self::sip_round(&mut v0, &mut v1, &mut v2, &mut v3);
        Self::sip_round(&mut v0, &mut v1, &mut v2, &mut v3);
        Self::sip_round(&mut v0, &mut v1, &mut v2, &mut v3);
        Self::sip_round(&mut v0, &mut v1, &mut v2, &mut v3);

        v0 ^ v1 ^ v2 ^ v3
    }

    fn sip_round(v0: &mut u64, v1: &mut u64, v2: &mut u64, v3: &mut u64)
        ensures
            (*final(v0), *final(v1), *final(v2), *final(v3)) == sip_round_spec(
                (*old(v0), *old(v1), *old(v2), *old(v3)),
            ),
    {
        *v0 = v0.wrapping_add(*v1);
        *v2 = v2.wrapping_add(*v3);
        *v1 = rotate(*v1, 13);
        *v3 = rotate(*v3, 16);
        *v1 = *v1 ^ *v0;
        *v3 = *v3 ^ *v2;
        *v0 = rotate(*v0, 32);
        *v2 = v2.wrapping_add(*v1);
        *v0 = v0.wrapping_add(*v3);
        *v1 = rotate(*v1, 17);
        *v3 = rotate(*v3, 21);
        *v1 = *v1 ^ *v2;
        *v3 = *v3 ^ *v0;
        *v2 = rotate(*v2, 32);
    }
}

/// The hash is a function of the key and the word alone: what two
/// hashers with one key return for one word is the same value.
pub proof fn lemma_hash_deterministic(h1: SipHash, h2: SipHash, word: u64, r1: u64, r2: u64)
    requires
        h1@ == h2@,
        r1 == siphash24(h1@, word),
        r2 == siphash24(h2@, word),
    ensures
        r1 == r2,
{
}

} // verus!
