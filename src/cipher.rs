//! A keyed keystream XORed over a buffer.
use crate::depth::{max_level, pow2_of, valid_bits};
use crate::keyed::{chacha_bytes, keystream};
use vstd::arithmetic::power2::lemma2_to64;
use vstd::prelude::*;

verus! {

/// Each sample XORed with the keystream value at its position.
pub open spec fn xored(s: Seq<u8>, ks: Seq<u8>) -> Seq<u8> {
    Seq::new(s.len(), |i: int| s[i] ^ ks[i])
}

/// The keystream for a buffer of `len` samples at bit width `bits`.
pub open spec fn keystream_of(key: u64, len: nat, bits: u8) -> Seq<u8> {
    chacha_bytes(key, len, max_level(bits as nat) as u8)
}

/// XORs every sample with a keystream drawn from `0..=max_level(bits)` by a
/// generator seeded with `key`.
pub fn stream_cipher(buf: &mut Vec<u8>, key: u64, bits: u8)
    requires
        valid_bits(bits),
    ensures
        final(buf)@ == xored(old(buf)@, keystream_of(key, old(buf)@.len(), bits)),
{
    proof {
        lemma2_to64();
    }
    let max = (pow2_of(bits) - 1) as u8;
    let n = buf.len();
    let ks = keystream(key, n, max);
    let ghost s = buf@;
    let mut i: usize = 0;
    while i < n
        invariant
            n == s.len(),
            ks@.len() == n,
            buf@.len() == n,
            i <= n,
            forall|k: int| 0 <= k < i ==> buf@[k] == #[trigger] s[k] ^ ks@[k],
            forall|k: int| i <= k < n ==> buf@[k] == s[k],
        decreases n - i,
    {
        let x = buf[i] ^ ks[i];
        buf.set(i, x);
        i += 1;
    }
    assert(buf@ =~= xored(s, ks@));
}

/// XORing with the same keystream twice gives the buffer back: the cipher is
/// its own inverse under the same key and bit width.
pub proof fn lemma_cipher_self_inverse(s: Seq<u8>, key: u64, bits: u8)
    ensures
        xored(xored(s, keystream_of(key, s.len(), bits)), keystream_of(key, s.len(), bits)) == s,
{
    let ks = keystream_of(key, s.len(), bits);
    let t = xored(xored(s, ks), ks);
    assert forall|i: int| 0 <= i < s.len() implies t[i] == s[i] by {
        let a = s[i];
        let b = ks[i];
        assert((a ^ b) ^ b == a) by (bit_vector);
    }
    assert(t =~= s);
}

} // verus!
