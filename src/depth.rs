//! Bit widths and the quantization of 8-bit samples to and from them.
use vstd::arithmetic::power2::{pow2, lemma2_to64};
use vstd::prelude::*;

verus! {

/// A bit width names how many low bits of a sample carry data: 1 to 8.
pub open spec fn valid_bits(bits: u8) -> bool {
    1 <= bits <= 8
}

/// The largest value representable in `bits` bits.
pub open spec fn max_level(bits: nat) -> nat {
    (pow2(bits) - 1) as nat
}

/// A sample reduced to its `bits` high bits, moved to the low end.
pub open spec fn quantized(sample: u8, bits: u8) -> nat {
    sample as nat / pow2((8 - bits) as nat)
}

/// The low `bits` bits of a sample, stretched linearly onto 0..=255.
pub open spec fn dequantized(sample: u8, bits: u8) -> nat {
    (sample as nat % pow2(bits as nat)) * 255 / max_level(bits as nat)
}

/// `2^e` for the exponents a byte's bit width needs.
pub fn pow2_of(e: u8) -> (r: u16)
    requires
        e <= 8,
    ensures
        r as nat == pow2(e as nat),
        1 <= r <= 256,
{
    proof {
        lemma2_to64();
    }
    match e {
        0 => 1,
        1 => 2,
        2 => 4,
        3 => 8,
        4 => 16,
        5 => 32,
        6 => 64,
        7 => 128,
        _ => 256,
    }
}

/// Keeps the `bits` high bits of a sample, shifted down to the low end.
pub fn quantize(sample: u8, bits: u8) -> (r: u8)
    requires
        valid_bits(bits),
    ensures
        r as nat == quantized(sample, bits),
        (r as nat) <= max_level(bits as nat),
{
    let d = pow2_of(8 - bits);
    let l = pow2_of(bits);
    proof {
        lemma2_to64();
        assert(d as int * l as int == 256) by {
            vstd::arithmetic::power2::lemma_pow2_adds((8 - bits) as nat, bits as nat);
        }
        assert((sample as int) / (d as int) < l as int) by (nonlinear_arith)
            requires
                d as int * l as int == 256,
                0 <= sample < 256,
                d > 0,
        ;
    }
    ((sample as u16) / d) as u8
}

/// Stretches the low `bits` bits of a sample linearly onto 0..=255.
pub fn dequantize(sample: u8, bits: u8) -> (r: u8)
    requires
        valid_bits(bits),
    ensures
        r as nat == dequantized(sample, bits),
{
    let l = pow2_of(bits);
    proof {
        lemma2_to64();
        assert(l >= 2);
    }
    let low: u16 = (sample as u16) % l;
    proof {
        assert((low as int) * 255 / ((l - 1) as int) <= 255) by (nonlinear_arith)
            requires
                low < l,
                l >= 2,
        ;
    }
    (low * 255 / (l - 1)) as u8
}

/// Quantizes every sample of a buffer to `bits` bits.
pub fn quantize_samples(buf: &mut Vec<u8>, bits: u8)
    requires
        valid_bits(bits),
    ensures
        final(buf)@.len() == old(buf)@.len(),
        forall|i: int|
            0 <= i < old(buf)@.len() ==> final(buf)@[i] as nat == quantized(#[trigger] old(buf)@[i], bits),
{
    let n = buf.len();
    let mut i: usize = 0;
    while i < n
        invariant
            valid_bits(bits),
            n == old(buf)@.len(),
            buf@.len() == n,
            0 <= i <= n,
            forall|k: int| 0 <= k < i ==> buf@[k] as nat == quantized(#[trigger] old(buf)@[k], bits),
            forall|k: int| i <= k < n ==> buf@[k] == old(buf)@[k],
        decreases n - i,
    {
        let q = quantize(buf[i], bits);
        buf.set(i, q);
        i += 1;
    }
}

} // verus!
