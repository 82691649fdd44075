//! Per-channel contrast stretching of an RGB buffer.
use crate::depth::{max_level, pow2_of, valid_bits};
use vstd::arithmetic::power2::lemma2_to64;
use vstd::prelude::*;

verus! {

/// Smallest sample of channel `ch` over the first `k` pixels of an RGB
/// buffer; 255 when there is none.
pub open spec fn channel_min(s: Seq<u8>, ch: int, k: nat) -> u8
    decreases k,
{
    if k == 0 {
        255
    } else {
        let m = channel_min(s, ch, (k - 1) as nat);
        let x = s[3 * (k - 1) + ch];
        if x < m {
            x
        } else {
            m
        }
    }
}

/// Largest sample of channel `ch` over the first `k` pixels; 0 when there is none.
pub open spec fn channel_max(s: Seq<u8>, ch: int, k: nat) -> u8
    decreases k,
{
    if k == 0 {
        0
    } else {
        let m = channel_max(s, ch, (k - 1) as nat);
        let x = s[3 * (k - 1) + ch];
        if x > m {
            x
        } else {
            m
        }
    }
}

/// A sample moved linearly from `lo..=hi` onto `0..=max_level(bits)`; a
/// constant channel (`lo == hi`) goes to 0.
pub open spec fn stretched(x: u8, lo: u8, hi: u8, bits: u8) -> nat {
    if hi == lo {
        0
    } else {
        ((x - lo) * max_level(bits as nat) / (hi - lo)) as nat
    }
}

/// The stretched buffer: each sample rescaled by the extremes of its channel.
pub open spec fn stretch_of(s: Seq<u8>, bits: u8) -> Seq<u8> {
    let k = s.len() / 3;
    Seq::new(
        s.len(),
        |i: int| stretched(s[i], channel_min(s, i % 3, k), channel_max(s, i % 3, k), bits) as u8,
    )
}

/// The extremes bound every sample of their channel, and (over at least one
/// pixel) are met by some pixel.
proof fn lemma_extremes(s: Seq<u8>, ch: int, k: nat)
    requires
        0 <= ch < 3,
        3 * k <= s.len(),
    ensures
        forall|p: int|
            0 <= p < k ==> channel_min(s, ch, k) <= #[trigger] s[3 * p + ch] <= channel_max(s, ch, k),
        k > 0 ==> exists|p: int| 0 <= p < k && #[trigger] s[3 * p + ch] == channel_min(s, ch, k),
        k > 0 ==> exists|p: int| 0 <= p < k && #[trigger] s[3 * p + ch] == channel_max(s, ch, k),
    decreases k,
{
    if k > 0 {
        lemma_extremes(s, ch, (k - 1) as nat);
        if k > 1 {
            let lo = channel_min(s, ch, (k - 1) as nat);
            let hi = channel_max(s, ch, (k - 1) as nat);
            let plo = choose|p: int| 0 <= p < k - 1 && #[trigger] s[3 * p + ch] == lo;
            let phi = choose|p: int| 0 <= p < k - 1 && #[trigger] s[3 * p + ch] == hi;
            assert(s[3 * plo + ch] == lo);
            assert(s[3 * phi + ch] == hi);
        } else {
            assert(s[3 * 0 + ch] == s[3 * (k - 1) + ch]);
        }
        assert(s[3 * (k - 1) + ch] == s[3 * ((k - 1) as int) + ch]);
    }
}

/// Rescales one sample; `lo <= x <= hi`.
fn stretch_sample(x: u8, lo: u8, hi: u8, bits: u8) -> (r: u8)
    requires
        valid_bits(bits),
        lo <= x <= hi,
    ensures
        r as nat == stretched(x, lo, hi, bits),
{
    if hi == lo {
        0
    } else {
        let m = pow2_of(bits) - 1;
        proof {
            lemma2_to64();
            assert(((x - lo) as u16) * m <= 255 * 255) by (nonlinear_arith)
                requires
                    (x - lo) as u16 <= 255,
                    m <= 255,
            ;
            assert((x - lo) * m / (hi - lo) <= m) by (nonlinear_arith)
                requires
                    lo <= x <= hi,
                    lo < hi,
                    m >= 0,
            ;
        }
        ((x - lo) as u16 * m / (hi - lo) as u16) as u8
    }
}

/// Stretches each channel of an RGB buffer so that its samples span
/// `0..=max_level(bits)`; a constant channel becomes all 0.
pub fn stretch(buf: &mut Vec<u8>, bits: u8)
    requires
        valid_bits(bits),
        old(buf)@.len() % 3 == 0,
    ensures
        final(buf)@ == stretch_of(old(buf)@, bits),
{
    let n = buf.len();
    let ghost s = buf@;
    let mut lo: Vec<u8> = vec![255, 255, 255];
    let mut hi: Vec<u8> = vec![0, 0, 0];
    let mut p: usize = 0;
    while p < n / 3
        invariant
            s == buf@,
            n == s.len(),
            n % 3 == 0,
            p <= n / 3,
            lo@.len() == 3,
            hi@.len() == 3,
            forall|ch: int| 0 <= ch < 3 ==> lo@[ch] == channel_min(s, ch, p as nat),
            forall|ch: int| 0 <= ch < 3 ==> hi@[ch] == channel_max(s, ch, p as nat),
        decreases n / 3 - p,
    {
        let mut ch: usize = 0;
        while ch < 3
            invariant
                s == buf@,
                n == s.len(),
                n % 3 == 0,
                p < n / 3,
                ch <= 3,
                lo@.len() == 3,
                hi@.len() == 3,
                forall|c: int| 0 <= c < ch ==> lo@[c] == channel_min(s, c, (p + 1) as nat),
                forall|c: int| 0 <= c < ch ==> hi@[c] == channel_max(s, c, (p + 1) as nat),
                forall|c: int| ch <= c < 3 ==> lo@[c] == channel_min(s, c, p as nat),
                forall|c: int| ch <= c < 3 ==> hi@[c] == channel_max(s, c, p as nat),
            decreases 3 - ch,
        {
            let x = buf[3 * p + ch];
            if x < lo[ch] {
                lo.set(ch, x);
            }
            if x > hi[ch] {
                hi.set(ch, x);
            }
            ch += 1;
        }
        p += 1;
    }
    proof {
        lemma_extremes(s, 0, (n / 3) as nat);
        lemma_extremes(s, 1, (n / 3) as nat);
        lemma_extremes(s, 2, (n / 3) as nat);
    }
    let mut i: usize = 0;
    while i < n
        invariant
            valid_bits(bits),
            n == s.len(),
            n % 3 == 0,
            buf@.len() == n,
            i <= n,
            lo@.len() == 3,
            hi@.len() == 3,
            forall|ch: int| 0 <= ch < 3 ==> lo@[ch] == channel_min(s, ch, (n / 3) as nat),
            forall|ch: int| 0 <= ch < 3 ==> hi@[ch] == channel_max(s, ch, (n / 3) as nat),
            forall|ch: int, p: int|
                0 <= ch < 3 && 0 <= p < n / 3 ==> channel_min(s, ch, (n / 3) as nat)
                    <= #[trigger] s[3 * p + ch] <= channel_max(s, ch, (n / 3) as nat),
            forall|k: int| 0 <= k < i ==> buf@[k] == stretch_of(s, bits)[k],
            forall|k: int| i <= k < n ==> buf@[k] == s[k],
        decreases n - i,
    {
        let ch = i % 3;
        assert(s[3 * (i / 3) as int + ch as int] == s[i as int]);
        let x = stretch_sample(buf[i], lo[ch], hi[ch], bits);
        buf.set(i, x);
        i += 1;
    }
    assert(buf@ =~= stretch_of(s, bits));
}

/// After stretching, each channel of a non-empty buffer spans exactly
/// `0..=max_level(bits)`, unless it was constant, in which case all its samples are 0.
pub proof fn lemma_stretch_spans(s: Seq<u8>, bits: u8, ch: int)
    requires
        valid_bits(bits),
        s.len() % 3 == 0,
        s.len() > 0,
        0 <= ch < 3,
    ensures
        ({
            let k = (s.len() / 3) as nat;
            let t = stretch_of(s, bits);
            &&& channel_min(s, ch, k) == channel_max(s, ch, k) ==> forall|p: int|
                0 <= p < k ==> #[trigger] t[3 * p + ch] == 0
            &&& channel_min(s, ch, k) != channel_max(s, ch, k) ==> channel_min(t, ch, k) == 0
                && channel_max(t, ch, k) as nat == max_level(bits as nat)
        }),
{
    lemma2_to64();
    let k = (s.len() / 3) as nat;
    let t = stretch_of(s, bits);
    let lo = channel_min(s, ch, k);
    let hi = channel_max(s, ch, k);
    let m = max_level(bits as nat);
    lemma_extremes(s, ch, k);
    lemma_extremes(t, ch, k);
    assert forall|p: int| 0 <= p < k implies (#[trigger] t[3 * p + ch]) == stretched(
        s[3 * p + ch],
        lo,
        hi,
        bits,
    ) as u8 && stretched(s[3 * p + ch], lo, hi, bits) <= m by {
        assert((3 * p + ch) % 3 == ch);
        let x = s[3 * p + ch];
        if hi != lo {
            assert((x - lo) * m / (hi - lo) <= m) by (nonlinear_arith)
                requires
                    lo <= x <= hi,
                    lo < hi,
                    m >= 0,
            ;
        }
    }
    if lo != hi {
        let plo = choose|p: int| 0 <= p < k && #[trigger] s[3 * p + ch] == lo;
        let phi = choose|p: int| 0 <= p < k && #[trigger] s[3 * p + ch] == hi;
        assert(t[3 * plo + ch] == 0);
        assert((hi - lo) * m / (hi - lo) == m) by (nonlinear_arith)
            requires
                lo < hi,
        ;
        assert(t[3 * phi + ch] as nat == m);
        let pt = choose|p: int| 0 <= p < k && #[trigger] t[3 * p + ch] == channel_max(t, ch, k);
        assert(t[3 * pt + ch] <= m);
    }
}

} // verus!
