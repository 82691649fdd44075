//! Hiding one image in the low bits of another, and reading it back.
use crate::depth::{dequantize, dequantized, pow2_of, valid_bits};
use vstd::arithmetic::div_mod::{lemma_fundamental_div_mod, lemma_mod_multiples_basic};
use vstd::arithmetic::power2::{lemma2_to64, lemma_pow2_adds, pow2};
use vstd::prelude::*;

verus! {

/// Why two buffers cannot be combined.
#[derive(Clone, Copy, Debug, PartialEq, Eq, Structural)]
pub enum ImageError {
    /// The two images differ in width or height.
    DimensionMismatch,
    /// A buffer's length is not width times height times its channel count,
    /// or a channel count is zero.
    ShapeMismatch,
    /// A bit width outside 1 to 8.
    InvalidBitWidth,
    /// Revealing was asked for together with concealing or normalizing.
    ConflictingModes,
}

/// A sample with its low `bits` bits cleared.
pub open spec fn high_part(x: u8, bits: u8) -> nat {
    (x as nat - x as nat % pow2(bits as nat)) as nat
}

/// The sample of the hidden buffer that feeds output index `i`: same pixel,
/// channel clamped to the hidden buffer's last one.
pub open spec fn hidden_index(i: int, cover_channels: nat, hidden_channels: nat) -> int {
    let p = i / cover_channels as int;
    let c = i % cover_channels as int;
    p * hidden_channels + if c < hidden_channels { c } else { hidden_channels - 1 }
}

/// The high bits of the hidden sample joined to the low `bits` bits of the cover sample.
pub open spec fn embedded(
    cover: Seq<u8>,
    cover_channels: nat,
    hidden: Seq<u8>,
    hidden_channels: nat,
    bits: u8,
) -> Seq<u8> {
    Seq::new(
        cover.len(),
        |i: int|
            (high_part(hidden[hidden_index(i, cover_channels, hidden_channels)], bits) + cover[i] as nat
                % pow2(bits as nat)) as u8,
    )
}

/// Buffers of the same pixel count, each a whole number of pixels.
pub open spec fn same_pixels(
    cover_len: nat,
    cover_channels: nat,
    hidden_len: nat,
    hidden_channels: nat,
) -> bool {
    &&& cover_channels > 0
    &&& hidden_channels > 0
    &&& cover_len % cover_channels == 0
    &&& hidden_len % hidden_channels == 0
    &&& cover_len / cover_channels == hidden_len / hidden_channels
}

/// `2^bits` divides 256.
proof fn lemma_pow2_divides_byte(bits: u8)
    requires
        valid_bits(bits),
    ensures
        256int % (pow2(bits as nat) as int) == 0,
{
    lemma2_to64();
    lemma_pow2_adds((8 - bits) as nat, bits as nat);
    lemma_mod_multiples_basic(pow2((8 - bits) as nat) as int, pow2(bits as nat) as int);
}

/// Clearing the low bits of one byte and filling them from another stays a byte.
proof fn lemma_join_fits(h: int, x: int, l: int)
    requires
        0 <= h < 256,
        0 <= x < 256,
        l > 0,
        256int % l == 0,
    ensures
        0 <= h % l <= h,
        (h - h % l) + x % l < 256,
{
    lemma_fundamental_div_mod(h, l);
    lemma_fundamental_div_mod(256, l);
    let q = h / l;
    let t = 256int / l;
    assert(q < t) by (nonlinear_arith)
        requires
            h == l * q + h % l,
            256 == l * t,
            0 <= h % l,
            h < 256,
            l > 0,
    ;
    assert(l * q <= 256 - l) by (nonlinear_arith)
        requires
            q < t,
            256 == l * t,
            l > 0,
    ;
}

/// Writes the high bits of `hidden` over the low `bits` bits kept from `cover`,
/// sample by sample.
pub fn embed(
    cover: &Vec<u8>,
    cover_channels: usize,
    hidden: &Vec<u8>,
    hidden_channels: usize,
    bits: u8,
) -> (r: Vec<u8>)
    requires
        valid_bits(bits),
        same_pixels(cover@.len(), cover_channels as nat, hidden@.len(), hidden_channels as nat),
    ensures
        r@ == embedded(cover@, cover_channels as nat, hidden@, hidden_channels as nat, bits),
{
    let l = pow2_of(bits);
    proof {
        lemma2_to64();
        lemma_pow2_divides_byte(bits);
    }
    let n = cover.len();
    let mut r: Vec<u8> = Vec::with_capacity(n);
    let mut i: usize = 0;
    while i < n
        invariant
            valid_bits(bits),
            l as nat == pow2(bits as nat),
            2 <= l <= 256,
            256int % (l as int) == 0,
            n == cover@.len(),
            same_pixels(cover@.len(), cover_channels as nat, hidden@.len(), hidden_channels as nat),
            i <= n,
            r@.len() == i,
            forall|k: int|
                0 <= k < i ==> r@[k] == #[trigger] embedded(
                    cover@,
                    cover_channels as nat,
                    hidden@,
                    hidden_channels as nat,
                    bits,
                )[k],
        decreases n - i,
    {
        let p = i / cover_channels;
        let c = i % cover_channels;
        let hc = if c < hidden_channels {
            c
        } else {
            hidden_channels - 1
        };
        proof {
            let pc = cover_channels as int;
            let ph = hidden_channels as int;
            let pi = p as int;
            let ii = i as int;
            let ni = n as int;
            let hl = hidden@.len() as int;
            assert(pi < ni / pc) by (nonlinear_arith)
                requires
                    pi == ii / pc,
                    ii < ni,
                    ni % pc == 0,
                    pc > 0,
            ;
            assert(pi * ph + hc < hl) by (nonlinear_arith)
                requires
                    pi < hl / ph,
                    hc < ph,
                    ph > 0,
                    hl % ph == 0,
            ;
            assert(0 <= pi * ph) by (nonlinear_arith)
                requires
                    pi >= 0,
                    ph >= 0,
            ;
        }
        let hidden_len = hidden.len();
        assert(p * hidden_channels + hc < hidden_len);
        let h = hidden[p * hidden_channels + hc];
        let x = cover[i];
        proof {
            lemma_join_fits(h as int, x as int, l as int);
        }
        let v = (h as u16 - h as u16 % l) + x as u16 % l;
        r.push(v as u8);
        i += 1;
    }
    assert(r@ =~= embedded(cover@, cover_channels as nat, hidden@, hidden_channels as nat, bits));
    r
}

/// Whether a buffer holds exactly `width * height` pixels of `channels` samples.
pub open spec fn has_shape(len: nat, width: u32, height: u32, channels: nat) -> bool {
    channels > 0 && len == width as nat * height as nat * channels
}

/// Conceals an image in the RGB cover `buf` of `width` by `height` pixels: the
/// hidden image's high bits replace all but the low `bits` bits of each cover
/// sample. The hidden image must have the same width and height; its channel
/// count may differ, each cover channel past its last reading that last one.
pub fn conceal(
    buf: &mut Vec<u8>,
    bits: u8,
    width: u32,
    height: u32,
    hidden: &Vec<u8>,
    hidden_channels: u8,
    hidden_width: u32,
    hidden_height: u32,
) -> (r: Result<(), ImageError>)
    ensures
        r == Err::<(), _>(ImageError::DimensionMismatch) <==> (hidden_width != width || hidden_height
            != height),
        r == Err::<(), _>(ImageError::InvalidBitWidth) <==> (hidden_width == width && hidden_height
            == height && !valid_bits(bits)),
        r == Err::<(), _>(ImageError::ShapeMismatch) <==> (hidden_width == width && hidden_height
            == height && valid_bits(bits) && !(has_shape(old(buf)@.len(), width, height, 3)
            && has_shape(hidden@.len(), width, height, hidden_channels as nat))),
        r is Ok <==> (hidden_width == width && hidden_height == height && valid_bits(bits)
            && has_shape(old(buf)@.len(), width, height, 3) && has_shape(
            hidden@.len(),
            width,
            height,
            hidden_channels as nat,
        )),
        r is Ok ==> final(buf)@ == embedded(old(buf)@, 3, hidden@, hidden_channels as nat, bits),
        r is Err ==> final(buf)@ == old(buf)@,
{
    if hidden_width != width || hidden_height != height {
        return Err(ImageError::DimensionMismatch);
    }
    if bits < 1 || bits > 8 {
        return Err(ImageError::InvalidBitWidth);
    }
    proof {
        assert(width as u128 * height as u128 <= 0xFFFF_FFFF * 0xFFFF_FFFFu128) by (nonlinear_arith);
        assert(width as u128 * height as u128 * hidden_channels as u128 <= 0xFFFF_FFFF * 0xFFFF_FFFFu128
            * 255) by (nonlinear_arith)
            requires
                width as u128 * height as u128 <= 0xFFFF_FFFF * 0xFFFF_FFFFu128,
        ;
    }
    let pixels = width as u128 * height as u128;
    if hidden_channels == 0 || buf.len() as u128 != pixels * 3 || hidden.len() as u128 != pixels
        * hidden_channels as u128 {
        return Err(ImageError::ShapeMismatch);
    }
    proof {
        let px = width as nat * height as nat;
        assert(buf@.len() / 3 == px);
        assert(hidden@.len() == px * hidden_channels as nat);
        assert(hidden@.len() / (hidden_channels as nat) == px) by (nonlinear_arith)
            requires
                hidden@.len() == px * hidden_channels as nat,
                hidden_channels > 0,
        ;
        assert(hidden@.len() % (hidden_channels as nat) == 0) by (nonlinear_arith)
            requires
                hidden@.len() == px * hidden_channels as nat,
                hidden_channels > 0,
        ;
    }
    let merged = embed(buf, 3, hidden, hidden_channels as usize, bits);
    *buf = merged;
    Ok(())
}

/// Reads a concealed image back: keeps the low `bits` bits of each sample and
/// stretches them onto 0..=255.
pub fn extract(buf: &mut Vec<u8>, bits: u8)
    requires
        valid_bits(bits),
    ensures
        final(buf)@.len() == old(buf)@.len(),
        forall|i: int|
            0 <= i < old(buf)@.len() ==> final(buf)@[i] as nat == dequantized(
                #[trigger] old(buf)@[i],
                bits,
            ),
{
    let n = buf.len();
    let mut i: usize = 0;
    while i < n
        invariant
            valid_bits(bits),
            n == old(buf)@.len(),
            buf@.len() == n,
            i <= n,
            forall|k: int| 0 <= k < i ==> buf@[k] as nat == dequantized(#[trigger] old(buf)@[k], bits),
            forall|k: int| i <= k < n ==> buf@[k] == old(buf)@[k],
        decreases n - i,
    {
        let x = dequantize(buf[i], bits);
        buf.set(i, x);
        i += 1;
    }
}

} // verus!
