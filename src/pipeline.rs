//! The order in which the transforms run, with the shape checks made once at entry.
use crate::cipher::{keystream_of, stream_cipher, xored};
use crate::conceal::{conceal, embedded, extract, has_shape, ImageError};
use crate::depth::{dequantized, quantize_samples, quantized, valid_bits};
use crate::equalize::{equalize, equalized};
use crate::permute::{scramble, shuffled, trace_of, unscramble, unshuffled};
use crate::stretch::{stretch, stretch_of};
use vstd::prelude::*;

verus! {

/// A raster of `width * height` pixels of `channels` 8-bit samples each.
pub struct Image {
    pub width: u32,
    pub height: u32,
    pub channels: u8,
    pub samples: Vec<u8>,
}

/// How the cover image is normalized before anything else.
#[derive(Clone, Copy, Debug, PartialEq, Eq, Structural)]
pub enum Normalization {
    Keep,
    Stretch,
    Equalize,
}

/// What one run does.
#[derive(Clone, Copy, Debug, PartialEq, Eq, Structural)]
pub struct Settings {
    /// Bit width, 1 to 8.
    pub bits: u8,
    pub normalization: Normalization,
    /// Read a concealed image out of the input instead of quantizing it.
    pub reveal: bool,
    /// Key of the keystream cipher, if any.
    pub key: Option<u64>,
    /// Key to shuffle sample positions with, if any.
    pub scramble_key: Option<u64>,
    /// Key to undo such a shuffle with, if any.
    pub unscramble_key: Option<u64>,
}

impl Image {
    pub open spec fn shape_ok(&self) -> bool {
        has_shape(self.samples@.len(), self.width, self.height, self.channels as nat)
    }
}

/// The image behind an optional reference.
pub open spec fn seen(h: Option<&Image>) -> Option<Image> {
    match h {
        Some(x) => Some(*x),
        None => None,
    }
}

/// The first reason, if any, why a run cannot go ahead; checked in this order:
/// bit width, conflicting modes, the input's shape, the hidden image's
/// dimensions, its shape.
pub open spec fn refusal(image: Image, settings: Settings, hidden: Option<Image>) -> Option<
    ImageError,
> {
    if !valid_bits(settings.bits) {
        Some(ImageError::InvalidBitWidth)
    } else if settings.reveal && (hidden is Some || settings.normalization != Normalization::Keep) {
        Some(ImageError::ConflictingModes)
    } else if !(image.channels == 3 && image.shape_ok()) {
        Some(ImageError::ShapeMismatch)
    } else if hidden is Some && (hidden->0.width != image.width || hidden->0.height
        != image.height) {
        Some(ImageError::DimensionMismatch)
    } else if hidden is Some && !hidden->0.shape_ok() {
        Some(ImageError::ShapeMismatch)
    } else {
        None
    }
}

pub open spec fn normalized(s: Seq<u8>, n: Normalization) -> Seq<u8> {
    match n {
        Normalization::Keep => s,
        Normalization::Stretch => stretch_of(s, 8),
        Normalization::Equalize => equalized(s),
    }
}

pub open spec fn quantized_all(s: Seq<u8>, bits: u8) -> Seq<u8> {
    Seq::new(s.len(), |i: int| quantized(s[i], bits) as u8)
}

pub open spec fn dequantized_all(s: Seq<u8>, bits: u8) -> Seq<u8> {
    Seq::new(s.len(), |i: int| dequantized(s[i], bits) as u8)
}

/// The samples after normalization and quantization (skipped when revealing).
pub open spec fn prepared(s: Seq<u8>, settings: Settings) -> Seq<u8> {
    let s1 = normalized(s, settings.normalization);
    if settings.reveal {
        s1
    } else {
        quantized_all(s1, settings.bits)
    }
}

/// The samples after the keystream cipher and the keyed shuffles.
pub open spec fn obscured(s: Seq<u8>, settings: Settings) -> Seq<u8> {
    let s1 = match settings.key {
        Some(k) => xored(s, keystream_of(k, s.len(), settings.bits)),
        None => s,
    };
    let s2 = match settings.scramble_key {
        Some(k) => shuffled(s1, trace_of(k, s1.len()), trace_of(k, s1.len()).len()),
        None => s1,
    };
    match settings.unscramble_key {
        Some(k) => unshuffled(s2, trace_of(k, s2.len()), trace_of(k, s2.len()).len()),
        None => s2,
    }
}

/// The output samples of a run that was not refused.
pub open spec fn processed(s: Seq<u8>, settings: Settings, hidden: Option<Image>) -> Seq<u8> {
    let s1 = obscured(prepared(s, settings), settings);
    match hidden {
        Some(h) => embedded(s1, 3, h.samples@, h.channels as nat, settings.bits),
        None => dequantized_all(s1, settings.bits),
    }
}

/// Runs the transforms on an RGB image: normalize, quantize (unless
/// revealing), cipher, scramble, unscramble, then either conceal `hidden` in
/// the result or stretch the low bits back to 0..=255. A refused run leaves
/// the image as it was.
pub fn process(image: &mut Image, settings: &Settings, hidden: Option<&Image>) -> (r: Result<
    (),
    ImageError,
>)
    ensures
        match refusal(*old(image), *settings, seen(hidden)) {
            Some(e) => r == Err::<(), ImageError>(e) && *final(image) == *old(image),
            None => r is Ok && final(image).width == old(image).width && final(image).height
                == old(image).height && final(image).channels == 3 && final(image).samples@
                == processed(old(image).samples@, *settings, seen(hidden)),
        },
{
    let bits = settings.bits;
    if bits < 1 || bits > 8 {
        return Err(ImageError::InvalidBitWidth);
    }
    if settings.reveal && (hidden.is_some() || settings.normalization != Normalization::Keep) {
        return Err(ImageError::ConflictingModes);
    }
    if image.channels != 3 || !shape_matches(image) {
        return Err(ImageError::ShapeMismatch);
    }
    match hidden {
        Some(h) => {
            if h.width != image.width || h.height != image.height {
                return Err(ImageError::DimensionMismatch);
            }
            if !shape_matches(h) {
                return Err(ImageError::ShapeMismatch);
            }
        },
        None => {},
    }
    let ghost s0 = image.samples@;
    proof {
        assert(s0.len() % 3 == 0) by (nonlinear_arith)
            requires
                s0.len() == image.width as nat * image.height as nat * 3,
        ;
    }
    match settings.normalization {
        Normalization::Keep => {},
        Normalization::Stretch => stretch(&mut image.samples, 8),
        Normalization::Equalize => equalize(&mut image.samples),
    }
    if !settings.reveal {
        quantize_samples(&mut image.samples, bits);
        assert(image.samples@ =~= prepared(s0, *settings));
    }
    match settings.key {
        Some(k) => stream_cipher(&mut image.samples, k, bits),
        None => {},
    }
    match settings.scramble_key {
        Some(k) => scramble(&mut image.samples, k),
        None => {},
    }
    match settings.unscramble_key {
        Some(k) => unscramble(&mut image.samples, k),
        None => {},
    }
    let ghost s1 = image.samples@;
    assert(s1 == obscured(prepared(s0, *settings), *settings));
    match hidden {
        Some(h) => {
            let done = conceal(
                &mut image.samples,
                bits,
                image.width,
                image.height,
                &h.samples,
                h.channels,
                h.width,
                h.height,
            );
            assert(done is Ok);
        },
        None => {
            extract(&mut image.samples, bits);
            assert(image.samples@ =~= dequantized_all(s1, bits));
        },
    }
    Ok(())
}

/// Whether the image's samples number exactly width times height times channels.
fn shape_matches(image: &Image) -> (r: bool)
    ensures
        r == image.shape_ok(),
{
    proof {
        assert(image.width as u128 * image.height as u128 <= 0xFFFF_FFFF * 0xFFFF_FFFFu128)
            by (nonlinear_arith);
        assert(image.width as u128 * image.height as u128 * image.channels as u128 <= 0xFFFF_FFFF
            * 0xFFFF_FFFFu128 * 255) by (nonlinear_arith)
            requires
                image.width as u128 * image.height as u128 <= 0xFFFF_FFFF * 0xFFFF_FFFFu128,
        ;
    }
    image.channels > 0 && image.samples.len() as u128 == image.width as u128 * image.height as u128
        * image.channels as u128
}

} // verus!
