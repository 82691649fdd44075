use steg::cipher::stream_cipher;
use steg::conceal::{conceal, embed, extract, ImageError};
use steg::depth::{dequantize, quantize, quantize_samples};
use steg::equalize::equalize;
use steg::hsv::HSVColor;
use steg::permute::{scramble, unscramble};
use steg::pipeline::{process, Image, Normalization, Settings};
use steg::raster::to_rgb8;
use steg::stretch::stretch;

#[test]
fn quantize_keeps_high_bits() {
    assert_eq!(quantize(200, 2), 3);
    assert_eq!(quantize(200, 8), 200);
    assert_eq!(quantize(127, 1), 0);
    assert_eq!(quantize(128, 1), 1);
}

#[test]
fn dequantize_spreads_low_bits() {
    assert_eq!(dequantize(2, 2), 170);
    assert_eq!(dequantize(3, 2), 255);
    assert_eq!(dequantize(0, 2), 0);
    assert_eq!(dequantize(7, 4), 119);
    assert_eq!(dequantize(93, 8), 93);
    // only the low bits are read
    assert_eq!(dequantize(0b1111_0001, 2), 85);
}

#[test]
fn dequantize_is_monotonic_in_its_domain() {
    for bits in 1..=8u8 {
        let top = (1u16 << bits) - 1;
        let mut last = 0u8;
        for y in 0..=top {
            let d = dequantize(y as u8, bits);
            assert!(d >= last);
            last = d;
        }
        assert_eq!(last, 255);
    }
}

#[test]
fn quantize_samples_shifts_every_sample() {
    let mut buf = vec![0, 64, 128, 255];
    quantize_samples(&mut buf, 2);
    assert_eq!(buf, vec![0, 1, 2, 3]);
}

#[test]
fn hsv_round_trip_every_depth() {
    for depth in 1..=8u8 {
        let top = ((1u16 << depth) - 1) as u8;
        let step = if depth > 4 { 7 } else { 1 };
        let mut r = 0u16;
        while r <= top as u16 {
            let mut g = 0u16;
            while g <= top as u16 {
                for b in [0u8, top / 2, top] {
                    let h = HSVColor::from_rgb(r as u8, g as u8, b, depth);
                    assert_eq!(h.to_rgb(depth), [r as u8, g as u8, b]);
                }
                g += step;
            }
            r += step;
        }
    }
}

#[test]
fn hsv_fields_of_a_color() {
    let h = HSVColor::from_rgb(255, 0, 128, 8);
    assert_eq!(h.val_num, 255);
    assert_eq!(h.val_den, 255);
    assert_eq!(h.sat_num, 255);
    assert_eq!(h.sat_den, 255);
    // blue above green with red largest: the last sector
    assert_eq!(h.sector, 5);
    let grey = HSVColor::from_rgb(9, 9, 9, 8);
    assert_eq!(grey.sat_num, 0);
    assert_eq!(grey.sector, 0);
    let black = HSVColor::from_rgb(0, 0, 0, 4);
    assert_eq!(black.to_rgb(4), [0, 0, 0]);
}

#[test]
fn hsv_hue_of_360_degrees_is_sector_zero() {
    let full = HSVColor { sector: 6, hue_num: 0, hue_den: 1, sat_num: 1, sat_den: 1, val_num: 1, val_den: 1 };
    let zero = HSVColor { sector: 0, ..full };
    assert_eq!(full.to_rgb(8), zero.to_rgb(8));
    assert_eq!(zero.to_rgb(8), [255, 0, 0]);
    let end = HSVColor { sector: 5, hue_num: 1, hue_den: 1, ..full };
    assert_eq!(end.to_rgb(8), [255, 0, 0]);
}

#[test]
fn hsv_to_lower_depth_scales() {
    let h = HSVColor::from_rgb(255, 255, 255, 8);
    assert_eq!(h.to_rgb(1), [1, 1, 1]);
    assert_eq!(h.to_rgb(4), [15, 15, 15]);
}

#[test]
fn stretch_spans_full_range() {
    let mut buf = vec![10, 20, 30, 50, 20, 90, 30, 20, 60];
    stretch(&mut buf, 8);
    // channel 0: 10..50, channel 1 constant, channel 2: 30..90
    assert_eq!(buf, vec![0, 0, 0, 255, 0, 255, 127, 0, 127]);
}

#[test]
fn stretch_at_lower_bit_width() {
    let mut buf = vec![0, 100, 7, 200, 100, 9];
    stretch(&mut buf, 4);
    assert_eq!(buf, vec![0, 0, 0, 15, 0, 15]);
}

#[test]
fn stretch_constant_channels_become_zero() {
    let mut buf = vec![40, 40, 40, 40, 40, 40];
    stretch(&mut buf, 8);
    assert_eq!(buf, vec![0; 6]);
    let mut empty: Vec<u8> = Vec::new();
    stretch(&mut empty, 8);
    assert!(empty.is_empty());
}

#[test]
fn stretch_min_and_max_per_channel() {
    let mut buf = vec![3, 200, 17, 90, 201, 17, 45, 255, 4, 12, 199, 80];
    stretch(&mut buf, 8);
    for ch in 0..3 {
        let vals: Vec<u8> = buf.iter().skip(ch).step_by(3).copied().collect();
        assert_eq!(*vals.iter().min().unwrap(), 0);
        assert_eq!(*vals.iter().max().unwrap(), 255);
    }
}

#[test]
fn equalize_spreads_values_by_rank() {
    let mut buf = vec![0, 0, 0, 100, 50, 0, 200, 200, 200];
    equalize(&mut buf);
    assert_eq!(buf, vec![0, 0, 0, 127, 63, 0, 255, 255, 255]);
}

#[test]
fn equalize_twice_is_equalize_once() {
    let mut once = vec![0, 0, 0, 100, 50, 0, 200, 200, 200, 30, 90, 60, 7, 3, 5];
    equalize(&mut once);
    let mut twice = once.clone();
    equalize(&mut twice);
    assert_eq!(once, twice);
}

#[test]
fn equalize_single_value_goes_to_zero() {
    let mut buf = vec![50, 50, 50, 50, 10, 10];
    equalize(&mut buf);
    assert_eq!(buf, vec![0; 6]);
}

#[test]
fn conceal_two_pixels_then_extract() {
    let mut buf = vec![10, 20, 30, 40, 50, 60];
    let hidden = vec![255, 0, 128, 64, 200, 32];
    assert_eq!(conceal(&mut buf, 2, 2, 1, &hidden, 3, 2, 1), Ok(()));
    assert_eq!(buf, vec![254, 0, 130, 64, 202, 32]);
    extract(&mut buf, 2);
    assert_eq!(buf, vec![170, 0, 170, 0, 170, 0]);
}

#[test]
fn conceal_refuses_other_dimensions() {
    let mut buf = vec![1u8; 4 * 4 * 3];
    let hidden = vec![2u8; 4 * 5 * 3];
    assert_eq!(conceal(&mut buf, 2, 4, 4, &hidden, 3, 4, 5), Err(ImageError::DimensionMismatch));
    assert_eq!(buf, vec![1u8; 4 * 4 * 3]);
}

#[test]
fn conceal_refuses_bad_shapes_and_widths() {
    let mut buf = vec![1u8; 5];
    let hidden = vec![2u8; 6];
    assert_eq!(conceal(&mut buf, 2, 2, 1, &hidden, 3, 2, 1), Err(ImageError::ShapeMismatch));
    let mut buf = vec![1u8; 6];
    assert_eq!(conceal(&mut buf, 0, 2, 1, &hidden, 3, 2, 1), Err(ImageError::InvalidBitWidth));
    assert_eq!(conceal(&mut buf, 9, 2, 1, &hidden, 3, 2, 1), Err(ImageError::InvalidBitWidth));
    assert_eq!(conceal(&mut buf, 2, 2, 1, &hidden, 0, 2, 1), Err(ImageError::ShapeMismatch));
}

#[test]
fn embed_clamps_hidden_channels() {
    let cover = vec![1, 2, 3, 4, 5, 6];
    let hidden = vec![0b1010_0000, 0b0101_0000];
    let merged = embed(&cover, 3, &hidden, 1, 4);
    assert_eq!(merged, vec![0xA1, 0xA2, 0xA3, 0x54, 0x55, 0x56]);
    let rgba = vec![0xF0, 0xE0, 0xD0, 0xC0];
    let merged = embed(&vec![0, 0, 0, 0], 4, &rgba, 3, 4);
    assert_eq!(merged, vec![0xF0, 0xE0, 0xD0, 0xD0]);
}

#[test]
fn embed_at_full_width_keeps_cover() {
    let cover = vec![9, 8, 7];
    let hidden = vec![200, 100, 50];
    assert_eq!(embed(&cover, 3, &hidden, 3, 8), vec![9, 8, 7]);
}

#[test]
fn cipher_twice_gives_buffer_back() {
    for bits in 1..=8u8 {
        let before: Vec<u8> = (0..200u32).map(|i| (i * 7 % 256) as u8).collect();
        let mut buf = before.clone();
        stream_cipher(&mut buf, 0xDEAD_BEEF, bits);
        stream_cipher(&mut buf, 0xDEAD_BEEF, bits);
        assert_eq!(buf, before);
    }
}

#[test]
fn cipher_draws_within_bit_width() {
    let mut buf = vec![0u8; 256];
    stream_cipher(&mut buf, 42, 8);
    assert!(buf.iter().any(|&x| x != 0));
    let mut low = vec![0u8; 256];
    stream_cipher(&mut low, 42, 1);
    assert!(low.iter().all(|&x| x <= 1));
    assert!(low.iter().any(|&x| x == 1));
}

#[test]
fn cipher_same_key_same_stream() {
    let mut a = vec![0u8; 64];
    let mut b = vec![0u8; 64];
    stream_cipher(&mut a, 7, 8);
    stream_cipher(&mut b, 7, 8);
    assert_eq!(a, b);
    let mut c = vec![0u8; 64];
    stream_cipher(&mut c, 8, 8);
    assert_ne!(a, c);
}

#[test]
fn unscramble_undoes_scramble() {
    for n in [0usize, 1, 2, 3, 10, 257] {
        let before: Vec<u8> = (0..n).map(|i| (i % 251) as u8).collect();
        let mut buf = before.clone();
        scramble(&mut buf, 1234);
        unscramble(&mut buf, 1234);
        assert_eq!(buf, before);
    }
}

#[test]
fn scramble_permutes_samples() {
    let before: Vec<u8> = (0..200u32).map(|i| i as u8).collect();
    let mut buf = before.clone();
    scramble(&mut buf, 99);
    assert_ne!(buf, before);
    let mut sorted = buf.clone();
    sorted.sort();
    assert_eq!(sorted, before);
}

#[test]
fn rgb8_from_each_pixel_size() {
    assert_eq!(to_rgb8(&vec![7, 9], 1), Some(vec![7, 7, 7, 9, 9, 9]));
    assert_eq!(to_rgb8(&vec![200, 255, 200, 0], 2), Some(vec![200, 200, 200, 0, 0, 0]));
    assert_eq!(to_rgb8(&vec![1, 2, 3], 3), Some(vec![1, 2, 3]));
    assert_eq!(to_rgb8(&vec![255, 100, 0, 128], 4), Some(vec![128, 50, 0]));
    assert_eq!(to_rgb8(&vec![1, 2, 3], 5), None);
    assert_eq!(to_rgb8(&vec![1, 2, 3], 0), None);
}

fn settings(bits: u8) -> Settings {
    Settings {
        bits,
        normalization: Normalization::Keep,
        reveal: false,
        key: None,
        scramble_key: None,
        unscramble_key: None,
    }
}

#[test]
fn pipeline_refuses_other_dimensions() {
    let mut cover = Image { width: 4, height: 4, channels: 3, samples: vec![5; 48] };
    let hidden = Image { width: 4, height: 5, channels: 3, samples: vec![6; 60] };
    let r = process(&mut cover, &settings(2), Some(&hidden));
    assert_eq!(r, Err(ImageError::DimensionMismatch));
    assert_eq!(cover.samples, vec![5; 48]);
}

#[test]
fn pipeline_refuses_bad_settings() {
    let mut img = Image { width: 1, height: 1, channels: 3, samples: vec![1, 2, 3] };
    assert_eq!(process(&mut img, &settings(0), None), Err(ImageError::InvalidBitWidth));
    let mut s = settings(2);
    s.reveal = true;
    s.normalization = Normalization::Stretch;
    assert_eq!(process(&mut img, &s, None), Err(ImageError::ConflictingModes));
    let mut short = Image { width: 2, height: 1, channels: 3, samples: vec![1, 2, 3] };
    assert_eq!(process(&mut short, &settings(2), None), Err(ImageError::ShapeMismatch));
}

#[test]
fn pipeline_conceals_and_reveals() {
    let mut secret = Image { width: 2, height: 1, channels: 3, samples: vec![255, 0, 170, 90, 255, 0] };
    let cover = Image { width: 2, height: 1, channels: 3, samples: vec![10, 20, 30, 40, 50, 60] };
    assert_eq!(process(&mut secret, &settings(2), Some(&cover)), Ok(()));
    assert_eq!(secret.samples, vec![11, 20, 30, 41, 51, 60]);
    let mut s = settings(2);
    s.reveal = true;
    assert_eq!(process(&mut secret, &s, None), Ok(()));
    assert_eq!(secret.samples, vec![255, 0, 170, 85, 255, 0]);
}

#[test]
fn pipeline_with_key_and_shuffle_round_trips() {
    let before: Vec<u8> = (0..48u32).map(|i| (i * 5) as u8).collect();
    let mut img = Image { width: 4, height: 4, channels: 3, samples: before.clone() };
    let mut s = settings(8);
    s.key = Some(77);
    s.scramble_key = Some(5);
    assert_eq!(process(&mut img, &s, None), Ok(()));
    assert_ne!(img.samples, before);
    let mut back = settings(8);
    back.unscramble_key = Some(5);
    assert_eq!(process(&mut img, &back, None), Ok(()));
    let mut plain = settings(8);
    plain.key = Some(77);
    assert_eq!(process(&mut img, &plain, None), Ok(()));
    assert_eq!(img.samples, before);
}
