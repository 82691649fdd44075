//! Flattening decoded pixels of 1 to 4 samples into plain RGB.
use vstd::prelude::*;

verus! {

/// A foreground sample composited with coverage `a` over a black background.
pub open spec fn over_black(f: u8, a: u8) -> nat {
    f as nat * a as nat / 255
}

/// The RGB triple for one decoded pixel: grey is repeated, grey with alpha
/// and RGBA are composited over black, RGB is kept.
pub open spec fn rgb_pixel(px: Seq<u8>) -> Seq<u8> {
    if px.len() == 1 {
        seq![px[0], px[0], px[0]]
    } else if px.len() == 2 {
        let g = over_black(px[0], px[1]) as u8;
        seq![g, g, g]
    } else if px.len() == 3 {
        px
    } else {
        seq![
            over_black(px[0], px[3]) as u8,
            over_black(px[1], px[3]) as u8,
            over_black(px[2], px[3]) as u8,
        ]
    }
}

/// Composites one sample over black.
fn composite(f: u8, a: u8) -> (r: u8)
    ensures
        r as nat == over_black(f, a),
{
    proof {
        assert(f as nat * a as nat / 255 <= 255) by (nonlinear_arith)
            requires
                f <= 255,
                a <= 255,
        ;
    }
    ((f as u16 * a as u16) / 255) as u8
}

/// Turns decoded pixels of `samples` samples each (1 to 4) into RGB, three
/// samples per pixel; `None` for any other pixel size. A trailing partial
/// pixel is dropped.
pub fn to_rgb8(buf: &Vec<u8>, samples: usize) -> (r: Option<Vec<u8>>)
    ensures
        r is None <==> !(1 <= samples <= 4),
        r is Some ==> r->0@.len() == 3 * (buf@.len() / samples as nat) && forall|p: int|
            0 <= p < buf@.len() / samples as nat ==> #[trigger] r->0@.subrange(3 * p, 3 * p + 3)
                == rgb_pixel(buf@.subrange(samples * p, samples * p + samples)),
{
    if samples < 1 || samples > 4 {
        return None;
    }
    let len = buf.len();
    let pixels = len / samples;
    let mut out: Vec<u8> = Vec::new();
    let mut p: usize = 0;
    while p < pixels
        invariant
            1 <= samples <= 4,
            len == buf@.len(),
            pixels == buf@.len() / samples as nat,
            p <= pixels,
            out@.len() == 3 * p,
            forall|q: int|
                0 <= q < p ==> #[trigger] out@.subrange(3 * q, 3 * q + 3) == rgb_pixel(
                    buf@.subrange(samples * q, samples * q + samples),
                ),
        decreases pixels - p,
    {
        proof {
            assert(samples * p + samples <= buf@.len()) by (nonlinear_arith)
                requires
                    p < pixels,
                    pixels == buf@.len() / samples as nat,
                    samples >= 1,
            ;
        }
        assert(samples * p + samples <= len);
        let at = samples * p;
        let ghost px = buf@.subrange(at as int, at + samples);
        let (r, g, b) = if samples == 1 {
            (buf[at], buf[at], buf[at])
        } else if samples == 2 {
            let y = composite(buf[at], buf[at + 1]);
            (y, y, y)
        } else if samples == 3 {
            (buf[at], buf[at + 1], buf[at + 2])
        } else {
            let a = buf[at + 3];
            (composite(buf[at], a), composite(buf[at + 1], a), composite(buf[at + 2], a))
        };
        let ghost before = out@;
        out.push(r);
        out.push(g);
        out.push(b);
        proof {
            assert(out@.subrange(3 * p as int, 3 * p + 3) =~= rgb_pixel(px));
            assert forall|q: int| 0 <= q < p + 1 implies #[trigger] out@.subrange(3 * q, 3 * q + 3)
                == rgb_pixel(buf@.subrange(samples * q, samples * q + samples)) by {
                if q < p {
                    assert(out@.subrange(3 * q, 3 * q + 3) =~= before.subrange(3 * q, 3 * q + 3));
                }
            }
        }
        p += 1;
    }
    Some(out)
}

} // verus!
