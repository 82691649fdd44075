//! Hue, saturation and value, held exactly as ratios of small integers.
//!
//! Hue is `60 * (sector + hue_num / hue_den)` degrees, saturation is
//! `sat_num / sat_den` and value is `val_num / val_den`. With exact ratios the
//! conversion from RGB and back loses nothing.
use crate::depth::{max_level, pow2_of, valid_bits};
use vstd::arithmetic::power2::lemma2_to64;
use vstd::prelude::*;

verus! {

#[derive(Clone, Copy, Debug, PartialEq, Eq, Structural)]
pub struct HSVColor {
    /// Sixty-degree sector of the hue, read modulo six.
    pub sector: u8,
    /// Position of the hue within its sector.
    pub hue_num: u8,
    pub hue_den: u8,
    /// Saturation: chroma over value.
    pub sat_num: u8,
    pub sat_den: u8,
    /// Value: the largest channel over the depth's largest level.
    pub val_num: u8,
    pub val_den: u8,
}

pub open spec fn max3(r: nat, g: nat, b: nat) -> nat {
    if r >= g && r >= b {
        r
    } else if g >= b {
        g
    } else {
        b
    }
}

pub open spec fn min3(r: nat, g: nat, b: nat) -> nat {
    if r <= g && r <= b {
        r
    } else if g <= b {
        g
    } else {
        b
    }
}

/// Sector and offset within it (over chroma) of the hue of an RGB triple,
/// by the six-sector formula; a grey has hue 0.
pub open spec fn hue_parts(r: nat, g: nat, b: nat) -> (nat, nat) {
    let v = max3(r, g, b);
    let c = (v - min3(r, g, b)) as nat;
    if c == 0 {
        (0, 0)
    } else if v == r {
        if g >= b {
            (0, (g - b) as nat)
        } else {
            (5, (c - (b - g)) as nat)
        }
    } else if v == g {
        if b >= r {
            (2, (b - r) as nat)
        } else {
            (1, (c - (r - b)) as nat)
        }
    } else {
        if r >= g {
            (4, (r - g) as nat)
        } else {
            (3, (c - (g - r)) as nat)
        }
    }
}

/// The HSV form of an RGB triple whose channels range over `0..=max_level(depth)`.
pub open spec fn hsv_of(r: u8, g: u8, b: u8, depth: u8) -> HSVColor {
    let v = max3(r as nat, g as nat, b as nat);
    let c = (v - min3(r as nat, g as nat, b as nat)) as nat;
    let (s, k) = hue_parts(r as nat, g as nat, b as nat);
    HSVColor {
        sector: s as u8,
        hue_num: k as u8,
        hue_den: if c == 0 { 1 } else { c as u8 },
        sat_num: c as u8,
        sat_den: if v == 0 { 1 } else { v as u8 },
        val_num: v as u8,
        val_den: max_level(depth as nat) as u8,
    }
}

impl HSVColor {
    /// Every ratio has a positive denominator and lies in `[0, 1]`.
    pub open spec fn wf(&self) -> bool {
        &&& 0 < self.hue_den && self.hue_num <= self.hue_den
        &&& 0 < self.sat_den && self.sat_num <= self.sat_den
        &&& 0 < self.val_den && self.val_num <= self.val_den
    }

    /// Common denominator of the three ratios.
    pub open spec fn denom(&self) -> nat {
        self.val_den as nat * self.sat_den as nat * self.hue_den as nat
    }

    /// The largest channel, over `denom`: value.
    pub open spec fn top(&self) -> nat {
        self.val_num as nat * self.sat_den as nat * self.hue_den as nat
    }

    /// The smallest channel, over `denom`: value less chroma.
    pub open spec fn bottom(&self) -> nat {
        self.val_num as nat * (self.sat_den - self.sat_num) as nat * self.hue_den as nat
    }

    /// The middle channel in a sector where it rises with the hue.
    pub open spec fn rising(&self) -> nat {
        self.val_num as nat * self.sat_num as nat * self.hue_num as nat + self.bottom()
    }

    /// The middle channel in a sector where it falls with the hue.
    pub open spec fn falling(&self) -> nat {
        self.val_num as nat * self.sat_num as nat * (self.hue_den - self.hue_num) as nat
            + self.bottom()
    }

    /// The channels over `denom`, placed by sector (a hue of 360 degrees is sector 0).
    pub open spec fn parts(&self) -> (nat, nat, nat) {
        let s = self.sector % 6;
        if s == 0 {
            (self.top(), self.rising(), self.bottom())
        } else if s == 1 {
            (self.falling(), self.top(), self.bottom())
        } else if s == 2 {
            (self.bottom(), self.top(), self.rising())
        } else if s == 3 {
            (self.bottom(), self.falling(), self.top())
        } else if s == 4 {
            (self.rising(), self.bottom(), self.top())
        } else {
            (self.top(), self.bottom(), self.falling())
        }
    }

    /// The RGB triple at a bit depth: each channel scaled to the depth's
    /// largest level and truncated.
    pub open spec fn rgb(&self, depth: u8) -> (nat, nat, nat) {
        let (r, g, b) = self.parts();
        let n = max_level(depth as nat);
        (r * n / self.denom(), g * n / self.denom(), b * n / self.denom())
    }
}

/// `q * n / d` for a part `q` of at most `d`, narrowed to a byte.
fn scale(q: u64, n: u64, d: u64) -> (r: u8)
    requires
        q <= d,
        0 < d < 0x100_0000,
        n <= 255,
    ensures
        r as nat == q as nat * n as nat / d as nat,
{
    proof {
        assert(q * n <= d * 255) by (nonlinear_arith)
            requires
                q <= d,
                n <= 255,
        ;
        assert((q * n) as int / (d as int) <= n) by (nonlinear_arith)
            requires
                q <= d,
                0 < d,
        ;
    }
    (q * n / d) as u8
}

impl HSVColor {
    /// Converts an RGB triple at bit depth `depth` to its exact HSV form.
    pub fn from_rgb(red: u8, green: u8, blue: u8, depth: u8) -> (h: HSVColor)
        requires
            valid_bits(depth),
            red as nat <= max_level(depth as nat),
            green as nat <= max_level(depth as nat),
            blue as nat <= max_level(depth as nat),
        ensures
            h == hsv_of(red, green, blue, depth),
            h.wf(),
    {
        let n = pow2_of(depth) - 1;
        proof {
            lemma2_to64();
        }
        let v: u8 = if red >= green && red >= blue {
            red
        } else if green >= blue {
            green
        } else {
            blue
        };
        let m: u8 = if red <= green && red <= blue {
            red
        } else if green <= blue {
            green
        } else {
            blue
        };
        let c: u8 = v - m;
        let (sector, k): (u8, u8) = if c == 0 {
            (0, 0)
        } else if v == red {
            if green >= blue {
                (0, green - blue)
            } else {
                (5, c - (blue - green))
            }
        } else if v == green {
            if blue >= red {
                (2, blue - red)
            } else {
                (1, c - (red - blue))
            }
        } else {
            if red >= green {
                (4, red - green)
            } else {
                (3, c - (green - red))
            }
        };
        HSVColor {
            sector,
            hue_num: k,
            hue_den: if c == 0 { 1 } else { c },
            sat_num: c,
            sat_den: if v == 0 { 1 } else { v },
            val_num: v,
            val_den: n as u8,
        }
    }

    /// Converts back to an RGB triple at bit depth `depth`, truncating each channel.
    pub fn to_rgb(&self, depth: u8) -> (r: [u8; 3])
        requires
            self.wf(),
            valid_bits(depth),
        ensures
            r[0] as nat == self.rgb(depth).0,
            r[1] as nat == self.rgb(depth).1,
            r[2] as nat == self.rgb(depth).2,
    {
        let n = (pow2_of(depth) - 1) as u64;
        proof {
            lemma2_to64();
        }
        let vn = self.val_num as u64;
        let vd = self.val_den as u64;
        let sn = self.sat_num as u64;
        let sd = self.sat_den as u64;
        let hn = self.hue_num as u64;
        let hd = self.hue_den as u64;
        proof {
            assert(vd * sd <= 255 * 255) by (nonlinear_arith)
                requires
                    0 < vd <= 255,
                    0 < sd <= 255,
            ;
            assert(vd * sd * hd < 0x100_0000 && 0 < vd * sd * hd) by (nonlinear_arith)
                requires
                    0 < vd <= 255,
                    0 < sd <= 255,
                    0 < hd <= 255,
            ;
            assert(vn * sd <= vd * sd && vn * (sd - sn) <= vd * sd && vn * sn <= vd * sd)
                by (nonlinear_arith)
                requires
                    vn <= vd,
                    sn <= sd,
            ;
            assert(vn * sd * hd <= vd * sd * hd) by (nonlinear_arith)
                requires
                    vn <= vd,
            ;
            assert(vn * (sd - sn) * hd <= vn * sd * hd && vn * sn * hn <= vn * sd * hd
                && vn * sn * (hd - hn) <= vn * sd * hd) by (nonlinear_arith)
                requires
                    sn <= sd,
                    hn <= hd,
            ;
            assert(vn * sn * hn + vn * (sd - sn) * hd <= vn * sd * hd) by (nonlinear_arith)
                requires
                    hn <= hd,
                    sn <= sd,
            ;
            assert(vn * sn * (hd - hn) + vn * (sd - sn) * hd <= vn * sd * hd) by (nonlinear_arith)
                requires
                    hn <= hd,
                    sn <= sd,
            ;
        }
        let d = vd * sd * hd;
        let top = vn * sd * hd;
        let bottom = vn * (sd - sn) * hd;
        let rising = vn * sn * hn + bottom;
        let falling = vn * sn * (hd - hn) + bottom;
        let s = self.sector % 6;
        let (pr, pg, pb) = if s == 0 {
            (top, rising, bottom)
        } else if s == 1 {
            (falling, top, bottom)
        } else if s == 2 {
            (bottom, top, rising)
        } else if s == 3 {
            (bottom, falling, top)
        } else if s == 4 {
            (rising, bottom, top)
        } else {
            (top, bottom, falling)
        };
        [scale(pr, n, d), scale(pg, n, d), scale(pb, n, d)]
    }
}

/// A part whose scaled numerator is an exact multiple of the denominator
/// truncates to that multiple.
proof fn lemma_exact(q: nat, ch: nat, n: nat, d: nat)
    requires
        d > 0,
        q * n == ch * d,
    ensures
        q * n / d == ch,
{
    vstd::arithmetic::div_mod::lemma_div_multiples_vanish(ch as int, d as int);
    assert(d * ch == ch * d) by (nonlinear_arith);
}

/// Each part of a color, scaled by the depth's largest level, is the matching
/// channel times the common denominator.
proof fn lemma_parts_scale(h: HSVColor, n: nat, mn: nat)
    requires
        h.wf(),
        h.val_den == n,
        h.val_num as nat * (h.sat_den - h.sat_num) == mn * h.sat_den,
        h.val_num as nat * h.sat_num * h.hue_num == h.hue_num as nat * h.sat_den * h.hue_den,
        h.sat_num > 0 ==> h.val_num as nat * h.sat_num * (h.hue_den - h.hue_num) == (h.hue_den
            - h.hue_num) as nat * h.sat_den * h.hue_den,
    ensures
        h.top() * n == h.val_num as nat * h.denom(),
        h.bottom() * n == mn * h.denom(),
        h.rising() * n == (mn + h.hue_num) * h.denom(),
        h.sat_num > 0 ==> h.falling() * n == (mn + (h.hue_den - h.hue_num)) * h.denom(),
{
    let vn = h.val_num as int;
    let sd = h.sat_den as int;
    let sn = h.sat_num as int;
    let hd = h.hue_den as int;
    let hn = h.hue_num as int;
    let ni = n as int;
    let m = mn as int;
    let x = ni * sd * hd;
    let bot = vn * (sd - sn) * hd;
    assert(vn * sd * hd * ni == vn * x) by (nonlinear_arith)
        requires
            x == ni * sd * hd,
    ;
    assert(bot * ni == m * x) by (nonlinear_arith)
        requires
            vn * (sd - sn) == m * sd,
            bot == vn * (sd - sn) * hd,
            x == ni * sd * hd,
    ;
    assert(vn * sn * hn * ni == hn * x) by (nonlinear_arith)
        requires
            vn * sn * hn == hn * sd * hd,
            x == ni * sd * hd,
    ;
    if sn > 0 {
        assert(vn * sn * (hd - hn) * ni == (hd - hn) * x) by (nonlinear_arith)
            requires
                vn * sn * (hd - hn) == (hd - hn) * sd * hd,
                x == ni * sd * hd,
        ;
        assert((vn * sn * (hd - hn) + bot) * ni == vn * sn * (hd - hn) * ni + bot * ni)
            by (nonlinear_arith);
        assert((m + (hd - hn)) * x == m * x + (hd - hn) * x) by (nonlinear_arith);
    }
    assert((vn * sn * hn + bot) * ni == vn * sn * hn * ni + bot * ni) by (nonlinear_arith);
    assert((m + hn) * x == m * x + hn * x) by (nonlinear_arith);
}

/// Converting an RGB triple to HSV and back at the same bit depth gives the
/// triple unchanged.
pub proof fn lemma_rgb_round_trip(r: u8, g: u8, b: u8, depth: u8)
    requires
        valid_bits(depth),
        r as nat <= max_level(depth as nat),
        g as nat <= max_level(depth as nat),
        b as nat <= max_level(depth as nat),
    ensures
        hsv_of(r, g, b, depth).rgb(depth) == (r as nat, g as nat, b as nat),
{
    lemma2_to64();
    let h = hsv_of(r, g, b, depth);
    let n = max_level(depth as nat);
    let v = max3(r as nat, g as nat, b as nat);
    let mn = min3(r as nat, g as nat, b as nat);
    let c = (v - mn) as nat;
    assert(h.wf());
    let vn = v as int;
    let ci = c as int;
    let sd = h.sat_den as int;
    let hd = h.hue_den as int;
    let hn = h.hue_num as int;
    if ci == 0 {
        assert(mn == vn);
        assert(hn == 0 && hd == 1);
        assert(vn * (sd - ci) == mn * sd);
        assert(vn * ci * hn == 0) by (nonlinear_arith)
            requires
                ci == 0,
        ;
        assert(hn * sd * hd == 0) by (nonlinear_arith)
            requires
                hn == 0,
        ;
    } else {
        assert(sd == vn && hd == ci);
        assert(vn * (sd - ci) == mn * sd) by (nonlinear_arith)
            requires
                sd == vn,
                mn == vn - ci,
        ;
        assert(vn * ci * hn == hn * sd * hd) by (nonlinear_arith)
            requires
                sd == vn,
                hd == ci,
        ;
        assert(vn * ci * (hd - hn) == (hd - hn) * sd * hd) by (nonlinear_arith)
            requires
                sd == vn,
                hd == ci,
        ;
    }
    lemma_parts_scale(h, n, mn);
    let d = h.denom();
    assert(d > 0) by (nonlinear_arith)
        requires
            d == h.val_den as nat * h.sat_den as nat * h.hue_den as nat,
            h.val_den > 0,
            h.sat_den > 0,
            h.hue_den > 0,
    ;
    lemma_exact(h.top(), v, n, d);
    lemma_exact(h.bottom(), mn, n, d);
    lemma_exact(h.rising(), (mn + h.hue_num) as nat, n, d);
    if c > 0 {
        lemma_exact(h.falling(), (mn + (h.hue_den - h.hue_num)) as nat, n, d);
    }
}

} // verus!
