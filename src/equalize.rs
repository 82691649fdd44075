//! Histogram equalization of an RGB buffer over HSV value.
//!
//! Each pixel's value is replaced by its rank among the distinct values of the
//! image, over the number of distinct values less one; hue and saturation are kept.
use crate::hsv::{hsv_of, max3, min3, HSVColor};
use vstd::arithmetic::div_mod::{
    lemma_div_is_ordered, lemma_div_multiples_vanish_quotient, lemma_fundamental_div_mod,
    lemma_fundamental_div_mod_converse,
};
use vstd::arithmetic::power2::lemma2_to64;
use vstd::prelude::*;

verus! {

/// HSV value (as a level out of 255) of pixel `p` of an RGB buffer.
pub open spec fn pixel_value(s: Seq<u8>, p: int) -> nat {
    max3(s[3 * p] as nat, s[3 * p + 1] as nat, s[3 * p + 2] as nat)
}

/// Whether some pixel of the buffer has value `x`.
pub open spec fn present(s: Seq<u8>, x: nat) -> bool {
    exists|p: int| 0 <= p < s.len() / 3 && #[trigger] pixel_value(s, p) == x
}

/// How many distinct pixel values lie below `lim`.
pub open spec fn count_present(s: Seq<u8>, lim: nat) -> nat
    decreases lim,
{
    if lim == 0 {
        0
    } else {
        count_present(s, (lim - 1) as nat) + if present(s, (lim - 1) as nat) {
            1nat
        } else {
            0nat
        }
    }
}

/// The equalized value of pixel value `v`, as numerator and denominator:
/// its rank among the distinct values over their number less one, or 0 when
/// there is a single value.
pub open spec fn cdf(s: Seq<u8>, v: nat) -> (nat, nat) {
    let u = count_present(s, 256);
    if u <= 1 {
        (0, 1)
    } else {
        (count_present(s, v), (u - 1) as nat)
    }
}

/// The HSV form of pixel `p` at depth 8, with its value equalized.
pub open spec fn equalized_pixel(s: Seq<u8>, p: int) -> HSVColor {
    let h = crate::hsv::hsv_of(s[3 * p], s[3 * p + 1], s[3 * p + 2], 8);
    let (num, den) = cdf(s, pixel_value(s, p));
    HSVColor { val_num: num as u8, val_den: den as u8, ..h }
}

/// The equalized buffer.
pub open spec fn equalized(s: Seq<u8>) -> Seq<u8> {
    Seq::new(
        s.len(),
        |i: int|
            {
                let c = equalized_pixel(s, i / 3).rgb(8);
                (if i % 3 == 0 {
                    c.0
                } else if i % 3 == 1 {
                    c.1
                } else {
                    c.2
                }) as u8
            },
    )
}

proof fn lemma_count_bounds(s: Seq<u8>, a: nat, b: nat)
    requires
        a <= b,
    ensures
        count_present(s, a) <= count_present(s, b),
        count_present(s, b) <= b,
        a < b && present(s, a) ==> count_present(s, a) + 1 <= count_present(s, b),
    decreases b,
{
    if b > 0 {
        if a < b {
            lemma_count_bounds(s, a, (b - 1) as nat);
        } else {
            lemma_count_bounds(s, (b - 1) as nat, (b - 1) as nat);
        }
    }
}

/// Equalizes the HSV value of every pixel of an RGB buffer, keeping hue and saturation.
pub fn equalize(buf: &mut Vec<u8>)
    requires
        old(buf)@.len() % 3 == 0,
    ensures
        final(buf)@ == equalized(old(buf)@),
{
    proof {
        lemma2_to64();
    }
    let n = buf.len();
    let ghost s = buf@;
    let mut seen: Vec<bool> = Vec::new();
    let mut x: usize = 0;
    while x < 256
        invariant
            x <= 256,
            seen@.len() == x,
            forall|y: int| 0 <= y < x ==> !seen@[y],
        decreases 256 - x,
    {
        seen.push(false);
        x += 1;
    }
    let mut p: usize = 0;
    while p < n / 3
        invariant
            s == buf@,
            n == s.len(),
            n % 3 == 0,
            p <= n / 3,
            seen@.len() == 256,
            forall|y: int|
                0 <= y < 256 ==> (seen@[y] <==> exists|q: int|
                    0 <= q < p && #[trigger] pixel_value(s, q) == y),
        decreases n / 3 - p,
    {
        let r = buf[3 * p];
        let g = buf[3 * p + 1];
        let b = buf[3 * p + 2];
        let v: u8 = if r >= g && r >= b {
            r
        } else if g >= b {
            g
        } else {
            b
        };
        assert(v as nat == pixel_value(s, p as int));
        seen.set(v as usize, true);
        p += 1;
    }
    let mut rank: Vec<u16> = Vec::new();
    let mut count: u16 = 0;
    let mut y: usize = 0;
    while y < 256
        invariant
            n == s.len(),
            y <= 256,
            seen@.len() == 256,
            forall|z: int| 0 <= z < 256 ==> (seen@[z] <==> present(s, z as nat)),
            rank@.len() == y,
            count as nat == count_present(s, y as nat),
            forall|z: int| 0 <= z < y ==> rank@[z] as nat == count_present(s, z as nat),
        decreases 256 - y,
    {
        proof {
            lemma_count_bounds(s, y as nat, y as nat);
        }
        rank.push(count);
        if seen[y] {
            count += 1;
        }
        y += 1;
    }
    let u = count;
    proof {
        lemma_count_bounds(s, 256, 256);
    }
    let mut i: usize = 0;
    while i < n
        invariant
            n == s.len(),
            n % 3 == 0,
            i % 3 == 0,
            i <= n,
            buf@.len() == n,
            rank@.len() == 256,
            u as nat == count_present(s, 256),
            u <= 256,
            forall|z: int| 0 <= z < 256 ==> rank@[z] as nat == count_present(s, z as nat),
            forall|k: int| 0 <= k < i ==> buf@[k] == #[trigger] equalized(s)[k],
            forall|k: int| i <= k < n ==> buf@[k] == s[k],
        decreases n - i,
    {
        let r = buf[i];
        let g = buf[i + 1];
        let b = buf[i + 2];
        let ghost p = (i / 3) as int;
        assert(3 * p == i);
        proof {
            lemma2_to64();
        }
        let mut h = HSVColor::from_rgb(r, g, b, 8);
        let v = h.val_num as usize;
        proof {
            assert(v as nat == pixel_value(s, p));
            assert(present(s, v as nat));
            lemma_count_bounds(s, v as nat, 256);
        }
        if u <= 1 {
            h.val_num = 0;
            h.val_den = 1;
        } else {
            h.val_num = rank[v] as u8;
            h.val_den = (u - 1) as u8;
        }
        assert(h == equalized_pixel(s, p));
        let c = h.to_rgb(8);
        buf.set(i, c[0]);
        buf.set(i + 1, c[1]);
        buf.set(i + 2, c[2]);
        assert((i + 1) / 3 == p && (i + 1) % 3 == 1);
        assert((i + 2) / 3 == p && (i + 2) % 3 == 2);
        i += 3;
    }
    assert(buf@ =~= equalized(s));
}

/// Channel `ch` of a pixel whose largest channel is `v`, once its HSV value
/// is set to `num / den` at depth 8.
pub open spec fn revalued(ch: nat, v: nat, num: nat, den: nat) -> nat {
    if v == 0 {
        num * 255 / den
    } else {
        num * ch * 255 / (den * v)
    }
}

/// A part `num * x` over `den * w` scales like the channel it stands for.
proof fn lemma_part(num: nat, den: nat, x: nat, ch: nat, v: nat, w: nat)
    requires
        den > 0,
        v > 0,
        w > 0,
        v * x == ch * w,
    ensures
        (num * x * 255) / (den * w) == (num * ch * 255) / (den * v),
{
    let a = (num * x * 255) as int;
    let b = (num * ch * 255) as int;
    assert(den * w > 0 && den * v > 0) by (nonlinear_arith)
        requires
            den > 0,
            v > 0,
            w > 0,
    ;
    lemma_div_multiples_vanish_quotient(v as int, a, (den * w) as int);
    lemma_div_multiples_vanish_quotient(w as int, b, (den * v) as int);
    assert(v * a == w * b) by (nonlinear_arith)
        requires
            v * x == ch * w,
            a == num * x * 255,
            b == num * ch * 255,
    ;
    assert(v * (den * w) == w * (den * v)) by (nonlinear_arith);
}

/// Setting the HSV value of a depth-8 pixel to `num / den` scales each
/// channel by `num / den` over the pixel's largest channel.
proof fn lemma_revalued(r: u8, g: u8, b: u8, num: u8, den: u8)
    requires
        0 < den,
        num <= den,
    ensures
        ({
            let v = max3(r as nat, g as nat, b as nat);
            let h = HSVColor { val_num: num, val_den: den, ..hsv_of(r, g, b, 8) };
            h.rgb(8) == (
                revalued(r as nat, v, num as nat, den as nat),
                revalued(g as nat, v, num as nat, den as nat),
                revalued(b as nat, v, num as nat, den as nat),
            )
        }),
{
    lemma2_to64();
    let h0 = hsv_of(r, g, b, 8);
    let h = HSVColor { val_num: num, val_den: den, ..h0 };
    let v = max3(r as nat, g as nat, b as nat);
    let mn = min3(r as nat, g as nat, b as nat);
    let c = (v - mn) as nat;
    let sd = h.sat_den as nat;
    let hd = h.hue_den as nat;
    let hn = h.hue_num as nat;
    let nu = num as nat;
    let w = sd * hd;
    let x_top = sd * hd;
    let x_bot = ((sd - c) as nat) * hd;
    let x_rise = c * hn + x_bot;
    let x_fall = c * ((hd - hn) as nat) + x_bot;
    assert(h.top() == nu * x_top && h.bottom() == nu * x_bot && h.rising() == nu * x_rise
        && h.falling() == nu * x_fall) by (nonlinear_arith)
        requires
            h.val_num == nu,
            h.sat_num == c,
            h.sat_den == sd,
            h.hue_den == hd,
            h.hue_num == hn,
            hn <= hd,
            c <= sd,
            x_top == sd * hd,
            x_bot == ((sd - c) as nat) * hd,
            x_rise == c * hn + x_bot,
            x_fall == c * ((hd - hn) as nat) + x_bot,
    ;
    assert(h.denom() == den * w) by (nonlinear_arith)
        requires
            h.val_den == den,
            h.sat_den == sd,
            h.hue_den == hd,
            w == sd * hd,
    ;
    assert(w > 0) by (nonlinear_arith)
        requires
            sd > 0,
            hd > 0,
            w == sd * hd,
    ;
    if v == 0 {
        assert(c == 0 && sd == 1 && hd == 1 && hn == 0);
        assert(x_top == 1 && x_bot == 1 && x_rise == 1 && w == 1);
        assert(nu * 1 * 255 / (den as nat * 1) == nu * 255 / (den as nat)) by (nonlinear_arith);
    } else {
        let vi = v as int;
        let ci = c as int;
        let sdi = sd as int;
        let hdi = hd as int;
        let hni = hn as int;
        assert(sdi == vi);
        if ci == 0 {
            assert(hni == 0 && hdi == 1);
            assert(mn == v);
        } else {
            assert(hdi == ci);
        }
        assert(v * x_top == v * w) by (nonlinear_arith)
            requires
                x_top == w,
        ;
        assert(v * x_bot == mn * w) by (nonlinear_arith)
            requires
                x_bot == ((sd - c) as nat) * hd,
                sd == v,
                mn == v - c,
                w == sd * hd,
        ;
        assert(v * x_rise == (mn + hn) * w) by (nonlinear_arith)
            requires
                x_rise == c * hn + x_bot,
                v * x_bot == mn * w,
                sd == v,
                c == 0 ==> hn == 0,
                c > 0 ==> hd == c,
                w == sd * hd,
        ;
        lemma_part(nu, den as nat, x_top, v, v, w);
        lemma_part(nu, den as nat, x_bot, mn, v, w);
        lemma_part(nu, den as nat, x_rise, (mn + hn) as nat, v, w);
        if c > 0 {
            assert(v * x_fall == (mn + (hd - hn)) * w) by (nonlinear_arith)
                requires
                    x_fall == c * ((hd - hn) as nat) + x_bot,
                    v * x_bot == mn * w,
                    sd == v,
                    hd == c,
                    hn <= hd,
                    w == sd * hd,
            ;
            lemma_part(nu, den as nat, x_fall, (mn + (hd - hn)) as nat, v, w);
        }
    }
}

/// Rank `j` of `m + 1` distinct values spread onto 0..=255.
pub open spec fn level(j: nat, m: nat) -> nat {
    j * 255 / m
}

/// How many of the ranks below `k` spread to a level below `lim`.
pub open spec fn count_levels(k: nat, m: nat, lim: nat) -> nat
    decreases k,
{
    if k == 0 {
        0
    } else {
        count_levels((k - 1) as nat, m, lim) + if level((k - 1) as nat, m) < lim {
            1nat
        } else {
            0nat
        }
    }
}

proof fn lemma_level_increases(j: nat, k: nat, m: nat)
    requires
        1 <= m <= 255,
        j < k,
    ensures
        level(j, m) < level(k, m),
        k <= m ==> level(k, m) <= 255,
{
    let x = (j * 255) as int;
    let mi = m as int;
    lemma_fundamental_div_mod(x, mi);
    let q = x / mi;
    let r = x % mi;
    assert(x + mi == (q + 1) * mi + r) by (nonlinear_arith)
        requires
            x == mi * q + r,
    ;
    lemma_fundamental_div_mod_converse(x + mi, mi, q + 1, r);
    assert(x + mi <= k * 255) by (nonlinear_arith)
        requires
            j < k,
            x == j * 255,
            mi <= 255,
    ;
    lemma_div_is_ordered(x + mi, (k * 255) as int, mi);
    if k <= m {
        assert(k * 255 <= m * 255) by (nonlinear_arith)
            requires
                k <= m,
        ;
        lemma_div_is_ordered((k * 255) as int, (m * 255) as int, mi);
        vstd::arithmetic::div_mod::lemma_div_multiples_vanish(255, mi);
        assert(mi * 255 == m * 255);
    }
}

proof fn lemma_levels_below_rank(k: nat, m: nat, rho: nat)
    requires
        1 <= m <= 255,
    ensures
        count_levels(k, m, level(rho, m)) == if k <= rho { k } else { rho },
    decreases k,
{
    if k > 0 {
        lemma_levels_below_rank((k - 1) as nat, m, rho);
        if k - 1 < rho {
            lemma_level_increases((k - 1) as nat, rho, m);
        } else if k - 1 > rho {
            lemma_level_increases(rho, (k - 1) as nat, m);
        }
    }
}

proof fn lemma_levels_all(k: nat, m: nat)
    requires
        1 <= m <= 255,
        k <= m + 1,
    ensures
        count_levels(k, m, 256) == k,
    decreases k,
{
    if k > 0 {
        lemma_levels_all((k - 1) as nat, m);
        if k - 1 > 0 {
            lemma_level_increases(0, (k - 1) as nat, m);
        } else {
            assert(level(0, m) == 0);
        }
    }
}

proof fn lemma_levels_step(k: nat, m: nat, lim: nat)
    requires
        1 <= m <= 255,
    ensures
        count_levels(k, m, lim + 1) == count_levels(k, m, lim) + if exists|j: nat|
            j < k && #[trigger] level(j, m) == lim {
            1nat
        } else {
            0nat
        },
    decreases k,
{
    if k > 0 {
        lemma_levels_step((k - 1) as nat, m, lim);
        if exists|j: nat| j < k - 1 && #[trigger] level(j, m) == lim {
            let j = choose|j: nat| j < k - 1 && #[trigger] level(j, m) == lim;
            lemma_level_increases(j, (k - 1) as nat, m);
        }
        if exists|j: nat| j < k && #[trigger] level(j, m) == lim {
            let j = choose|j: nat| j < k && #[trigger] level(j, m) == lim;
            if j != k - 1 {
                assert(j < k - 1);
            }
        }
    }
}

/// Every rank below the count of distinct values under `lim` is the rank of
/// some present value under `lim`.
proof fn lemma_ranks_onto(s: Seq<u8>, lim: nat, j: nat)
    requires
        j < count_present(s, lim),
    ensures
        exists|x: nat| x < lim && present(s, x) && #[trigger] count_present(s, x) == j,
    decreases lim,
{
    if lim > 0 {
        let l1 = (lim - 1) as nat;
        if j < count_present(s, l1) {
            lemma_ranks_onto(s, l1, j);
            let x = choose|x: nat| x < l1 && present(s, x) && #[trigger] count_present(s, x) == j;
            assert(x < lim && present(s, x) && count_present(s, x) == j);
        } else {
            assert(present(s, l1) && count_present(s, l1) == j);
        }
    }
}

/// The samples of pixel `p` of the equalized buffer, and its value.
proof fn lemma_equalized_pixel(s: Seq<u8>, p: int)
    requires
        s.len() % 3 == 0,
        0 <= p < s.len() / 3,
    ensures
        ({
            let t = equalized(s);
            let v = pixel_value(s, p);
            let (num, den) = cdf(s, v);
            &&& num <= den
            &&& 0 < den <= 255
            &&& t[3 * p] as nat == revalued(s[3 * p] as nat, v, num, den)
            &&& t[3 * p + 1] as nat == revalued(s[3 * p + 1] as nat, v, num, den)
            &&& t[3 * p + 2] as nat == revalued(s[3 * p + 2] as nat, v, num, den)
            &&& pixel_value(t, p) == num * 255 / den
        }),
{
    lemma2_to64();
    let t = equalized(s);
    let v = pixel_value(s, p);
    let (num, den) = cdf(s, v);
    assert(present(s, v));
    lemma_count_bounds(s, v, 256);
    assert(v <= 255);
    lemma_count_bounds(s, 256, 256);
    assert(num <= den && 0 < den <= 255);
    let r = s[3 * p];
    let g = s[3 * p + 1];
    let b = s[3 * p + 2];
    lemma_revalued(r, g, b, num as u8, den as u8);
    assert(equalized_pixel(s, p) == HSVColor {
        val_num: num as u8,
        val_den: den as u8,
        ..hsv_of(r, g, b, 8)
    });
    assert((3 * p) / 3 == p && (3 * p) % 3 == 0);
    assert((3 * p + 1) / 3 == p && (3 * p + 1) % 3 == 1);
    assert((3 * p + 2) / 3 == p && (3 * p + 2) % 3 == 2);
    let top = num * 255 / den;
    assert(top <= 255) by (nonlinear_arith)
        requires
            num <= den,
            den > 0,
            top == num * 255 / den,
    ;
    assert forall|ch: nat| ch <= v implies #[trigger] revalued(ch, v, num, den) <= top && (ch == v
        ==> revalued(ch, v, num, den) == top) by {
        if v > 0 {
            assert(num * ch * 255 <= num * v * 255) by (nonlinear_arith)
                requires
                    ch <= v,
            ;
            assert(den * v > 0) by (nonlinear_arith)
                requires
                    den > 0,
                    v > 0,
            ;
            lemma_div_is_ordered((num * ch * 255) as int, (num * v * 255) as int, (den * v) as int);
            lemma_div_multiples_vanish_quotient(v as int, (num * 255) as int, den as int);
            assert(v * (num * 255) == num * v * 255) by (nonlinear_arith);
            assert(v * den == den * v) by (nonlinear_arith);
        }
    }
    assert(revalued(r as nat, v, num, den) <= top);
    assert(revalued(g as nat, v, num, den) <= top);
    assert(revalued(b as nat, v, num, den) <= top);
}

/// Spreading ranks onto 0..=255 and reading them back at full value keeps
/// each channel: the second step of equalizing twice.
proof fn lemma_floor_fixed(n: nat, m: nat, a: nat)
    requires
        m > 0,
        n / m >= 1,
        a <= n / m,
    ensures
        n * a / (m * (n / m)) == a,
{
    let f = n / m;
    lemma_fundamental_div_mod(n as int, m as int);
    let mf = m * f;
    let rem = n % m;
    assert(n < m * (f + 1)) by (nonlinear_arith)
        requires
            n == m * f + rem,
            rem < m,
    ;
    assert(mf > 0) by (nonlinear_arith)
        requires
            m > 0,
            f >= 1,
            mf == m * f,
    ;
    assert(a * mf <= n * a) by (nonlinear_arith)
        requires
            mf == m * f,
            m * f <= n,
    ;
    assert(n * a < (a + 1) * mf) by (nonlinear_arith)
        requires
            mf == m * f,
            n < m * (f + 1),
            a <= f,
            mf > 0,
    ;
    assert((a + 1) * mf == a * mf + mf) by (nonlinear_arith);
    lemma_fundamental_div_mod_converse((n * a) as int, mf as int, a as int, (n * a - a * mf) as int);
}

/// With at least two distinct values, the values of the equalized buffer are
/// exactly the levels of the ranks.
proof fn lemma_present_levels(s: Seq<u8>, y: nat)
    requires
        s.len() % 3 == 0,
        count_present(s, 256) >= 2,
    ensures
        present(equalized(s), y) <==> exists|j: nat|
            j < count_present(s, 256) && #[trigger] level(j, (count_present(s, 256) - 1) as nat)
                == y,
{
    let t = equalized(s);
    let u = count_present(s, 256);
    let m = (u - 1) as nat;
    if present(t, y) {
        let p = choose|p: int| 0 <= p < t.len() / 3 && #[trigger] pixel_value(t, p) == y;
        lemma_equalized_pixel(s, p);
        let v = pixel_value(s, p);
        assert(present(s, v));
        lemma_count_bounds(s, v, 256);
        assert(v < 256) by {
            lemma2_to64();
        }
        let j = count_present(s, v);
        assert(j < u && level(j, m) == y);
    }
    if exists|j: nat| j < u && #[trigger] level(j, m) == y {
        let j = choose|j: nat| j < u && #[trigger] level(j, m) == y;
        lemma_ranks_onto(s, 256, j);
        let x = choose|x: nat| x < 256 && present(s, x) && #[trigger] count_present(s, x) == j;
        let p = choose|p: int| 0 <= p < s.len() / 3 && #[trigger] pixel_value(s, p) == x;
        lemma_equalized_pixel(s, p);
        assert(pixel_value(t, p) == y);
        assert(present(t, y));
    }
}

proof fn lemma_count_equalized(s: Seq<u8>, lim: nat)
    requires
        s.len() % 3 == 0,
        count_present(s, 256) >= 2,
        count_present(s, 256) <= 256,
    ensures
        count_present(equalized(s), lim) == count_levels(
            count_present(s, 256),
            (count_present(s, 256) - 1) as nat,
            lim,
        ),
    decreases lim,
{
    let u = count_present(s, 256);
    let m = (u - 1) as nat;
    if lim == 0 {
        lemma_levels_below_rank(u, m, 0);
        assert(level(0, m) == 0);
    } else {
        let l1 = (lim - 1) as nat;
        lemma_count_equalized(s, l1);
        lemma_levels_step(u, m, l1);
        lemma_present_levels(s, l1);
    }
}

/// Equalizing a buffer that is already equalized changes nothing.
pub proof fn lemma_equalize_idempotent(s: Seq<u8>)
    requires
        s.len() % 3 == 0,
    ensures
        equalized(equalized(s)) == equalized(s),
{
    lemma2_to64();
    let t = equalized(s);
    let u = count_present(s, 256);
    lemma_count_bounds(s, 256, 256);
    if u >= 2 {
        let m = (u - 1) as nat;
        lemma_count_equalized(s, 256);
        lemma_levels_all(u, m);
    } else {
        assert forall|x: nat| present(t, x) implies x == 0 by {
            let p = choose|p: int| 0 <= p < t.len() / 3 && #[trigger] pixel_value(t, p) == x;
            lemma_equalized_pixel(s, p);
        }
        lemma_count_at_most_one(t, 256);
    }
    let ut = count_present(t, 256);
    assert forall|i: int| 0 <= i < t.len() implies #[trigger] equalized(t)[i] == t[i] by {
        let p = i / 3;
        assert(0 <= p < s.len() / 3);
        assert(i == 3 * p + i % 3);
        lemma_equalized_pixel(s, p);
        lemma_equalized_pixel(t, p);
        let v = pixel_value(s, p);
        let f = pixel_value(t, p);
        let (num, den) = cdf(s, v);
        let (num2, den2) = cdf(t, f);
        if u >= 2 {
            let m = (u - 1) as nat;
            assert(present(s, v));
            lemma_count_bounds(s, v, 256);
            assert(v < 256);
            lemma_levels_below_rank(u, m, num);
            lemma_count_equalized(s, f);
            assert(num2 == num && den2 == den);
            let a = t[i] as nat;
            let ch = s[i] as nat;
            if f == 0 {
                assert(a == 0);
            } else {
                if v == 0 {
                    assert(a == f);
                } else {
                    assert(ch <= v);
                    assert(a == num * ch * 255 / (den * v));
                    assert(num * ch * 255 <= num * v * 255) by (nonlinear_arith)
                        requires
                            ch <= v,
                    ;
                    assert(den * v > 0) by (nonlinear_arith)
                        requires
                            den > 0,
                            v > 0,
                    ;
                    lemma_div_is_ordered((num * ch * 255) as int, (num * v * 255) as int, (den * v) as int);
                    lemma_div_multiples_vanish_quotient(v as int, (num * 255) as int, den as int);
                    assert(v * (num * 255) == num * v * 255) by (nonlinear_arith);
                    assert(v * den == den * v) by (nonlinear_arith);
                    assert(a <= f);
                }
                lemma_floor_fixed(num * 255, den, a);
                assert(num * a * 255 == num * 255 * a) by (nonlinear_arith);
            }
        } else {
            assert(num == 0 && den == 1);
            assert(num2 == 0 && den2 == 1);
            assert(t[i] == 0);
        }
    }
    assert(equalized(t) =~= t);
}

proof fn lemma_count_at_most_one(t: Seq<u8>, lim: nat)
    requires
        forall|x: nat| present(t, x) ==> x == 0,
    ensures
        count_present(t, lim) <= 1,
    decreases lim,
{
    if lim > 1 {
        lemma_count_at_most_one(t, (lim - 1) as nat);
        assert(!present(t, (lim - 1) as nat));
    } else if lim == 1 {
        assert(count_present(t, 0) == 0);
    }
}

} // verus!
