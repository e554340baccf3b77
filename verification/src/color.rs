//! Color-space machinery: RGBA byte colors, an integer HSV representation,
//! gamma correction, circular-hue averaging, and nearest-palette matching.
//!
//! All conversions are exact integer arithmetic so that every function has a
//! precise contract. Hue is stored in 1/256ths of a sextant, i.e. the full
//! circle is `6 * 256 = 1536` units; saturation and value are bytes.

use vstd::prelude::*;

verus! {

use vstd::arithmetic::div_mod::{
    lemma_div_is_ordered,
    lemma_div_multiples_vanish,
    lemma_div_pos_is_pos,
};
use vstd::arithmetic::mul::lemma_mul_is_commutative;

/// Full hue circle in hue units (six sextants of 256 units each).
pub const HUE_FULL: u16 = 1536;

/// An RGBA color, one byte per channel.
#[derive(Clone, Copy, Debug, PartialEq, Eq, Structural)]
pub struct Rgba {
    pub r: u8,
    pub g: u8,
    pub b: u8,
    pub a: u8,
}

/// A color in HSV space with the alpha channel carried through.
/// `h` lies in `[0, HUE_FULL)`; `s` and `v` are bytes; `a` is the alpha byte.
#[derive(Clone, Copy, Debug, PartialEq, Eq, Structural)]
pub struct Hsv {
    pub h: u16,
    pub s: u8,
    pub v: u8,
    pub a: u8,
}

/// A well-formed HSV value: the hue lies on the circle.
pub open spec fn hsv_wf(c: Hsv) -> bool {
    c.h < 1536
}

pub open spec fn iabs(x: int) -> int {
    if x >= 0 {
        x
    } else {
        -x
    }
}

pub open spec fn max3(a: int, b: int, c: int) -> int {
    if a >= b && a >= c {
        a
    } else if b >= c {
        b
    } else {
        c
    }
}

pub open spec fn min3(a: int, b: int, c: int) -> int {
    if a <= b && a <= c {
        a
    } else if b <= c {
        b
    } else {
        c
    }
}

/// Hue of an RGBA color, in `[0, 1536)`; gray (zero delta) maps to hue 0.
pub open spec fn hue_spec(c: Rgba) -> int {
    let r = c.r as int;
    let g = c.g as int;
    let b = c.b as int;
    let mx = max3(r, g, b);
    let mn = min3(r, g, b);
    let d = mx - mn;
    if d == 0 {
        0
    } else if mx == r {
        if g >= b {
            256 * (g - b) / d
        } else {
            1536 - 256 * (b - g) / d
        }
    } else if mx == g {
        if b >= r {
            512 + 256 * (b - r) / d
        } else {
            512 - 256 * (r - b) / d
        }
    } else {
        if r >= g {
            1024 + 256 * (r - g) / d
        } else {
            1024 - 256 * (g - r) / d
        }
    }
}

/// Saturation of an RGBA color, scaled to `[0, 255]`.
pub open spec fn sat_spec(c: Rgba) -> int {
    let mx = max3(c.r as int, c.g as int, c.b as int);
    let mn = min3(c.r as int, c.g as int, c.b as int);
    if mx == 0 {
        0
    } else {
        255 * (mx - mn) / mx
    }
}

/// Value of an RGBA color: the largest channel.
pub open spec fn val_spec(c: Rgba) -> int {
    max3(c.r as int, c.g as int, c.b as int)
}

/// The HSV image of an RGBA color under the exact integer conversion.
pub open spec fn rgb_to_hsv_spec(c: Rgba) -> Hsv {
    Hsv { h: hue_spec(c) as u16, s: sat_spec(c) as u8, v: val_spec(c) as u8, a: c.a }
}

/// The HSV image of every RGBA color is well-formed.
pub proof fn lemma_rgb_to_hsv_wf(c: Rgba)
    ensures
        hsv_wf(rgb_to_hsv_spec(c)),
        rgb_to_hsv_spec(c).h == hue_spec(c),
        rgb_to_hsv_spec(c).s == sat_spec(c),
        rgb_to_hsv_spec(c).v == val_spec(c),
{
    lemma_hue_spec_range(c);
    lemma_sat_spec_range(c);
}

/// The HSV representation of a whole palette, entry by entry.
pub open spec fn colorset_hsv(colors: Seq<Rgba>) -> Seq<Hsv> {
    colors.map_values(|c: Rgba| rgb_to_hsv_spec(c))
}

/// For `0 <= a <= d`, the scaled ratio `k * a / d` lies in `[0, k]`, and is at
/// least one when `a` is.
proof fn lemma_scaled_ratio(k: int, a: int, d: int)
    requires
        0 < d <= k,
        0 <= a <= d,
    ensures
        0 <= k * a / d <= k,
        a >= 1 ==> k * a / d >= 1,
{
    assert(k * a <= k * d) by (nonlinear_arith)
        requires a <= d, k >= 0;
    lemma_div_is_ordered(k * a, k * d, d);
    lemma_div_multiples_vanish(k, d);
    lemma_mul_is_commutative(k, d);
    lemma_div_pos_is_pos(k * a, d);
    assert(k * a >= 0) by (nonlinear_arith)
        requires k >= 0, a >= 0;
    if a >= 1 {
        assert(k <= k * a) by (nonlinear_arith)
            requires k >= 0, a >= 1;
        assert(d * 1 == d);
        lemma_div_multiples_vanish(1, d);
        lemma_div_is_ordered(d, k * a, d);
    }
}

proof fn lemma_hue_spec_range(c: Rgba)
    ensures
        0 <= hue_spec(c) < 1536,
{
    let r = c.r as int;
    let g = c.g as int;
    let b = c.b as int;
    let mx = max3(r, g, b);
    let mn = min3(r, g, b);
    let d = mx - mn;
    if d != 0 {
        if mx == r {
            if g >= b {
                lemma_scaled_ratio(256, g - b, d);
            } else {
                lemma_scaled_ratio(256, b - g, d);
            }
        } else if mx == g {
            if b >= r {
                lemma_scaled_ratio(256, b - r, d);
            } else {
                lemma_scaled_ratio(256, r - b, d);
            }
        } else {
            if r >= g {
                lemma_scaled_ratio(256, r - g, d);
            } else {
                lemma_scaled_ratio(256, g - r, d);
            }
        }
    }
}

proof fn lemma_sat_spec_range(c: Rgba)
    ensures
        0 <= sat_spec(c) <= 255,
{
    let mx = max3(c.r as int, c.g as int, c.b as int);
    let mn = min3(c.r as int, c.g as int, c.b as int);
    if mx != 0 {
        lemma_scaled_ratio(255, mx - mn, mx);
    }
}

/// Exact integer RGB-to-HSV conversion; alpha is carried through unchanged.
pub fn rgb2hsv(c: Rgba) -> (h: Hsv)
    ensures
        h == rgb_to_hsv_spec(c),
        hsv_wf(h),
{
    proof {
        lemma_hue_spec_range(c);
        lemma_sat_spec_range(c);
    }
    let r = c.r as u32;
    let g = c.g as u32;
    let b = c.b as u32;
    let mx: u32 = if r >= g && r >= b {
        r
    } else if g >= b {
        g
    } else {
        b
    };
    let mn: u32 = if r <= g && r <= b {
        r
    } else if g <= b {
        g
    } else {
        b
    };
    let d: u32 = mx - mn;
    let hue: u32 = if d == 0 {
        0
    } else if mx == r {
        if g >= b {
            256 * (g - b) / d
        } else {
            1536 - 256 * (b - g) / d
        }
    } else if mx == g {
        if b >= r {
            512 + 256 * (b - r) / d
        } else {
            512 - 256 * (r - b) / d
        }
    } else {
        if r >= g {
            1024 + 256 * (r - g) / d
        } else {
            1024 - 256 * (g - r) / d
        }
    };
    let sat: u32 = if mx == 0 {
        0
    } else {
        255 * d / mx
    };
    Hsv { h: hue as u16, s: sat as u8, v: mx as u8, a: c.a }
}

/// Largest `r` with `r * r <= n`.
pub open spec fn isqrt_spec(n: int, r: int) -> bool {
    r * r <= n < (r + 1) * (r + 1)
}

/// Integer square root by binary search.
pub fn isqrt(n: u32) -> (r: u32)
    ensures
        isqrt_spec(n as int, r as int),
{
    let mut lo: u32 = 0;
    let mut hi: u32 = 65536;
    while lo + 1 < hi
        invariant
            lo < hi <= 65536,
            (lo * lo) as int <= n as int,
            n < (hi as int) * (hi as int),
        decreases hi - lo,
    {
        let mid: u32 = lo + (hi - lo) / 2;
        proof {
            assert(mid < hi);
            assert((mid as int) * (mid as int) <= 65536 * 65536) by (nonlinear_arith)
                requires 0 <= mid as int <= 65536;
            assert((hi as int - 1) * (hi as int - 1) <= 65536 * 65536) by (nonlinear_arith)
                requires 0 <= hi as int - 1 <= 65536;
        }
        if (mid as u64) * (mid as u64) <= n as u64 {
            lo = mid;
        } else {
            hi = mid;
        }
    }
    lo
}

/// One channel of the gamma curve: the display value of a linear byte, under
/// a display gamma of two (`255 * (x / 255) ^ (1/2) = sqrt(255 * x)`).
pub open spec fn gamma_channel_spec(x: int, y: int) -> bool {
    y * y <= 255 * x < (y + 1) * (y + 1)
}

/// Gamma-corrects one channel.
pub fn gamma_channel(x: u8) -> (y: u8)
    ensures
        gamma_channel_spec(x as int, y as int),
{
    let y = isqrt(255 * (x as u32));
    proof {
        assert(y as int * (y as int) <= 255 * 255);
        if y as int > 255 {
            assert(y as int * (y as int) >= 256 * 256) by (nonlinear_arith)
                requires y as int >= 256;
        }
    }
    y as u8
}

/// Applies the fixed gamma curve to the three color channels of a
/// linearly-averaged color; the alpha channel is not gamma-corrected.
pub open spec fn gamma_correct_spec(c: Rgba, o: Rgba) -> bool {
    &&& gamma_channel_spec(c.r as int, o.r as int)
    &&& gamma_channel_spec(c.g as int, o.g as int)
    &&& gamma_channel_spec(c.b as int, o.b as int)
    &&& o.a == c.a
}

pub fn gamma_correct(c: Rgba) -> (o: Rgba)
    ensures
        gamma_correct_spec(c, o),
{
    Rgba { r: gamma_channel(c.r), g: gamma_channel(c.g), b: gamma_channel(c.b), a: c.a }
}

/// For `0 <= m <= d`, the product ratio `v * m / d` lies in `[0, v]`.
proof fn lemma_product_ratio(v: int, m: int, d: int)
    requires
        0 < d,
        0 <= m <= d,
        0 <= v,
    ensures
        0 <= v * m / d <= v,
{
    assert(v * m <= v * d) by (nonlinear_arith)
        requires m <= d, v >= 0;
    lemma_div_is_ordered(v * m, v * d, d);
    lemma_div_multiples_vanish(v, d);
    lemma_mul_is_commutative(v, d);
    lemma_div_pos_is_pos(v * m, d);
    assert(v * m >= 0) by (nonlinear_arith)
        requires v >= 0, m >= 0;
}

/// The RGBA image of an HSV color under the exact integer conversion.
/// The hue circle splits into six sextants of 256 units each; within a
/// sextant the channels interpolate linearly.
pub open spec fn hsv_to_rgb_spec(c: Hsv) -> Rgba {
    let h = c.h as int;
    let s = c.s as int;
    let v = c.v as int;
    if s == 0 {
        Rgba { r: c.v, g: c.v, b: c.v, a: c.a }
    } else {
        let i = h / 256;
        let f = h % 256;
        let p = (v * (255 - s) / 255) as u8;
        let q = (v * (65280 - s * f) / 65280) as u8;
        let t = (v * (65280 - s * (256 - f)) / 65280) as u8;
        if i == 0 {
            Rgba { r: c.v, g: t, b: p, a: c.a }
        } else if i == 1 {
            Rgba { r: q, g: c.v, b: p, a: c.a }
        } else if i == 2 {
            Rgba { r: p, g: c.v, b: t, a: c.a }
        } else if i == 3 {
            Rgba { r: p, g: q, b: c.v, a: c.a }
        } else if i == 4 {
            Rgba { r: t, g: p, b: c.v, a: c.a }
        } else {
            Rgba { r: c.v, g: p, b: q, a: c.a }
        }
    }
}

/// Exact integer HSV-to-RGB conversion; alpha is carried through unchanged.
pub fn hsv2rgb(c: Hsv) -> (o: Rgba)
    requires
        hsv_wf(c),
    ensures
        o == hsv_to_rgb_spec(c),
{
    let h = c.h as u32;
    let s = c.s as u32;
    let v = c.v as u32;
    if s == 0 {
        return Rgba { r: c.v, g: c.v, b: c.v, a: c.a };
    }
    let i: u32 = h / 256;
    let f: u32 = h % 256;
    proof {
        assert((s as int) * (f as int) <= 65280 && 0 <= (s as int) * (f as int))
            by (nonlinear_arith)
            requires 0 <= s as int <= 255, 0 <= f as int <= 255;
        assert((s as int) * (256 - f as int) <= 65280 && 0 <= (s as int) * (256 - f as int))
            by (nonlinear_arith)
            requires 0 <= s as int <= 255, 0 <= f as int <= 255;
        lemma_product_ratio(v as int, 255 - s, 255);
        lemma_product_ratio(v as int, 65280 - (s as int) * (f as int), 65280);
        lemma_product_ratio(v as int, 65280 - (s as int) * (256 - f as int), 65280);
    }
    let p: u8 = (v * (255 - s) / 255) as u8;
    let q: u8 = (v * (65280 - s * f) / 65280) as u8;
    let t: u8 = (v * (65280 - s * (256 - f)) / 65280) as u8;
    if i == 0 {
        Rgba { r: c.v, g: t, b: p, a: c.a }
    } else if i == 1 {
        Rgba { r: q, g: c.v, b: p, a: c.a }
    } else if i == 2 {
        Rgba { r: p, g: c.v, b: t, a: c.a }
    } else if i == 3 {
        Rgba { r: p, g: q, b: c.v, a: c.a }
    } else if i == 4 {
        Rgba { r: t, g: p, b: c.v, a: c.a }
    } else {
        Rgba { r: c.v, g: p, b: q, a: c.a }
    }
}

/// Squared distance between two HSV colors: the hue difference is taken the
/// short way around the circle; saturation and value differences are scaled by
/// six so that their full range weighs like the hue range. Alpha is ignored.
pub open spec fn hsv_dist(a: Hsv, b: Hsv) -> int {
    let dh0 = iabs(a.h - b.h);
    let dh = if 1536 - dh0 < dh0 {
        1536 - dh0
    } else {
        dh0
    };
    let ds = 6 * iabs(a.s - b.s);
    let dv = 6 * iabs(a.v - b.v);
    dh * dh + ds * ds + dv * dv
}

pub fn hsv_distance(a: &Hsv, b: &Hsv) -> (d: u32)
    requires
        hsv_wf(*a),
        hsv_wf(*b),
    ensures
        d == hsv_dist(*a, *b),
{
    let dh0: u32 = if a.h >= b.h {
        (a.h - b.h) as u32
    } else {
        (b.h - a.h) as u32
    };
    let dh: u32 = if 1536 - dh0 < dh0 {
        1536 - dh0
    } else {
        dh0
    };
    let ds: u32 = 6 * (if a.s >= b.s {
        (a.s - b.s) as u32
    } else {
        (b.s - a.s) as u32
    });
    let dv: u32 = 6 * (if a.v >= b.v {
        (a.v - b.v) as u32
    } else {
        (b.v - a.v) as u32
    });
    proof {
        assert((dh as int) * (dh as int) <= 1535 * 1535) by (nonlinear_arith)
            requires 0 <= dh as int <= 1535;
        assert((ds as int) * (ds as int) <= 1530 * 1530) by (nonlinear_arith)
            requires 0 <= ds as int <= 1530;
        assert((dv as int) * (dv as int) <= 1530 * 1530) by (nonlinear_arith)
            requires 0 <= dv as int <= 1530;
    }
    dh * dh + ds * ds + dv * dv
}

/// The representative of hue `h` on the half-open arc of length 1536 that is
/// centered 768 units past `ref_h`, shifted up by 768 so that it is never
/// negative: `shifted_hue(h, ref_h) - 768` is the value congruent to `h`
/// modulo 1536 that lies in `[ref_h - 768, ref_h + 768)`.
pub open spec fn shifted_hue(h: int, ref_h: int) -> int {
    ref_h + (h + 2304 - ref_h) % 1536
}

pub open spec fn sum_shifted_hue(cs: Seq<Rgba>, ref_h: int) -> int
    decreases cs.len(),
{
    if cs.len() == 0 {
        0
    } else {
        sum_shifted_hue(cs.drop_last(), ref_h) + shifted_hue(hue_spec(cs.last()), ref_h)
    }
}

pub open spec fn sum_sat(cs: Seq<Rgba>) -> int
    decreases cs.len(),
{
    if cs.len() == 0 {
        0
    } else {
        sum_sat(cs.drop_last()) + sat_spec(cs.last())
    }
}

pub open spec fn sum_val(cs: Seq<Rgba>) -> int
    decreases cs.len(),
{
    if cs.len() == 0 {
        0
    } else {
        sum_val(cs.drop_last()) + val_spec(cs.last())
    }
}

pub open spec fn sum_alpha(cs: Seq<Rgba>) -> int
    decreases cs.len(),
{
    if cs.len() == 0 {
        0
    } else {
        sum_alpha(cs.drop_last()) + cs.last().a as int
    }
}

/// The HSV mean of a non-empty list of RGBA colors: hue is averaged on the
/// circle, with every hue represented on the arc centered at the first
/// color's hue; saturation, value and alpha are averaged linearly. All means
/// round down.
pub open spec fn hsv_average_spec(cs: Seq<Rgba>) -> Hsv
    recommends
        cs.len() > 0,
{
    let ref_h = hue_spec(cs[0]);
    let n = cs.len() as int;
    Hsv {
        h: ((sum_shifted_hue(cs, ref_h) / n + 768) % 1536) as u16,
        s: (sum_sat(cs) / n) as u8,
        v: (sum_val(cs) / n) as u8,
        a: (sum_alpha(cs) / n) as u8,
    }
}

proof fn lemma_sum_bounds(cs: Seq<Rgba>, ref_h: int)
    requires
        0 <= ref_h < 1536,
    ensures
        0 <= sum_shifted_hue(cs, ref_h) <= cs.len() * 3071,
        0 <= sum_sat(cs) <= cs.len() * 255,
        0 <= sum_val(cs) <= cs.len() * 255,
        0 <= sum_alpha(cs) <= cs.len() * 255,
    decreases cs.len(),
{
    if cs.len() > 0 {
        lemma_sum_bounds(cs.drop_last(), ref_h);
        lemma_hue_spec_range(cs.last());
        lemma_sat_spec_range(cs.last());
    }
}

/// The HSV mean of a non-empty list of sampled colors; used by the lossy
/// merger to resolve one region's color.
pub fn hsv_average(colors: &Vec<Rgba>) -> (avg: Hsv)
    requires
        1 <= colors@.len() <= 0x2000_0000,
    ensures
        avg == hsv_average_spec(colors@),
        hsv_wf(avg),
{
    let first = rgb2hsv(colors[0]);
    let ref_h: u32 = first.h as u32;
    proof {
        lemma_hue_spec_range(colors@[0]);
    }
    let n = colors.len();
    let mut sum_h: u64 = 0;
    let mut sum_s: u64 = 0;
    let mut sum_v: u64 = 0;
    let mut sum_a: u64 = 0;
    for k in 0..n
        invariant
            n == colors@.len(),
            1 <= n <= 0x2000_0000,
            ref_h == hue_spec(colors@[0]),
            0 <= ref_h < 1536,
            sum_h == sum_shifted_hue(colors@.take(k as int), ref_h as int),
            sum_s == sum_sat(colors@.take(k as int)),
            sum_v == sum_val(colors@.take(k as int)),
            sum_a == sum_alpha(colors@.take(k as int)),
    {
        proof {
            lemma_sum_bounds(colors@.take(k as int), ref_h as int);
            lemma_hue_spec_range(colors@[k as int]);
            lemma_sat_spec_range(colors@[k as int]);
            assert(colors@.take(k + 1).drop_last() =~= colors@.take(k as int));
            assert(colors@.take(k + 1).last() == colors@[k as int]);
        }
        let c = rgb2hsv(colors[k]);
        let sh: u32 = ref_h + (c.h as u32 + 2304 - ref_h) % 1536;
        sum_h = sum_h + sh as u64;
        sum_s = sum_s + c.s as u64;
        sum_v = sum_v + c.v as u64;
        sum_a = sum_a + c.a as u64;
    }
    proof {
        assert(colors@.take(n as int) =~= colors@);
        lemma_sum_bounds(colors@, ref_h as int);
        lemma_div_is_ordered(sum_h as int, (n as int) * 3071, n as int);
        vstd::arithmetic::div_mod::lemma_div_by_multiple(3071, n as int);
        lemma_div_is_ordered(sum_s as int, (n as int) * 255, n as int);
        lemma_div_is_ordered(sum_v as int, (n as int) * 255, n as int);
        lemma_div_is_ordered(sum_a as int, (n as int) * 255, n as int);
        vstd::arithmetic::div_mod::lemma_div_by_multiple(255, n as int);
        lemma_div_pos_is_pos(sum_h as int, n as int);
        lemma_div_pos_is_pos(sum_s as int, n as int);
        lemma_div_pos_is_pos(sum_v as int, n as int);
        lemma_div_pos_is_pos(sum_a as int, n as int);
    }
    let nn: u64 = n as u64;
    let mean_h: u64 = sum_h / nn;
    let h_out: u64 = (mean_h + 768) % 1536;
    Hsv {
        h: h_out as u16,
        s: (sum_s / nn) as u8,
        v: (sum_v / nn) as u8,
        a: (sum_a / nn) as u8,
    }
}

/// Converts a palette of RGBA reference colors into its HSV representation,
/// entry by entry.
pub fn convert_colorset_to_hsv(colorset: &Vec<Rgba>) -> (out: Vec<Hsv>)
    ensures
        out@.len() == colorset@.len(),
        forall|i: int|
            0 <= i < colorset@.len() ==> out@[i] == rgb_to_hsv_spec(
                #[trigger] colorset@[i],
            ),
        out@ == colorset_hsv(colorset@),
        forall|i: int| 0 <= i < out@.len() ==> hsv_wf(#[trigger] out@[i]),
{
    let mut out: Vec<Hsv> = Vec::new();
    let n = colorset.len();
    for k in 0..n
        invariant
            n == colorset@.len(),
            out@.len() == k,
            forall|i: int| 0 <= i < k ==> out@[i] == rgb_to_hsv_spec(#[trigger] colorset@[i]),
    {
        out.push(rgb2hsv(colorset[k]));
    }
    proof {
        assert(out@ =~= colorset_hsv(colorset@));
        assert forall|i: int| 0 <= i < out@.len() implies hsv_wf(#[trigger] out@[i]) by {
            lemma_rgb_to_hsv_wf(colorset@[i]);
        }
    }
    out
}

/// `idx` is the index of the entry of `cs` nearest to `c` under `hsv_dist`,
/// with ties broken by the lowest index: no entry is nearer, and every
/// earlier entry is strictly farther.
pub open spec fn is_first_argmin(cs: Seq<Hsv>, c: Hsv, idx: int) -> bool {
    &&& 0 <= idx < cs.len()
    &&& forall|j: int|
        0 <= j < cs.len() ==> hsv_dist(cs[idx], c) <= hsv_dist(#[trigger] cs[j], c)
    &&& forall|j: int| 0 <= j < idx ==> hsv_dist(#[trigger] cs[j], c) > hsv_dist(cs[idx], c)
}

/// Only one index can be the tie-broken nearest entry: the nearest-palette
/// index is a function of the palette and the color.
pub proof fn lemma_first_argmin_unique(cs: Seq<Hsv>, c: Hsv, i1: int, i2: int)
    requires
        is_first_argmin(cs, c, i1),
        is_first_argmin(cs, c, i2),
    ensures
        i1 == i2,
{
    if i1 < i2 {
        assert(hsv_dist(cs[i1], c) > hsv_dist(cs[i2], c));
        assert(hsv_dist(cs[i1], c) <= hsv_dist(cs[i2], c));
    } else if i2 < i1 {
        assert(hsv_dist(cs[i2], c) > hsv_dist(cs[i1], c));
        assert(hsv_dist(cs[i2], c) <= hsv_dist(cs[i1], c));
    }
}

/// The squared HSV distance is nonnegative, and zero exactly between colors
/// that agree in hue, saturation and value.
pub proof fn lemma_dist_zero(a: Hsv, b: Hsv)
    requires
        hsv_wf(a),
        hsv_wf(b),
    ensures
        hsv_dist(a, b) >= 0,
        hsv_dist(a, b) == 0 <==> (a.h == b.h && a.s == b.s && a.v == b.v),
{
    let dh0 = iabs(a.h - b.h);
    let dh = if 1536 - dh0 < dh0 {
        1536 - dh0
    } else {
        dh0
    };
    let ds = 6 * iabs(a.s - b.s);
    let dv = 6 * iabs(a.v - b.v);
    assert(dh * dh >= 0 && ds * ds >= 0 && dv * dv >= 0) by (nonlinear_arith);
    assert(dh >= 1 ==> dh * dh >= 1) by (nonlinear_arith);
    assert(ds >= 1 ==> ds * ds >= 1) by (nonlinear_arith);
    assert(dv >= 1 ==> dv * dv >= 1) by (nonlinear_arith);
    if a.h == b.h && a.s == b.s && a.v == b.v {
        assert(dh == 0 && ds == 0 && dv == 0);
        assert(dh * dh == 0 && ds * ds == 0 && dv * dv == 0) by (nonlinear_arith)
            requires dh == 0, ds == 0, dv == 0;
    } else {
        if a.h != b.h {
            assert(1 <= dh0 <= 1535);
            assert(dh >= 1);
        } else if a.s != b.s {
            assert(ds >= 6);
        } else {
            assert(dv >= 6);
        }
        assert(hsv_dist(a, b) >= 1);
    }
}

/// A palette color always matches itself: if `cs[i]` has no earlier
/// duplicate in hue, saturation and value, then the nearest-palette index of
/// `cs[i]` is `i`.
pub proof fn lemma_palette_self_match(cs: Seq<Hsv>, i: int, idx: int)
    requires
        0 <= i < cs.len(),
        forall|k: int| 0 <= k < cs.len() ==> hsv_wf(#[trigger] cs[k]),
        forall|j: int|
            0 <= j < i ==> !((#[trigger] cs[j]).h == cs[i].h && cs[j].s == cs[i].s && cs[j].v
                == cs[i].v),
        is_first_argmin(cs, cs[i], idx),
    ensures
        idx == i,
{
    lemma_dist_zero(cs[i], cs[i]);
    assert(hsv_dist(cs[idx], cs[i]) <= hsv_dist(cs[i], cs[i]));
    lemma_dist_zero(cs[idx], cs[i]);
    if idx < i {
        assert(cs[idx].h == cs[i].h && cs[idx].s == cs[i].s && cs[idx].v == cs[i].v);
        assert(false);
    } else if idx > i {
        assert(hsv_dist(cs[i], cs[i]) > hsv_dist(cs[idx], cs[i]));
        assert(false);
    }
}

/// The index of the palette entry nearest to `color`: minimal `hsv_dist`,
/// ties broken by the lowest index.
pub fn match_hsv_to_colorset(colorset: &Vec<Hsv>, color: &Hsv) -> (idx: usize)
    requires
        colorset@.len() >= 1,
        forall|i: int| 0 <= i < colorset@.len() ==> hsv_wf(#[trigger] colorset@[i]),
        hsv_wf(*color),
    ensures
        is_first_argmin(colorset@, *color, idx as int),
{
    let mut best: usize = 0;
    let mut best_d: u32 = hsv_distance(&colorset[0], color);
    let n = colorset.len();
    for k in 1..n
        invariant
            n == colorset@.len(),
            n >= 1,
            best < k <= n,
            forall|i: int| 0 <= i < n ==> hsv_wf(#[trigger] colorset@[i]),
            hsv_wf(*color),
            best_d == hsv_dist(colorset@[best as int], *color),
            forall|j: int|
                0 <= j < k ==> best_d <= hsv_dist(#[trigger] colorset@[j], *color),
            forall|j: int|
                0 <= j < best ==> hsv_dist(#[trigger] colorset@[j], *color) > best_d,
    {
        let d = hsv_distance(&colorset[k], color);
        if d < best_d {
            best = k;
            best_d = d;
        }
    }
    best
}

} // verus!
