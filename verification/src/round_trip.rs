use crate::color::{
    channel, chroma, fold, hsv_of, hue_of, lemma_ratio_bounds, max3, min3, rgb_of,
    saturation_of, secondary, value_of, RgbPixel,
};
use crate::fixed::ONE;
use vstd::arithmetic::div_mod::lemma_fundamental_div_mod;
use vstd::prelude::*;

verus! {

proof fn lemma_product_order(a: int, b: int, c: int, d: int)
    by (nonlinear_arith)
    requires
        0 <= a <= c,
        0 <= b <= d,
    ensures
        a * b <= c * d,
{
}

proof fn lemma_cancel_factor(q: int, a: int, b: int)
    by (nonlinear_arith)
    requires
        q > 0,
        q * a <= q * b,
    ensures
        a <= b,
{
}

/// A component that lies within a few thousand millionths of a whole channel level comes
/// out as that level or the one below it.
proof fn lemma_channel_near_level(t: int, level: int)
    requires
        0 <= level <= 255,
        level * ONE - 3000 <= 255 * t <= level * ONE + 3000,
    ensures
        level - 1 <= channel(t) <= level,
{
    let q = t * 255 / (ONE as int);
    lemma_fundamental_div_mod(t * 255, ONE as int);
}

/// The chroma, rebuilt from saturation and value, is the spread of the channels over 255,
/// up to rounding.
proof fn lemma_chroma_near_spread(top: int, d: int)
    requires
        1 <= d <= top <= 255,
    ensures
        ({
            let v = top * ONE / 255;
            let s = d * ONE / top;
            let c = s * v / (ONE as int);
            &&& top * ONE - 254 <= 255 * v <= top * ONE
            &&& 0 <= s <= ONE
            &&& d * ONE - 764 <= 255 * c <= d * ONE
        }),
{
    let unit = 1_000_000int;
    let v = top * ONE / 255;
    let s = d * ONE / top;
    let c = s * v / (ONE as int);
    lemma_fundamental_div_mod(top * ONE, 255);
    lemma_fundamental_div_mod(d * ONE, top);
    lemma_fundamental_div_mod(s * v, ONE as int);
    lemma_ratio_bounds(d, top);
    let p = top * s;
    let q = 255 * v;
    let pp = d * unit;
    let qq = top * unit;
    assert(p <= pp <= p + top - 1);
    assert(q <= qq <= q + 254);
    assert(0 <= p) by (nonlinear_arith)
        requires
            p == top * s,
            top >= 1,
            s >= 0,
    ;
    let sv = s * v;
    assert(unit * c <= sv <= unit * c + unit - 1);
    assert(p * q == 255 * (top * sv)) by (nonlinear_arith)
        requires
            p == top * s,
            q == 255 * v,
            sv == s * v,
    ;
    assert(qq * (255 * c) == 255 * (top * (unit * c))) by (nonlinear_arith)
        requires
            qq == top * unit,
    ;
    assert(top * (unit * c) <= top * sv <= top * (unit * c) + top * (unit - 1))
        by (nonlinear_arith)
        requires
            unit * c <= sv <= unit * c + unit - 1,
            top >= 1,
    ;
    // above: the chroma is at most the spread
    lemma_product_order(p, q, pp, qq);
    assert(pp * qq == qq * pp) by (nonlinear_arith);
    lemma_cancel_factor(qq, 255 * c, pp);
    // below: it misses the spread by little
    lemma_product_order(pp - top + 1, qq - 254, p, q);
    assert((pp - top + 1) * (qq - 254) == pp * qq - 254 * pp - (top - 1) * qq + 254 * (top - 1))
        by (nonlinear_arith);
    assert(255 * (top * (unit - 1)) <= 255 * qq) by (nonlinear_arith)
        requires
            qq == top * unit,
            top >= 1,
    ;
    assert((top - 1) * qq + 255 * qq + 254 * pp <= 764 * qq) by (nonlinear_arith)
        requires
            1 <= top <= 255,
            0 <= pp <= qq,
    ;
    assert(qq * (pp - 764) == pp * qq - 764 * qq) by (nonlinear_arith);
    lemma_cancel_factor(qq, pp - 764, 255 * c);
}

/// The three levels that come back for a colour whose largest channel is `top`, whose
/// channels spread over `d`, and whose middle channel stands `k` above the smallest,
/// where `t` is the folded hue: `k` over `d`, rounded down or up.
proof fn lemma_levels(top: int, d: int, k: int, t: int)
    requires
        0 <= d <= top <= 255,
        0 <= k <= d,
        0 <= t <= ONE,
        -(d - 1) <= d * t - k * ONE <= d - 1 || d == 0,
    ensures
        ({
            let v = value_of_top(top);
            let s = saturation_of_spread(top, d);
            let c = chroma(s, v);
            let x = c * t / (ONE as int);
            let m = v - c;
            &&& 0 <= v <= ONE
            &&& 0 <= s <= ONE
            &&& top - 1 <= channel(c + m) <= top
            &&& top - d - 1 <= channel(m) <= top - d
            &&& top - d + k - 1 <= channel(x + m) <= top - d + k
            &&& t == 0 ==> x == 0
            &&& t == ONE ==> x == c
        }),
{
    let unit = 1_000_000int;
    let v = value_of_top(top);
    let s = saturation_of_spread(top, d);
    let c = chroma(s, v);
    let x = c * t / (ONE as int);
    let m = v - c;
    lemma_fundamental_div_mod(top * ONE, 255);
    if d == 0 {
        assert(s == 0);
        assert(s * v == 0) by (nonlinear_arith)
            requires
                s == 0,
        ;
        assert(c == 0);
        assert(c * t == 0) by (nonlinear_arith)
            requires
                c == 0,
        ;
        assert(x == 0);
        lemma_channel_near_level(m, top);
    } else {
        lemma_chroma_near_spread(top, d);
        lemma_fundamental_div_mod(c * t, ONE as int);
        let ct = c * t;
        let cc = 255 * c;
        let dt = d * t;
        let pp = d * unit;
        assert(0 <= cc <= pp);
        assert(0 <= ct) by (nonlinear_arith)
            requires
                ct == c * t,
                c >= 0,
                t >= 0,
        ;
        assert(unit * x <= ct <= unit * x + unit - 1);
        assert(x >= 0);
        assert(cc * dt == 255 * (d * ct)) by (nonlinear_arith)
            requires
                cc == 255 * c,
                dt == d * t,
                ct == c * t,
        ;
        assert(pp * (255 * x) == 255 * (d * (unit * x))) by (nonlinear_arith)
            requires
                pp == d * unit,
        ;
        assert(d * (unit * x) <= d * ct <= d * (unit * x) + d * (unit - 1)) by (nonlinear_arith)
            requires
                unit * x <= ct <= unit * x + unit - 1,
                d >= 1,
        ;
        assert(0 <= dt) by (nonlinear_arith)
            requires
                dt == d * t,
                d >= 1,
                t >= 0,
        ;
        // above
        lemma_product_order(cc, dt, pp, k * unit + d - 1);
        assert(pp * (k * unit + d - 1) == pp * (k * unit + 254) - pp * (255 - d))
            by (nonlinear_arith);
        assert(pp * (255 - d) >= 0) by (nonlinear_arith)
            requires
                pp >= 0,
                d <= 255,
        ;
        lemma_cancel_factor(pp, 255 * x, k * unit + 254);
        // below
        if k >= 1 {
            lemma_product_order(pp - 764, k * unit - d + 1, cc, dt);
            assert((pp - 764) * (k * unit - d + 1) == pp * (k * unit) - pp * (d - 1) - 764 * (k
                * unit) + 764 * (d - 1)) by (nonlinear_arith);
            assert(pp * (d - 1) + 764 * (k * unit) + 255 * (d * (unit - 1)) <= 1500 * pp)
                by (nonlinear_arith)
                requires
                    pp == d * unit,
                    1 <= d <= 255,
                    1 <= k <= d,
                    unit == 1_000_000,
            ;
            assert(pp * (k * unit - 1500) == pp * (k * unit) - 1500 * pp) by (nonlinear_arith);
            lemma_cancel_factor(pp, k * unit - 1500, 255 * x);
        }
        assert(k * unit - 1500 <= 255 * x <= k * unit + 254);
        lemma_channel_near_level(c + m, top);
        lemma_channel_near_level(m, top - d);
        lemma_channel_near_level(x + m, top - d + k);
        if t == 0 {
            assert(ct == 0) by (nonlinear_arith)
                requires
                    ct == c * t,
                    t == 0,
            ;
        }
        if t == ONE {
            assert(ct == unit * c) by (nonlinear_arith)
                requires
                    ct == c * t,
                    t == unit,
            ;
        }
    }
}

/// The value of a colour whose largest channel is `top`.
spec fn value_of_top(top: int) -> int {
    top * ONE / 255
}

/// The saturation of a colour whose largest channel is `top` and whose channels spread
/// over `d`.
spec fn saturation_of_spread(top: int, d: int) -> int {
    if top > 0 {
        d * ONE / top
    } else {
        0
    }
}

/// A quotient that was rounded down, read as a folded hue.
proof fn lemma_fold_of_quotient(n: int, d: int)
    requires
        1 <= d <= 255,
        -d <= n <= d,
    ensures
        ({
            let q = n * ONE / d;
            let k = if n >= 0 {
                n
            } else {
                -n
            };
            let t = if q >= 0 {
                q
            } else {
                -q
            };
            &&& -ONE <= q <= ONE
            &&& n > 0 ==> q > 0
            &&& n == 0 ==> q == 0
            &&& n < 0 ==> q < 0
            &&& n == d ==> q == ONE
            &&& n == -d ==> q == -ONE
            &&& n < d ==> q < ONE
            &&& n > -d ==> q > -ONE
            &&& -(d - 1) <= d * t - k * ONE <= d - 1
        }),
{
    let q = n * ONE / d;
    let r = n * ONE % d;
    lemma_fundamental_div_mod(n * ONE, d);
    lemma_ratio_bounds(n, d);
    assert(n == -d ==> q == -1_000_000) by (nonlinear_arith)
        requires
            n * 1_000_000 == d * q + r,
            0 <= r < d,
            d >= 1,
    ;
    assert(n == 0 ==> q == 0) by (nonlinear_arith)
        requires
            n * 1_000_000 == d * q + r,
            0 <= r < d,
            d >= 1,
    ;
    assert(d * (-q) == -(d * q)) by (nonlinear_arith);
}

/// Turning a colour to hue, saturation and value and back gives every channel as it was
/// or one level lower. The one exception is a colour whose hue comes out as 0 although it
/// is no grey (red on top, green and blue equal): the way back takes the hue 0 for a
/// grey, and all three channels come out at the level of green and blue.
pub proof fn lemma_rgb_round_trip(p: RgbPixel)
    ensures
        rgb_of(hsv_of(p)) is Ok,
        ({
            let o = rgb_of(hsv_of(p)).unwrap();
            if p.r > p.g && p.g == p.b {
                o.r == o.g && o.g == o.b && p.g - 1 <= o.g <= p.g
            } else {
                &&& p.r - 1 <= o.r <= p.r
                &&& p.g - 1 <= o.g <= p.g
                &&& p.b - 1 <= o.b <= p.b
            }
        }),
{
    let r = p.r as int;
    let g = p.g as int;
    let b = p.b as int;
    let top = max3(r, g, b);
    let low = min3(r, g, b);
    let d = top - low;
    let unit = ONE as int;
    let h = hue_of(r, g, b);
    let s = saturation_of(r, g, b);
    let v = value_of(r, g, b);
    assert(s == saturation_of_spread(top, d));
    assert(v == value_of_top(top));
    let c = chroma(s, v);
    let x = secondary(c, h);
    let m = v - c;
    if d == 0 {
        lemma_levels(top, 0, 0, 0);
        assert(h == 0);
    } else if r >= g && r >= b {
        lemma_fold_of_quotient(g - b, d);
        let q = (g - b) * ONE / d;
        if g == b {
            lemma_levels(top, d, 0, 0);
            assert(h == 0);
        } else if g > b {
            assert(h == q);
            assert(fold(h) == q);
            lemma_levels(top, d, g - b, q);
        } else {
            assert(h == 6 * unit + q);
            assert(fold(h) == -q);
            lemma_levels(top, d, b - g, -q);
        }
    } else if g >= r && g >= b {
        lemma_fold_of_quotient(b - r, d);
        let q = (b - r) * ONE / d;
        assert(h == 2 * unit + q);
        if b >= r {
            assert(fold(h) == q);
            lemma_levels(top, d, b - r, q);
        } else {
            assert(fold(h) == -q);
            lemma_levels(top, d, r - b, -q);
        }
    } else {
        lemma_fold_of_quotient(r - g, d);
        let q = (r - g) * ONE / d;
        assert(h == 4 * unit + q);
        if r >= g {
            assert(fold(h) == q);
            lemma_levels(top, d, r - g, q);
        } else {
            assert(fold(h) == -q);
            lemma_levels(top, d, g - r, -q);
        }
    }
}

/// Turning a colour to hue, saturation and value and back moves no channel by more than
/// one level. Left out are only the colours on which this fails: those with red on top
/// and green and blue equal for which red comes back more than one level lower.
pub proof fn lemma_rgb_round_trip_within_one(p: RgbPixel)
    requires
        p.r > p.g && p.g == p.b ==> p.r - rgb_of(hsv_of(p)).unwrap().r <= 1,
    ensures
        rgb_of(hsv_of(p)) is Ok,
        ({
            let o = rgb_of(hsv_of(p)).unwrap();
            &&& -1 <= o.r - p.r <= 1
            &&& -1 <= o.g - p.g <= 1
            &&& -1 <= o.b - p.b <= 1
        }),
{
    lemma_rgb_round_trip(p);
}

} // verus!
