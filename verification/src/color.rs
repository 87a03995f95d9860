use crate::error::PixelateError;
use crate::fixed::{floor_div, ONE};
use vstd::prelude::*;
use vstd::std_specs::convert::{FromSpecImpl, TryFromSpecImpl};

verus! {

/// A colour of three 8-bit channels: red, green, blue.
#[derive(Debug, Copy, Clone, PartialEq, Eq, Structural)]
pub struct RgbPixel {
    pub r: u8,
    pub g: u8,
    pub b: u8,
}

/// A colour as hue, saturation and value, in millionths: the hue counts sectors, from 0
/// to `6 * ONE`; saturation and value run from 0 to `ONE`.
#[derive(Debug, Copy, Clone, PartialEq, Eq, Structural)]
pub struct HsvPixel {
    pub h: i32,
    pub s: i32,
    pub v: i32,
}

/// The largest of three channels.
pub open spec fn max3(r: int, g: int, b: int) -> int {
    if r >= g && r >= b {
        r
    } else if g >= b {
        g
    } else {
        b
    }
}

/// The smallest of three channels.
pub open spec fn min3(r: int, g: int, b: int) -> int {
    if r <= g && r <= b {
        r
    } else if g <= b {
        g
    } else {
        b
    }
}

/// The hue of a colour. The largest channel picks the sector, red before green before
/// blue where they tie; a grey has hue 0. Quotients are rounded down.
pub open spec fn hue_of(r: int, g: int, b: int) -> int {
    let del = max3(r, g, b) - min3(r, g, b);
    if del == 0 {
        0
    } else if r >= g && r >= b {
        if g >= b {
            (g - b) * ONE / del
        } else {
            6 * ONE + (g - b) * ONE / del
        }
    } else if g >= r && g >= b {
        2 * ONE + (b - r) * ONE / del
    } else {
        4 * ONE + (r - g) * ONE / del
    }
}

/// The saturation of a colour: the spread of its channels over the largest; 0 for black.
pub open spec fn saturation_of(r: int, g: int, b: int) -> int {
    if max3(r, g, b) > 0 {
        (max3(r, g, b) - min3(r, g, b)) * ONE / max3(r, g, b)
    } else {
        0
    }
}

/// The value of a colour: its largest channel over 255.
pub open spec fn value_of(r: int, g: int, b: int) -> int {
    max3(r, g, b) * ONE / 255
}

/// The colour as hue, saturation and value.
pub open spec fn hsv_of(p: RgbPixel) -> HsvPixel {
    let r = p.r as int;
    let g = p.g as int;
    let b = p.b as int;
    HsvPixel {
        h: hue_of(r, g, b) as i32,
        s: saturation_of(r, g, b) as i32,
        v: value_of(r, g, b) as i32,
    }
}

/// The chroma of a colour: saturation times value.
pub open spec fn chroma(s: int, v: int) -> int {
    s * v / (ONE as int)
}

/// How far the hue stands into its pair of sectors, folded: it climbs from 0 to `ONE`
/// over an odd sector and falls back over an even one.
pub open spec fn fold(h: int) -> int {
    let along = h % (2 * ONE);
    if along >= ONE {
        2 * ONE - along
    } else {
        along
    }
}

/// The second largest component before the offset: the chroma scaled by the folded hue.
pub open spec fn secondary(c: int, h: int) -> int {
    c * fold(h) / (ONE as int)
}

/// The three components before the offset, by the sector that holds the hue. Sectors are
/// open below and closed above; the hue 0 itself gives three zeros.
pub open spec fn sector_triple(h: int, c: int, x: int) -> (int, int, int) {
    if h == 0 {
        (0, 0, 0)
    } else if h <= ONE {
        (c, x, 0)
    } else if h <= 2 * ONE {
        (x, c, 0)
    } else if h <= 3 * ONE {
        (0, c, x)
    } else if h <= 4 * ONE {
        (0, x, c)
    } else if h <= 5 * ONE {
        (x, 0, c)
    } else {
        (c, 0, x)
    }
}

/// A component scaled to 255 and cut to a whole number of 8 bits: below 0 it is 0,
/// above 255 it is 255.
pub open spec fn channel(t: int) -> u8 {
    let q = t * 255 / (ONE as int);
    if q < 0 {
        0u8
    } else if q > 255 {
        255u8
    } else {
        q as u8
    }
}

/// Whether a hue lies in the six sectors, both ends included.
pub open spec fn hue_in_range(h: int) -> bool {
    0 <= h <= 6 * ONE
}

/// The colour in RGB; an error for a hue outside the six sectors.
pub open spec fn rgb_of(p: HsvPixel) -> Result<RgbPixel, PixelateError> {
    let h = p.h as int;
    let s = p.s as int;
    let v = p.v as int;
    if !hue_in_range(h) {
        Err(PixelateError::OutOfRangeHue)
    } else {
        let c = chroma(s, v);
        let t = sector_triple(h, c, secondary(c, h));
        let m = v - c;
        Ok(RgbPixel { r: channel(t.0 + m), g: channel(t.1 + m), b: channel(t.2 + m) })
    }
}

/// A quotient of scaled channel differences stays between `-ONE` and `ONE`, and has the
/// sign of its numerator.
pub proof fn lemma_ratio_bounds(n: int, d: int)
    requires
        d > 0,
        -d <= n <= d,
    ensures
        -ONE <= n * ONE / d <= ONE,
        n >= 0 ==> n * ONE / d >= 0,
        n < 0 ==> n * ONE / d < 0,
        n > 0 && d <= 255 ==> n * ONE / d > 0,
        n == d ==> n * ONE / d == ONE,
        n < d ==> n * ONE / d < ONE,
        n > -d && d <= 255 ==> n * ONE / d > -ONE,
{
    let q = n * ONE / d;
    let r = n * ONE % d;
    vstd::arithmetic::div_mod::lemma_fundamental_div_mod(n * ONE, d);
    assert(-1_000_000 <= q <= 1_000_000 && (n >= 0 ==> q >= 0) && (n < 0 ==> q < 0) && (n > 0 && d
        <= 255 ==> q > 0) && (n == d ==> q == 1_000_000) && (n < d ==> q < 1_000_000) && (n > -d
        && d <= 255 ==> q > -1_000_000)) by (nonlinear_arith)
        requires
            d > 0,
            -d <= n <= d,
            n * 1_000_000 == d * q + r,
            0 <= r < d,
    ;
}

fn channel_of(t: i128) -> (q: u8)
    requires
        -0x1_0000_0000_0000_0000 <= t <= 0x1_0000_0000_0000_0000,
    ensures
        q == channel(t as int),
{
    let q: i128 = floor_div(t * 255, ONE as i128);
    if q < 0 {
        0
    } else if q > 255 {
        255
    } else {
        q as u8
    }
}

impl RgbPixel {
    pub fn new(r: u8, g: u8, b: u8) -> (p: Self)
        ensures
            p == (RgbPixel { r, g, b }),
    {
        RgbPixel { r, g, b }
    }

    /// The three channels: red, green, blue.
    pub fn get(&self) -> (t: (u8, u8, u8))
        ensures
            t == (self.r, self.g, self.b),
    {
        (self.r, self.g, self.b)
    }
}

impl HsvPixel {
    pub fn new(h: i32, s: i32, v: i32) -> (p: Self)
        ensures
            p == (HsvPixel { h, s, v }),
    {
        HsvPixel { h, s, v }
    }

    /// Hue, saturation and value.
    pub fn get(&self) -> (t: (i32, i32, i32))
        ensures
            t == (self.h, self.s, self.v),
    {
        (self.h, self.s, self.v)
    }
}

impl Default for RgbPixel {
    fn default() -> (p: Self)
        ensures
            p == (RgbPixel { r: 0, g: 0, b: 0 }),
    {
        RgbPixel { r: 0, g: 0, b: 0 }
    }
}

impl Default for HsvPixel {
    fn default() -> (p: Self)
        ensures
            p == (HsvPixel { h: 0, s: 0, v: 0 }),
    {
        HsvPixel { h: 0, s: 0, v: 0 }
    }
}

impl FromSpecImpl<RgbPixel> for HsvPixel {
    open spec fn obeys_from_spec() -> bool {
        true
    }

    open spec fn from_spec(p: RgbPixel) -> Self {
        hsv_of(p)
    }
}

impl From<RgbPixel> for HsvPixel {
    /// The colour as hue, saturation and value.
    fn from(p: RgbPixel) -> (out: Self)
        ensures
            out == hsv_of(p),
            0 <= out.h < 6 * ONE,
            0 <= out.s <= ONE,
            0 <= out.v <= ONE,
    {
        let r: i128 = p.r as i128;
        let g: i128 = p.g as i128;
        let b: i128 = p.b as i128;
        let one: i128 = ONE as i128;
        let cmax: i128;
        let del: i128;
        let h: i128;
        if r >= g && r >= b {
            let cmin: i128 = if g >= b {
                b
            } else {
                g
            };
            cmax = r;
            del = cmax - cmin;
            proof {
                if del != 0 {
                    lemma_ratio_bounds(g - b, del as int);
                }
            }
            h =
            if del == 0 {
                0
            } else if g >= b {
                floor_div((g - b) * one, del)
            } else {
                6 * one + floor_div((g - b) * one, del)
            };
        } else if g >= r && g >= b {
            let cmin: i128 = if r >= b {
                b
            } else {
                r
            };
            cmax = g;
            del = cmax - cmin;
            proof {
                lemma_ratio_bounds(b - r, del as int);
            }
            h =
            if del == 0 {
                0
            } else {
                2 * one + floor_div((b - r) * one, del)
            };
        } else {
            let cmin: i128 = if r >= g {
                g
            } else {
                r
            };
            cmax = b;
            del = cmax - cmin;
            proof {
                lemma_ratio_bounds(r - g, del as int);
            }
            h =
            if del == 0 {
                0
            } else {
                4 * one + floor_div((r - g) * one, del)
            };
        }
        let v: i128 = floor_div(cmax * one, 255);
        proof {
            if cmax > 0 {
                lemma_ratio_bounds(del as int, cmax as int);
            }
        }
        let s: i128 = if cmax > 0 {
            floor_div(del * one, cmax)
        } else {
            0
        };
        HsvPixel { h: h as i32, s: s as i32, v: v as i32 }
    }
}

impl TryFromSpecImpl<HsvPixel> for RgbPixel {
    open spec fn obeys_try_from_spec() -> bool {
        true
    }

    open spec fn try_from_spec(p: HsvPixel) -> Result<Self, PixelateError> {
        rgb_of(p)
    }
}

impl TryFrom<HsvPixel> for RgbPixel {
    type Error = PixelateError;

    /// The colour in RGB. It fails exactly for a hue below 0 or above `6 * ONE`.
    fn try_from(p: HsvPixel) -> (out: Result<Self, PixelateError>)
        ensures
            out == rgb_of(p),
            out is Err <==> !hue_in_range(p.h as int),
    {
        let h: i32 = p.h;
        if h < 0 || h > 6 * ONE {
            return Err(PixelateError::OutOfRangeHue);
        }
        let s: i128 = p.s as i128;
        let v: i128 = p.v as i128;
        let one: i128 = ONE as i128;
        assert(-0x4000_0000_0000_0000 <= s * v <= 0x4000_0000_0000_0000) by (nonlinear_arith)
            requires
                -0x8000_0000 <= s <= 0x7FFF_FFFF,
                -0x8000_0000 <= v <= 0x7FFF_FFFF,
        ;
        let c: i128 = floor_div(s * v, one);
        let along: i32 = h % (2 * ONE);
        let t: i128 = if along >= ONE {
            (2 * ONE - along) as i128
        } else {
            along as i128
        };
        assert(-5_000_000_000_000_000_000 <= c * t <= 5_000_000_000_000_000_000) by (nonlinear_arith)
            requires
                -5_000_000_000_000 <= c <= 5_000_000_000_000,
                0 <= t <= 1_000_000,
        ;
        let x: i128 = floor_div(c * t, one);
        let m: i128 = v - c;
        let zero: i128 = 0;
        let triple: (i128, i128, i128) = if h == 0 {
            (zero, zero, zero)
        } else if h <= ONE {
            (c, x, zero)
        } else if h <= 2 * ONE {
            (x, c, zero)
        } else if h <= 3 * ONE {
            (zero, c, x)
        } else if h <= 4 * ONE {
            (zero, x, c)
        } else if h <= 5 * ONE {
            (x, zero, c)
        } else {
            (c, zero, x)
        };
        Ok(
            RgbPixel {
                r: channel_of(triple.0 + m),
                g: channel_of(triple.1 + m),
                b: channel_of(triple.2 + m),
            },
        )
    }
}

} // verus!
