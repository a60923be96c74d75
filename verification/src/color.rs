//! The color model: a fixed-point RGBA color and its conversions to
//! and from HSL and Oklab, plus serialization to 8-bit RGBA and to a
//! lowercase hex string.
//!
//! Every conversion is total: out-of-range inputs are clamped (or, for
//! the hue, reduced modulo a full turn) rather than rejected.  Hue is
//! measured in fixed-point degrees, so a full turn is `360 * SCALE`.

use crate::fixed::abs_fixed;
use crate::fixed::abs_spec;
use crate::fixed::clamp_unit;
use crate::fixed::clamp_unit_spec;
use crate::fixed::cube_s;
use crate::fixed::ediv;
use crate::fixed::emod;
use crate::fixed::iroot;
use crate::fixed::lemma_div_range;
use crate::fixed::lemma_pow_base_mono;
use crate::fixed::lemma_pow_small;
use crate::fixed::lemma_quotient_bounds;
use crate::fixed::nroot;
use crate::fixed::SCALE;
use vstd::arithmetic::div_mod::lemma_fundamental_div_mod;
use vstd::arithmetic::div_mod::lemma_mod_division_less_than_divisor;
use vstd::arithmetic::power::pow;
use vstd::prelude::*;

verus! {

/// A full turn of the hue circle, in fixed-point degrees.
pub const HUE_TURN: i64 = 23592960;

/// One hue sextant (60 degrees), in fixed-point degrees.
pub const HUE_SEXTANT: i64 = 3932160;

/// A color as four fixed-point channels (red, green, blue, alpha),
/// each a number of 1/65536 units; a valid channel lies in [0, SCALE].
#[derive(Clone, Copy, Debug, PartialEq, Eq, Structural)]
pub struct Color {
    pub r: i64,
    pub g: i64,
    pub b: i64,
    pub a: i64,
}

/// Whether a fixed-point channel lies in the unit interval.
pub open spec fn valid_channel(v: int) -> bool {
    0 <= v <= 65536
}

/// Scale a unit-interval channel to an 8-bit value, rounding to the
/// nearest integer.
pub open spec fn channel_byte(v: int) -> int {
    (v * 255 + 32768) / 65536
}

/// The hex digit for a value in [0, 16).
pub open spec fn hex_char_spec(d: int) -> char {
    if d == 0 {
        '0'
    } else if d == 1 {
        '1'
    } else if d == 2 {
        '2'
    } else if d == 3 {
        '3'
    } else if d == 4 {
        '4'
    } else if d == 5 {
        '5'
    } else if d == 6 {
        '6'
    } else if d == 7 {
        '7'
    } else if d == 8 {
        '8'
    } else if d == 9 {
        '9'
    } else if d == 10 {
        'a'
    } else if d == 11 {
        'b'
    } else if d == 12 {
        'c'
    } else if d == 13 {
        'd'
    } else if d == 14 {
        'e'
    } else {
        'f'
    }
}

/// The `#rrggbb` form of a color, lowercase, alpha omitted.
pub open spec fn hex_spec(c: Color) -> Seq<char> {
    let rb = channel_byte(c.r as int);
    let gb = channel_byte(c.g as int);
    let bb = channel_byte(c.b as int);
    seq![
        '#',
        hex_char_spec(rb / 16),
        hex_char_spec(rb % 16),
        hex_char_spec(gb / 16),
        hex_char_spec(gb % 16),
        hex_char_spec(bb / 16),
        hex_char_spec(bb % 16),
    ]
}

/// RGB to HSL: hue in fixed-point degrees [0, 360), saturation and
/// lightness in fixed-point [0, 1].  An achromatic color has hue 0 and
/// saturation 0.
#[verifier::opaque]
pub open spec fn to_hsl_spec(c: Color) -> (int, int, int) {
    let mx = max3(c.r as int, c.g as int, c.b as int);
    let mn = min3(c.r as int, c.g as int, c.b as int);
    let l = (mx + mn) / 2;
    if mx == mn {
        (0int, 0int, l)
    } else {
        let d = mx - mn;
        let denom = if mx + mn <= 65536 {
            mx + mn
        } else {
            131072 - (mx + mn)
        };
        let s = d * 65536 / denom;
        let h0 = if c.r as int == mx {
            (c.g - c.b) * 3932160 / d
        } else if c.g as int == mx {
            (c.b - c.r) * 3932160 / d + 7864320
        } else {
            (c.r - c.g) * 3932160 / d + 15728640
        };
        (h0 % 23592960, s, l)
    }
}

/// The larger of three scalars, favoring the earlier on ties.
pub open spec fn max3(a: int, b: int, c: int) -> int {
    if a >= b && a >= c {
        a
    } else if b >= c {
        b
    } else {
        c
    }
}

/// The smaller of three scalars, favoring the earlier on ties.
pub open spec fn min3(a: int, b: int, c: int) -> int {
    if a <= b && a <= c {
        a
    } else if b <= c {
        b
    } else {
        c
    }
}

/// HSL to RGB.  The hue is reduced modulo a full turn, saturation and
/// lightness are clamped to [0, 1], and the result is opaque.
#[verifier::opaque]
pub open spec fn from_hsl_spec(h: int, s: int, l: int) -> Color {
    let ss = clamp_unit_spec(s);
    let ll = clamp_unit_spec(l);
    let hh = h % 23592960;
    let c2 = (65536 - abs_spec(2 * ll - 65536)) * ss / 65536;
    let m2 = hh % 7864320;
    let x = c2 * (3932160 - abs_spec(m2 - 3932160)) / 3932160;
    let m = ll - c2 / 2;
    let k = hh / 3932160;
    let rgb = if k == 0 {
        (c2, x, 0int)
    } else if k == 1 {
        (x, c2, 0int)
    } else if k == 2 {
        (0int, c2, x)
    } else if k == 3 {
        (0int, x, c2)
    } else if k == 4 {
        (x, 0int, c2)
    } else {
        (c2, 0int, x)
    };
    Color {
        r: clamp_unit_spec(rgb.0 + m) as i64,
        g: clamp_unit_spec(rgb.1 + m) as i64,
        b: clamp_unit_spec(rgb.2 + m) as i64,
        a: 65536,
    }
}

/// Gamma-decode one sRGB channel to linear light (both in fixed-point
/// [0, 1]): the piecewise linear segment below the cut, and
/// `((v + 0.055) / 1.055)^2.4` above it, the 12/5 power taken by an
/// exact integer fifth root.
#[verifier::opaque]
pub open spec fn srgb_decode_spec(v: int) -> int {
    if v <= 2651 {
        v * 25 / 323
    } else {
        let t = (v + 3604) * 65536 / 69140;
        let u = t * t * t / 4294967296;
        iroot(u * u * u * u * 65536, 5)
    }
}

/// Gamma-encode one linear-light channel to sRGB (both in fixed-point
/// [0, 1]): `12.92 * v` below the cut, `1.055 * v^(5/12) - 0.055`
/// above it, the 5/12 power taken by exact integer fourth and cube
/// roots.
#[verifier::opaque]
pub open spec fn srgb_encode_spec(v: int) -> int {
    if v <= 205 {
        v * 323 / 25
    } else {
        let t = iroot(v * v * v * v * v / 65536, 4);
        let y = iroot(t * 4294967296, 3);
        clamp_unit_spec((1055 * y - 3604480) / 1000)
    }
}

/// RGB to Oklab: gamma-decode, the LMS matrix, a cube root per
/// component, then the Oklab matrix.  Lightness is nominally in
/// [0, 1] and a and b around [-0.4, 0.4], all fixed-point.
#[verifier::opaque]
pub open spec fn to_oklab_spec(c: Color) -> (int, int, int) {
    let lr = srgb_decode_spec(c.r as int);
    let lg = srgb_decode_spec(c.g as int);
    let lb = srgb_decode_spec(c.b as int);
    let lv = (27015 * lr + 35149 * lg + 3372 * lb) / 65536;
    let mv = (13887 * lr + 44610 * lg + 7038 * lb) / 65536;
    let sv = (5787 * lr + 18463 * lg + 41286 * lb) / 65536;
    let lc = iroot(lv * 4294967296, 3);
    let mc = iroot(mv * 4294967296, 3);
    let sc = iroot(sv * 4294967296, 3);
    (
        (13792 * lc + 52011 * mc - 267 * sc) / 65536,
        (129630 * lc - 159160 * mc + 29530 * sc) / 65536,
        (1698 * lc + 51300 * mc - 52997 * sc) / 65536,
    )
}

/// Oklab to RGB: invert the Oklab matrix, cube each component, invert
/// the LMS matrix, then gamma-encode with clamping per channel.  The
/// result is opaque.
#[verifier::opaque]
pub open spec fn from_oklab_spec(lv: int, av: int, bv: int) -> Color {
    let lp = lv + (25974 * av + 14143 * bv) / 65536;
    let mp = lv + ((-6918) * av + (-4185) * bv) / 65536;
    let sp = lv + ((-5864) * av + (-84639) * bv) / 65536;
    let lc = lp * lp * lp / 4294967296;
    let mc = mp * mp * mp / 4294967296;
    let sc = sp * sp * sp / 4294967296;
    let rl = (267173 * lc - 216774 * mc + 15137 * sc) / 65536;
    let gl = ((-83128) * lc + 171033 * mc - 22369 * sc) / 65536;
    let bl = ((-275) * lc - 46099 * mc + 111910 * sc) / 65536;
    Color {
        r: srgb_encode_spec(clamp_unit_spec(rl)) as i64,
        g: srgb_encode_spec(clamp_unit_spec(gl)) as i64,
        b: srgb_encode_spec(clamp_unit_spec(bl)) as i64,
        a: 65536,
    }
}

impl Color {
    /// Whether every channel lies in the unit interval.
    pub open spec fn valid(self) -> bool {
        valid_channel(self.r as int) && valid_channel(self.g as int) && valid_channel(
            self.b as int,
        ) && valid_channel(self.a as int)
    }

    /// Build a color from fixed-point channels, clamping each to the
    /// unit interval.
    pub fn rgba(r: i64, g: i64, b: i64, a: i64) -> (c: Color)
        ensures
            c.r as int == clamp_unit_spec(r as int),
            c.g as int == clamp_unit_spec(g as int),
            c.b as int == clamp_unit_spec(b as int),
            c.a as int == clamp_unit_spec(a as int),
            c.valid(),
    {
        Color { r: clamp_unit(r), g: clamp_unit(g), b: clamp_unit(b), a: clamp_unit(a) }
    }

    /// The color as four 8-bit values, each channel scaled by 255 and
    /// rounded to the nearest integer.
    pub fn to_rgba8(&self) -> (out: [u8; 4])
        requires
            self.valid(),
        ensures
            out[0] as int == channel_byte(self.r as int),
            out[1] as int == channel_byte(self.g as int),
            out[2] as int == channel_byte(self.b as int),
            out[3] as int == channel_byte(self.a as int),
    {
        [chan8(self.r), chan8(self.g), chan8(self.b), chan8(self.a)]
    }

    /// The lowercase `#rrggbb` form of the color; alpha is omitted, as
    /// is conventional for hex colors.
    pub fn to_hex(&self) -> (s: String)
        requires
            self.valid(),
        ensures
            s@ == hex_spec(*self),
    {
        let px = self.to_rgba8();
        let mut out = String::new();
        out.append("#");
        out.append(hex_digit(px[0] / 16));
        out.append(hex_digit(px[0] % 16));
        out.append(hex_digit(px[1] / 16));
        out.append(hex_digit(px[1] % 16));
        out.append(hex_digit(px[2] / 16));
        out.append(hex_digit(px[2] % 16));
        proof {
            reveal_strlit("#");
            assert(out@ =~= hex_spec(*self));
        }
        out
    }

    /// The color's hue, saturation and lightness.
    pub fn to_hsl(&self) -> (out: (i64, i64, i64))
        requires
            self.valid(),
        ensures
            (out.0 as int, out.1 as int, out.2 as int) == to_hsl_spec(*self),
            0 <= out.0 < 23592960,
            0 <= out.1 <= 65536,
            0 <= out.2 <= 65536,
    {
        proof {
            reveal(to_hsl_spec);
        }
        let mx = if self.r >= self.g && self.r >= self.b {
            self.r
        } else if self.g >= self.b {
            self.g
        } else {
            self.b
        };
        let mn = if self.r <= self.g && self.r <= self.b {
            self.r
        } else if self.g <= self.b {
            self.g
        } else {
            self.b
        };
        let l = ediv(mx + mn, 2);
        proof {
            lemma_div_range(mx as int + mn as int, 2, 0, 65536);
        }
        if mx == mn {
            (0, 0, l)
        } else {
            let d = mx - mn;
            let sum = mx + mn;
            let denom = if sum <= SCALE {
                sum
            } else {
                131072 - sum
            };
            proof {
                lemma_div_range(d as int * 65536, denom as int, 0, 65536);
            }
            let s = ediv(d * SCALE, denom);
            let h0 = if self.r == mx {
                let q = ediv((self.g - self.b) * HUE_SEXTANT, d);
                proof {
                    lemma_quotient_bounds((self.g - self.b) as int * 3932160, d as int);
                }
                q
            } else if self.g == mx {
                let q = ediv((self.b - self.r) * HUE_SEXTANT, d);
                proof {
                    lemma_quotient_bounds((self.b - self.r) as int * 3932160, d as int);
                }
                q + 7864320
            } else {
                let q = ediv((self.r - self.g) * HUE_SEXTANT, d);
                proof {
                    lemma_quotient_bounds((self.r - self.g) as int * 3932160, d as int);
                }
                q + 15728640
            };
            let h = emod(h0, HUE_TURN);
            (h, s, l)
        }
    }

    /// The color's Oklab lightness, a and b.
    pub fn to_oklab(&self) -> (out: (i64, i64, i64))
        requires
            self.valid(),
        ensures
            (out.0 as int, out.1 as int, out.2 as int) == to_oklab_spec(*self),
            -327680 <= out.0 <= 327680,
            -327680 <= out.1 <= 327680,
            -327680 <= out.2 <= 327680,
    {
        proof {
            reveal(to_oklab_spec);
        }
        let lr = srgb_decode(self.r);
        let lg = srgb_decode(self.g);
        let lb = srgb_decode(self.b);
        proof {
            lemma_div_range(27015 * lr as int + 35149 * lg as int + 3372 * lb as int, 65536, 0, 65536);
            lemma_div_range(13887 * lr as int + 44610 * lg as int + 7038 * lb as int, 65536, 0, 65536);
            lemma_div_range(5787 * lr as int + 18463 * lg as int + 41286 * lb as int, 65536, 0, 65536);
        }
        let lv = ediv(27015 * lr + 35149 * lg + 3372 * lb, SCALE);
        let mv = ediv(13887 * lr + 44610 * lg + 7038 * lb, SCALE);
        let sv = ediv(5787 * lr + 18463 * lg + 41286 * lb, SCALE);
        let lc = cbrt_unit(lv);
        let mc = cbrt_unit(mv);
        let sc = cbrt_unit(sv);
        proof {
            lemma_div_range(13792 * lc as int + 52011 * mc as int - 267 * sc as int, 65536, -327680, 327680);
            lemma_div_range(129630 * lc as int - 159160 * mc as int + 29530 * sc as int, 65536, -327680, 327680);
            lemma_div_range(1698 * lc as int + 51300 * mc as int - 52997 * sc as int, 65536, -327680, 327680);
        }
        let outl = ediv(13792 * lc + 52011 * mc - 267 * sc, SCALE);
        let outa = ediv(129630 * lc - 159160 * mc + 29530 * sc, SCALE);
        let outb = ediv(1698 * lc + 51300 * mc - 52997 * sc, SCALE);
        (outl, outa, outb)
    }
}

/// HSL to color, as a free function mirroring `to_hsl`.
pub fn from_hsl(h: i64, s: i64, l: i64) -> (c: Color)
    ensures
        c == from_hsl_spec(h as int, s as int, l as int),
        c.valid(),
        c.a == 65536,
{
    proof {
        reveal(from_hsl_spec);
    }
    let ss = clamp_unit(s);
    let ll = clamp_unit(l);
    let hh = emod(h, HUE_TURN);
    let spread = SCALE - abs_fixed(2 * ll - SCALE);
    proof {
        assert(0 <= spread as int * ss as int <= 4294967296) by (nonlinear_arith)
            requires
                0 <= spread as int <= 65536,
                0 <= ss as int <= 65536,
        {
        }
        lemma_div_range(spread as int * ss as int, 65536, 0, 65536);
    }
    let c2 = ediv(spread * ss, SCALE);
    let m2 = emod(hh, 7864320);
    let wave = HUE_SEXTANT - abs_fixed(m2 - HUE_SEXTANT);
    proof {
        assert(0 <= c2 as int * wave as int <= 257698037760) by (nonlinear_arith)
            requires
                0 <= c2 as int <= 65536,
                0 <= wave as int <= 3932160,
        {
        }
        lemma_div_range(c2 as int * wave as int, 3932160, 0, 65536);
    }
    let x = ediv(c2 * wave, HUE_SEXTANT);
    proof {
        lemma_quotient_bounds(c2 as int, 2);
    }
    let m = ll - ediv(c2, 2);
    let k = ediv(hh, HUE_SEXTANT);
    let (r0, g0, b0) = if k == 0 {
        (c2, x, 0)
    } else if k == 1 {
        (x, c2, 0)
    } else if k == 2 {
        (0, c2, x)
    } else if k == 3 {
        (0, x, c2)
    } else if k == 4 {
        (x, 0, c2)
    } else {
        (c2, 0, x)
    };
    Color { r: clamp_unit(r0 + m), g: clamp_unit(g0 + m), b: clamp_unit(b0 + m), a: SCALE }
}

/// Oklab to color, as a free function mirroring `to_oklab`.  The
/// bounds on the inputs are generous machine limits: every value a
/// picker can produce lies well inside them.
pub fn from_oklab(lv: i64, av: i64, bv: i64) -> (c: Color)
    requires
        -1048576 <= lv <= 1048576,
        -1048576 <= av <= 1048576,
        -1048576 <= bv <= 1048576,
    ensures
        c == from_oklab_spec(lv as int, av as int, bv as int),
        c.valid(),
        c.a == 65536,
{
    proof {
        reveal(from_oklab_spec);
        lemma_div_range(25974 * av as int + 14143 * bv as int, 65536, -641872, 641872);
        lemma_div_range((-6918) * av as int + (-4185) * bv as int, 65536, -177648, 177648);
        lemma_div_range((-5864) * av as int + (-84639) * bv as int, 65536, -1448048, 1448048);
    }
    let lp = lv + ediv(25974 * av + 14143 * bv, SCALE);
    let mp = lv + ediv((-6918) * av + (-4185) * bv, SCALE);
    let sp = lv + ediv((-5864) * av + (-84639) * bv, SCALE);
    let lc = cube_s(lp);
    let mc = cube_s(mp);
    let sc = cube_s(sp);
    proof {
        lemma_quotient_bounds(267173 * lc as int - 216774 * mc as int + 15137 * sc as int, 65536);
        lemma_quotient_bounds((-83128) * lc as int + 171033 * mc as int - 22369 * sc as int, 65536);
        lemma_quotient_bounds((-275) * lc as int - 46099 * mc as int + 111910 * sc as int, 65536);
    }
    let rl = ediv(267173 * lc - 216774 * mc + 15137 * sc, SCALE);
    let gl = ediv((-83128) * lc + 171033 * mc - 22369 * sc, SCALE);
    let bl = ediv((-275) * lc - 46099 * mc + 111910 * sc, SCALE);
    Color {
        r: srgb_encode(clamp_unit(rl)),
        g: srgb_encode(clamp_unit(gl)),
        b: srgb_encode(clamp_unit(bl)),
        a: SCALE,
    }
}

/// One channel scaled to 8 bits.
fn chan8(v: i64) -> (r: u8)
    requires
        valid_channel(v as int),
    ensures
        r as int == channel_byte(v as int),
{
    proof {
        lemma_div_range(v as int * 255 + 32768, 65536, 0, 255);
    }
    ediv(v * 255 + 32768, SCALE) as u8
}

/// The hex digit for a value in [0, 16), as a one-character string.
fn hex_digit(d: u8) -> (s: &'static str)
    requires
        d < 16,
    ensures
        s@ == seq![hex_char_spec(d as int)],
{
    let s: &'static str = if d == 0 {
        "0"
    } else if d == 1 {
        "1"
    } else if d == 2 {
        "2"
    } else if d == 3 {
        "3"
    } else if d == 4 {
        "4"
    } else if d == 5 {
        "5"
    } else if d == 6 {
        "6"
    } else if d == 7 {
        "7"
    } else if d == 8 {
        "8"
    } else if d == 9 {
        "9"
    } else if d == 10 {
        "a"
    } else if d == 11 {
        "b"
    } else if d == 12 {
        "c"
    } else if d == 13 {
        "d"
    } else if d == 14 {
        "e"
    } else {
        "f"
    };
    proof {
        reveal_strlit("0");
        reveal_strlit("1");
        reveal_strlit("2");
        reveal_strlit("3");
        reveal_strlit("4");
        reveal_strlit("5");
        reveal_strlit("6");
        reveal_strlit("7");
        reveal_strlit("8");
        reveal_strlit("9");
        reveal_strlit("a");
        reveal_strlit("b");
        reveal_strlit("c");
        reveal_strlit("d");
        reveal_strlit("e");
        reveal_strlit("f");
        assert(s@ =~= seq![hex_char_spec(d as int)]);
    }
    s
}

/// Gamma-decode one sRGB channel to linear light.
fn srgb_decode(v: i64) -> (r: i64)
    requires
        valid_channel(v as int),
    ensures
        r as int == srgb_decode_spec(v as int),
        valid_channel(r as int),
{
    proof {
        reveal(srgb_decode_spec);
    }
    if v <= 2651 {
        proof {
            lemma_div_range(v as int * 25, 323, 0, 65536);
        }
        ediv(v * 25, 323)
    } else {
        proof {
            lemma_div_range((v as int + 3604) * 65536, 69140, 0, 65536);
        }
        let t = ediv((v + 3604) * SCALE, 69140);
        let u = cube_s(t);
        proof {
            assert(t as int * t as int * t as int <= 281474976710656) by (nonlinear_arith)
                requires
                    0 <= t as int <= 65536,
            {
            }
            assert(t as int * t as int * t as int >= 0) by (nonlinear_arith)
                requires
                    0 <= t as int,
            {
            }
            lemma_div_range(t as int * t as int * t as int, 4294967296, 0, 65536);
        }
        let uu = u as u128;
        proof {
            assert(uu * uu <= 4294967296) by (nonlinear_arith)
                requires
                    0 <= uu <= 65536,
            {
            }
        }
        let u2 = uu * uu;
        proof {
            assert(u2 * u2 <= 18446744073709551616) by (nonlinear_arith)
                requires
                    0 <= u2 <= 4294967296,
            {
            }
        }
        let u4 = u2 * u2;
        let n = u4 * 65536;
        proof {
            lemma_pow_small(131072);
            assert((n as int) < pow(131072, 5));
        }
        let root = nroot(n, 5, 131072);
        proof {
            lemma_pow_small(65536);
            lemma_pow_small(65537);
            if root > 65536 {
                lemma_pow_base_mono(65537, root as int, 5);
                assert(false);
            }
            assert(n as int == (u as int * u as int * u as int * u as int) * 65536)
                by (nonlinear_arith)
                requires
                    uu == u as int,
                    u2 == uu * uu,
                    u4 == u2 * u2,
                    n == u4 * 65536,
                    0 <= uu,
            {
            }
            assert(u as int * u as int * u as int * u as int * 65536 == (u as int * u as int * u
                as int * u as int) * 65536);
        }
        root as i64
    }
}

/// Gamma-encode one linear-light channel to sRGB.
fn srgb_encode(v: i64) -> (r: i64)
    requires
        valid_channel(v as int),
    ensures
        r as int == srgb_encode_spec(v as int),
        valid_channel(r as int),
{
    proof {
        reveal(srgb_encode_spec);
    }
    if v <= 205 {
        proof {
            lemma_div_range(v as int * 323, 25, 0, 65536);
        }
        ediv(v * 323, 25)
    } else {
        let vv = v as u128;
        proof {
            assert(vv * vv <= 4294967296) by (nonlinear_arith)
                requires
                    0 <= vv <= 65536,
            {
            }
        }
        let v2 = vv * vv;
        proof {
            assert(v2 * v2 <= 18446744073709551616) by (nonlinear_arith)
                requires
                    0 <= v2 <= 4294967296,
            {
            }
        }
        let v4 = v2 * v2;
        proof {
            assert(v4 * vv <= 1208925819614629174706176) by (nonlinear_arith)
                requires
                    0 <= v4 <= 18446744073709551616,
                    0 <= vv <= 65536,
            {
            }
        }
        let v5 = v4 * vv;
        let n1 = v5 / 65536;
        proof {
            lemma_quotient_bounds(v5 as int, 65536);
            lemma_div_range(v5 as int, 65536, 0, 18446744073709551616);
            lemma_pow_small(131072);
            assert((n1 as int) < pow(131072, 4));
        }
        let t = nroot(n1, 4, 131072);
        proof {
            lemma_pow_small(65536);
            lemma_pow_small(65537);
            if t > 65536 {
                lemma_pow_base_mono(65537, t as int, 4);
                assert(false);
            }
            assert(n1 as int == v as int * v as int * v as int * v as int * v as int / 65536)
                by (nonlinear_arith)
                requires
                    vv == v as int,
                    v2 == vv * vv,
                    v4 == v2 * v2,
                    v5 == v4 * vv,
                    n1 == v5 / 65536,
                    0 <= vv,
            {
            }
        }
        let n2 = t * 4294967296;
        proof {
            lemma_pow_small(131072);
            assert((n2 as int) < pow(131072, 3));
        }
        let y = nroot(n2, 3, 131072);
        proof {
            lemma_pow_small(65536);
            lemma_pow_small(65537);
            if y > 65536 {
                lemma_pow_base_mono(65537, y as int, 3);
                assert(false);
            }
            lemma_quotient_bounds(1055 * y as int - 3604480, 1000);
        }
        let e = ediv(1055 * (y as i64) - 3604480, 1000);
        clamp_unit(e)
    }
}

/// The cube root of a unit-interval fixed-point scalar.
fn cbrt_unit(v: i64) -> (r: i64)
    requires
        valid_channel(v as int),
    ensures
        r as int == iroot(v as int * 4294967296, 3),
        valid_channel(r as int),
{
    let n = (v as u128) * 4294967296;
    proof {
        lemma_pow_small(131072);
        assert((n as int) < pow(131072, 3));
    }
    let root = nroot(n, 3, 131072);
    proof {
        lemma_pow_small(65536);
        lemma_pow_small(65537);
        if root > 65536 {
            lemma_pow_base_mono(65537, root as int, 3);
            assert(false);
        }
    }
    root as i64
}

/// The four RGBA8 bytes of a color, as `to_rgba8` lays them out.
pub open spec fn rgba_bytes_spec(c: Color) -> Seq<u8> {
    seq![
        channel_byte(c.r as int) as u8,
        channel_byte(c.g as int) as u8,
        channel_byte(c.b as int) as u8,
        channel_byte(c.a as int) as u8,
    ]
}

/// A valid channel scales to a byte in [0, 255].
pub proof fn lemma_channel_byte_bounds(v: int)
    requires
        valid_channel(v),
    ensures
        0 <= channel_byte(v) <= 255,
{
    lemma_div_range(v * 255 + 32768, 65536, 0, 255);
}

/// For a chromatic color, the chroma and offset that `from_hsl_spec`
/// reconstructs from the rounded saturation and lightness stay within
/// a few fixed-point units of the exact chroma `mx - mn` and the
/// exact minimum `mn`.
proof fn lemma_round_trip_core(mx: int, mn: int, s: int, l: int, c2: int, m: int)
    requires
        0 <= mn < mx <= 65536,
        l == (mx + mn) / 2,
        s == (mx - mn) * 65536 / (if mx + mn <= 65536 {
            mx + mn
        } else {
            131072 - (mx + mn)
        }),
        c2 == (65536 - abs_spec(2 * l - 65536)) * s / 65536,
        m == l - c2 / 2,
    ensures
        0 <= s <= 65536,
        0 <= l <= 65536,
        mx - mn - 2 <= c2 <= mx - mn + 1,
        0 <= c2 <= 65536,
        mn - 1 <= m <= mn + 1,
{
    let sum = mx + mn;
    let d = mx - mn;
    let denom = if sum <= 65536 {
        sum
    } else {
        131072 - sum
    };
    assert(1 <= d && d <= denom && denom <= 65536);
    // Bracket the saturation: s * denom sits just below d * 65536.
    lemma_fundamental_div_mod(d * 65536, denom);
    lemma_mod_division_less_than_divisor(d * 65536, denom);
    let rho = (d * 65536) % denom;
    lemma_div_range(d * 65536, denom, 0, 65536);
    // The lightness loses at most half a unit: sum == 2*l + p.
    lemma_fundamental_div_mod(sum, 2);
    lemma_mod_division_less_than_divisor(sum, 2);
    let p = sum % 2;
    lemma_div_range(sum, 2, 0, 65536);
    // The reconstructed spread differs from the exact denominator by
    // at most the lightness rounding.
    let spread = 65536 - abs_spec(2 * l - 65536);
    assert(denom - 1 <= spread <= denom + 1);
    // Bracket the chroma.
    assert(denom * s <= d * 65536 && d * 65536 < denom * s + denom) by (nonlinear_arith)
        requires
            d * 65536 == denom * s + rho,
            0 <= rho < denom,
    {
    }
    assert(spread * s - denom * s <= s && denom * s - spread * s <= s) by (nonlinear_arith)
        requires
            denom - 1 <= spread <= denom + 1,
            0 <= s,
    {
    }
    assert(65536 * (d - 2) <= spread * s) by {
        assert(spread * s >= denom * s - s);
        assert(denom * s > d * 65536 - denom);
    }
    assert(spread * s < 65536 * (d + 2)) by {
        assert(spread * s <= denom * s + s);
        assert(denom * s <= d * 65536);
    }
    lemma_div_range(spread * s, 65536, d - 2, d + 1);
    // Bracket the offset under the chroma: c2 == 2*(c2/2) + q2.
    lemma_fundamental_div_mod(c2, 2);
    lemma_mod_division_less_than_divisor(c2, 2);
    assert(2 * m == sum - p - (c2 - c2 % 2));
    assert(mn - 1 <= m <= mn + 1);
}

/// The free term that `from_hsl_spec` rebuilds from a rounded hue
/// offset `q == w * 60 / d` degrees stays within a few units of the
/// exact middle-channel offset `|w|`.
proof fn lemma_round_trip_wave(w: int, d: int, c2: int, q: int, x: int)
    requires
        1 <= d <= 65536,
        -d <= w <= d,
        d - 2 <= c2 <= d + 1,
        0 <= c2 <= 65536,
        q == w * 3932160 / d,
        x == c2 * abs_spec(q) / 3932160,
    ensures
        abs_spec(w) - 3 <= x <= abs_spec(w) + 2,
        0 <= x,
        -3932160 <= q <= 3932160,
        d * q <= w * 3932160,
        w * 3932160 < d * q + d,
        w >= 0 ==> 0 <= q,
        w < 0 ==> q <= -1,
{
    lemma_fundamental_div_mod(w * 3932160, d);
    lemma_mod_division_less_than_divisor(w * 3932160, d);
    let rho = (w * 3932160) % d;
    if w >= 0 {
        lemma_div_range(w * 3932160, d, 0, 3932160);
        assert(d * q <= w * 3932160 && w * 3932160 < d * q + d);
        assert(c2 * q - d * q <= 3932160 && d * q - c2 * q <= 2 * 3932160) by (nonlinear_arith)
            requires
                d - 2 <= c2 <= d + 1,
                0 <= q <= 3932160,
        {
        }
        assert(3932160 * (w - 3) <= c2 * q < 3932160 * (w + 2));
        lemma_div_range(c2 * q, 3932160, w - 3, w + 1);
        lemma_quotient_bounds(c2 * q, 3932160);
        assert(c2 * q >= 0) by (nonlinear_arith)
            requires
                0 <= c2,
                0 <= q,
        {
        }
    } else {
        lemma_div_range((-w) * 3932160, d, 0, 3932160);
        // The Euclidean quotient of the negated dividend brackets q.
        assert(d * q <= w * 3932160 && w * 3932160 < d * q + d);
        assert(-3932160 <= q <= -1) by (nonlinear_arith)
            requires
                d * q <= w * 3932160,
                w * 3932160 < d * q + d,
                -d <= w < 0,
                1 <= d <= 65536,
        {
        }
        let aq = abs_spec(q);
        assert(d * aq >= (-w) * 3932160 && d * aq < (-w) * 3932160 + d + d) by (nonlinear_arith)
            requires
                aq == -q,
                d * q <= w * 3932160,
                w * 3932160 < d * q + d,
                1 <= d,
        {
        }
        assert(c2 * aq - d * aq <= 3932160 && d * aq - c2 * aq <= 2 * 3932160) by (nonlinear_arith)
            requires
                d - 2 <= c2 <= d + 1,
                0 <= aq <= 3932160,
        {
        }
        assert(3932160 * ((-w) - 3) <= c2 * aq < 3932160 * ((-w) + 2));
        lemma_div_range(c2 * aq, 3932160, (-w) - 3, (-w) + 1);
        lemma_quotient_bounds(c2 * aq, 3932160);
        assert(c2 * aq >= 0) by (nonlinear_arith)
            requires
                0 <= c2,
                0 <= aq,
        {
        }
    }
}

/// Clamping to the unit interval never moves a value further from a
/// target that already lies in the interval.
proof fn lemma_clamp_near(v: int, t: int, e: int)
    requires
        0 <= t <= 65536,
        abs_spec(v - t) <= e,
    ensures
        abs_spec(clamp_unit_spec(v) - t) <= e,
{
}

/// Round trip through HSL: converting any valid color to hue,
/// saturation and lightness and back reproduces every color channel
/// within four fixed-point units (about 6e-5 of full scale), and the
/// result is opaque.  On achromatic colors the round trip is exact
/// (see `lemma_hsl_round_trip_achromatic`).
#[verifier::rlimit(100)]
#[verifier::spinoff_prover]
pub proof fn lemma_hsl_round_trip_close(c: Color)
    requires
        c.valid(),
    ensures
        ({
            let back = from_hsl_spec(to_hsl_spec(c).0, to_hsl_spec(c).1, to_hsl_spec(c).2);
            abs_spec(back.r - c.r) <= 4 && abs_spec(back.g - c.g) <= 4 && abs_spec(back.b - c.b)
                <= 4 && back.a == 65536
        }),
{
    reveal(to_hsl_spec);
    reveal(from_hsl_spec);
    let mx = max3(c.r as int, c.g as int, c.b as int);
    let mn = min3(c.r as int, c.g as int, c.b as int);
    let sum = mx + mn;
    let l = sum / 2;
    lemma_div_range(sum, 2, 0, 65536);
    if mx == mn {
        vstd::arithmetic::div_mod::lemma_div_multiples_vanish(c.r as int, 2);
        assert(l == c.r as int);
        assert(to_hsl_spec(c) == (0int, 0int, l));
        vstd::arithmetic::mul::lemma_mul_by_zero_is_zero(65536 - abs_spec(2 * l - 65536));
    } else {
        let d = mx - mn;
        let denom = if sum <= 65536 {
            sum
        } else {
            131072 - sum
        };
        let s = d * 65536 / denom;
        lemma_div_range(d * 65536, denom, 0, 65536);
        let c2 = (65536 - abs_spec(2 * l - 65536)) * s / 65536;
        let m = l - c2 / 2;
        lemma_round_trip_core(mx, mn, s, l, c2, m);
        if c.r as int == mx {
            let w = c.g as int - c.b as int;
            let q = w * 3932160 / d;
            let x = c2 * abs_spec(q) / 3932160;
            lemma_round_trip_wave(w, d, c2, q, x);
            if w >= 0 {
                assert(mn == c.b as int);
                let hh = q;
                vstd::arithmetic::div_mod::lemma_small_mod(q as nat, 23592960);
                assert(to_hsl_spec(c) == (hh, s, l));
                vstd::arithmetic::div_mod::lemma_small_mod(hh as nat, 23592960);
                if q < 3932160 {
                    vstd::arithmetic::div_mod::lemma_small_mod(hh as nat, 7864320);
                    lemma_div_range(hh, 3932160, 0, 0);
                    assert(3932160 - abs_spec(hh % 7864320 - 3932160) == abs_spec(q));
                    lemma_clamp_near(c2 + m, mx, 3);
                    lemma_clamp_near(x + m, w + mn, 4);
                    lemma_clamp_near(m, mn, 1);
                } else {
                    assert(q == 3932160);
                    assert(w == d) by (nonlinear_arith)
                        requires
                            d * q <= w * 3932160,
                            w * 3932160 < d * q + d,
                            q == 3932160,
                            1 <= d,
                            w <= d,
                    {
                    }
                    vstd::arithmetic::div_mod::lemma_small_mod(3932160, 7864320);
                    lemma_div_range(hh, 3932160, 1, 1);
                    vstd::arithmetic::div_mod::lemma_div_by_multiple(c2, 3932160);
                    assert(c2 * 3932160 / 3932160 == c2);
                    lemma_clamp_near(c2 + m, mx, 3);
                    lemma_clamp_near(m, mn, 1);
                }
            } else {
                assert(mn == c.g as int);
                let h = q + 23592960;
                assert((23592960 + q) % 23592960 == q % 23592960) by {
                    vstd::arithmetic::div_mod::lemma_mod_add_multiples_vanish(q, 23592960);
                }
                vstd::arithmetic::div_mod::lemma_small_mod(h as nat, 23592960);
                assert(to_hsl_spec(c) == (h, s, l));
                let hh = h;
                vstd::arithmetic::div_mod::lemma_small_mod(hh as nat, 23592960);
                lemma_div_range(hh, 3932160, 5, 5);
                assert(hh == 7864320 * 2 + (hh - 15728640));
                vstd::arithmetic::div_mod::lemma_mod_multiples_vanish(2, hh - 15728640, 7864320);
                vstd::arithmetic::div_mod::lemma_small_mod((hh - 15728640) as nat, 7864320);
                assert(hh % 7864320 == hh - 15728640);
                assert(3932160 - abs_spec(hh % 7864320 - 3932160) == abs_spec(q));
                lemma_clamp_near(c2 + m, mx, 3);
                lemma_clamp_near(x + m, abs_spec(w) + mn, 4);
                lemma_clamp_near(m, mn, 1);
            }
        } else if c.g as int == mx {
            let w = c.b as int - c.r as int;
            let q = w * 3932160 / d;
            let x = c2 * abs_spec(q) / 3932160;
            lemma_round_trip_wave(w, d, c2, q, x);
            let hh = q + 7864320;
            vstd::arithmetic::div_mod::lemma_small_mod(hh as nat, 23592960);
            assert(to_hsl_spec(c) == (hh, s, l));
            if w >= 0 {
                assert(mn == c.r as int);
                if q < 3932160 {
                    lemma_div_range(hh, 3932160, 2, 2);
                    assert(hh == 7864320 * 1 + q);
                    vstd::arithmetic::div_mod::lemma_mod_multiples_vanish(1, q, 7864320);
                    vstd::arithmetic::div_mod::lemma_small_mod(q as nat, 7864320);
                    assert(hh % 7864320 == q);
                    assert(3932160 - abs_spec(hh % 7864320 - 3932160) == abs_spec(q));
                    lemma_clamp_near(c2 + m, mx, 3);
                    lemma_clamp_near(x + m, w + mn, 4);
                    lemma_clamp_near(m, mn, 1);
                } else {
                    assert(q == 3932160);
                    assert(w == d) by (nonlinear_arith)
                        requires
                            d * q <= w * 3932160,
                            w * 3932160 < d * q + d,
                            q == 3932160,
                            1 <= d,
                            w <= d,
                    {
                    }
                    assert(hh == 11796480);
                    lemma_div_range(hh, 3932160, 3, 3);
                    assert(hh == 7864320 * 1 + 3932160);
                    vstd::arithmetic::div_mod::lemma_mod_multiples_vanish(1, 3932160, 7864320);
                    vstd::arithmetic::div_mod::lemma_small_mod(3932160, 7864320);
                    assert(hh % 7864320 == 3932160);
                    vstd::arithmetic::div_mod::lemma_div_by_multiple(c2, 3932160);
                    assert(c2 * 3932160 / 3932160 == c2);
                    lemma_clamp_near(c2 + m, mx, 3);
                    lemma_clamp_near(m, mn, 1);
                }
            } else {
                assert(mn == c.b as int);
                // The minimum channel is strictly below the maximum
                // here, so the offset cannot reach a full sextant.
                assert(q >= -3932159) by (nonlinear_arith)
                    requires
                        d * q <= w * 3932160,
                        w * 3932160 < d * q + d,
                        -d + 1 <= w,
                        1 <= d <= 65536,
                {
                }
                lemma_div_range(hh, 3932160, 1, 1);
                vstd::arithmetic::div_mod::lemma_small_mod(hh as nat, 7864320);
                assert(3932160 - abs_spec(hh % 7864320 - 3932160) == abs_spec(q));
                lemma_clamp_near(c2 + m, mx, 3);
                lemma_clamp_near(x + m, abs_spec(w) + mn, 4);
                lemma_clamp_near(m, mn, 1);
            }
        } else {
            let w = c.r as int - c.g as int;
            let q = w * 3932160 / d;
            let x = c2 * abs_spec(q) / 3932160;
            lemma_round_trip_wave(w, d, c2, q, x);
            let hh = q + 15728640;
            // Both other channels are strictly below the maximum, so
            // the offset stays strictly inside a sextant either way.
            assert(q <= 3932159) by (nonlinear_arith)
                requires
                    d * q <= w * 3932160,
                    w <= d - 1,
                    1 <= d <= 65536,
            {
            }
            assert(q >= -3932159) by (nonlinear_arith)
                requires
                    d * q <= w * 3932160,
                    w * 3932160 < d * q + d,
                    -d + 1 <= w,
                    1 <= d <= 65536,
            {
            }
            vstd::arithmetic::div_mod::lemma_small_mod(hh as nat, 23592960);
            assert(to_hsl_spec(c) == (hh, s, l));
            if w >= 0 {
                assert(mn == c.g as int);
                lemma_div_range(hh, 3932160, 4, 4);
                assert(hh == 7864320 * 2 + q);
                vstd::arithmetic::div_mod::lemma_mod_multiples_vanish(2, q, 7864320);
                vstd::arithmetic::div_mod::lemma_small_mod(q as nat, 7864320);
                assert(hh % 7864320 == q);
                assert(3932160 - abs_spec(hh % 7864320 - 3932160) == abs_spec(q));
                lemma_clamp_near(c2 + m, mx, 3);
                lemma_clamp_near(x + m, w + mn, 4);
                lemma_clamp_near(m, mn, 1);
            } else {
                assert(mn == c.r as int);
                lemma_div_range(hh, 3932160, 3, 3);
                assert(hh == 7864320 * 1 + (q + 7864320));
                vstd::arithmetic::div_mod::lemma_mod_multiples_vanish(1, q + 7864320, 7864320);
                vstd::arithmetic::div_mod::lemma_small_mod((q + 7864320) as nat, 7864320);
                assert(hh % 7864320 == q + 7864320);
                assert(3932160 - abs_spec(hh % 7864320 - 3932160) == abs_spec(q));
                lemma_clamp_near(c2 + m, mx, 3);
                lemma_clamp_near(x + m, abs_spec(w) + mn, 4);
                lemma_clamp_near(m, mn, 1);
            }
        }
    }
}

/// The hue is periodic: a full extra turn in either direction leaves
/// the HSL conversion unchanged, so extrapolated pointer positions
/// normalize instead of failing.
pub proof fn lemma_from_hsl_hue_wrap(h: int, s: int, l: int)
    ensures
        from_hsl_spec(h + 23592960, s, l) == from_hsl_spec(h, s, l),
        from_hsl_spec(h - 23592960, s, l) == from_hsl_spec(h, s, l),
{
    reveal(from_hsl_spec);
    vstd::arithmetic::div_mod::lemma_mod_add_multiples_vanish(h, 23592960);
    vstd::arithmetic::div_mod::lemma_mod_sub_multiples_vanish(h, 23592960);
}

/// Out-of-range saturation and lightness are clamped, never rejected:
/// feeding the clamped values gives the same color.
pub proof fn lemma_from_hsl_clamps(h: int, s: int, l: int)
    ensures
        from_hsl_spec(h, clamp_unit_spec(s), clamp_unit_spec(l)) == from_hsl_spec(h, s, l),
{
    reveal(from_hsl_spec);
}

/// Converting an achromatic color to HSL and back returns it exactly:
/// the round trip through HSL loses nothing where the hue is
/// degenerate.
pub proof fn lemma_hsl_round_trip_achromatic(c: Color)
    requires
        c.valid(),
        c.r == c.g,
        c.g == c.b,
        c.a == 65536,
    ensures
        from_hsl_spec(to_hsl_spec(c).0, to_hsl_spec(c).1, to_hsl_spec(c).2) == c,
{
    reveal(to_hsl_spec);
    reveal(from_hsl_spec);
    let l = (c.r as int + c.r as int) / 2;
    vstd::arithmetic::div_mod::lemma_div_multiples_vanish(c.r as int, 2);
    assert(2 * c.r as int == c.r as int + c.r as int);
    assert(l == c.r as int);
    assert(to_hsl_spec(c) == (0int, 0int, l));
    let out = from_hsl_spec(0, 0, l);
    vstd::arithmetic::mul::lemma_mul_by_zero_is_zero(65536 - abs_spec(2 * l - 65536));
    assert(out.r as int == c.r as int);
    assert(out == c);
}

} // verus!
