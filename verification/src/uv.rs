//! The 2-D "UV" picker: a 256 by 256 field that varies two channels
//! of the model (saturation and lightness for HSL, a and b for Oklab)
//! while holding the first channel at the value derived from the
//! current color, and the inverse mapping from a pointer position back
//! to a color.
//!
//! Pixel (x, y) holds the color at `u = x/255`, `v = 1 - y/255` (v
//! grows upward), and mapping normalized pointer coordinates uses the
//! same formulas, so a pick returns exactly the rendered pixel.  For
//! Oklab the u and v coordinates are fed to a and b directly in
//! [0, 1]; the asymmetry with their natural range is deliberate and
//! kept for behavioral fidelity.

use crate::arg::pixel_bytes;
use crate::arg::row_norm_spec;
use crate::arg::lemma_row_norm_round_trip;
use crate::color::from_hsl;
use crate::color::from_hsl_spec;
use crate::color::from_oklab;
use crate::color::from_oklab_spec;
use crate::color::lemma_channel_byte_bounds;
use crate::color::rgba_bytes_spec;
use crate::color::to_hsl_spec;
use crate::color::to_oklab_spec;
use crate::color::Color;
use crate::fixed::ediv;
use crate::fixed::SCALE;
use crate::image::Image;
use vstd::arithmetic::div_mod::lemma_fundamental_div_mod_converse;
use vstd::prelude::*;

verus! {

/// Which color model the field slices.
#[derive(Clone, Copy, Debug, PartialEq, Eq, Structural)]
pub enum UvPicker {
    Hsl,
    Oklab,
}

impl UvPicker {
    /// The channel the field holds fixed, derived from a color: hue
    /// for HSL, lightness for Oklab.
    pub open spec fn argument_spec(self, c: Color) -> int {
        match self {
            UvPicker::Hsl => to_hsl_spec(c).0,
            UvPicker::Oklab => to_oklab_spec(c).0,
        }
    }

    /// The field color at coordinates (u, v) with the held channel at
    /// `argument`: saturation u and lightness v for HSL, a and b for
    /// Oklab.
    pub open spec fn field_color_spec(self, argument: int, u: int, v: int) -> Color {
        match self {
            UvPicker::Hsl => from_hsl_spec(argument, u, v),
            UvPicker::Oklab => from_oklab_spec(argument, u, v),
        }
    }

    /// The color picked at normalized pointer position (x, y) on a
    /// color's field (top-left origin): `u = x`, `v = 1 - y`.
    pub open spec fn map_uv_spec(self, c: Color, x_norm: int, y_norm: int) -> Color {
        self.field_color_spec(self.argument_spec(c), x_norm, 65536 - y_norm)
    }

    /// The field position of a color, for drawing the cursor: (s, l)
    /// for HSL; the Oklab field draws its cursor at the origin.
    pub open spec fn uv_spec(self, c: Color) -> (int, int) {
        match self {
            UvPicker::Hsl => (to_hsl_spec(c).1, to_hsl_spec(c).2),
            UvPicker::Oklab => (0int, 0int),
        }
    }

    /// The held channel of a color.
    pub fn get_argument(&self, color: Color) -> (r: i64)
        requires
            color.valid(),
        ensures
            r as int == self.argument_spec(color),
            -327680 <= r <= 23592960,
            *self == UvPicker::Oklab ==> -327680 <= r <= 327680,
    {
        match self {
            UvPicker::Hsl => color.to_hsl().0,
            UvPicker::Oklab => color.to_oklab().0,
        }
    }

    /// The field position of a color, for drawing the cursor.
    pub fn get_uv(&self, color: Color) -> (r: (i64, i64))
        requires
            color.valid(),
        ensures
            (r.0 as int, r.1 as int) == self.uv_spec(color),
    {
        match self {
            UvPicker::Hsl => {
                let hsl = color.to_hsl();
                (hsl.1, hsl.2)
            },
            UvPicker::Oklab => (0, 0),
        }
    }

    /// Map normalized pointer coordinates to a color, using exactly
    /// the per-pixel formula of `render_image`.  Out-of-range
    /// coordinates extrapolate; the bounds are generous machine
    /// limits.
    pub fn map_uv(&self, color: Color, x_norm: i64, y_norm: i64) -> (out: Color)
        requires
            color.valid(),
            -786432 <= x_norm <= 786432,
            -786432 <= y_norm <= 786432,
        ensures
            out == self.map_uv_spec(color, x_norm as int, y_norm as int),
            out.valid(),
    {
        let argument = self.get_argument(color);
        let u = x_norm;
        let v = SCALE - y_norm;
        match self {
            UvPicker::Hsl => from_hsl(argument, u, v),
            UvPicker::Oklab => from_oklab(argument, u, v),
        }
    }

    /// Synthesize the field: 256 by 256 pixels, v growing upward.
    #[verifier::rlimit(60)]
    pub fn render_image(&self, argument: i64) -> (img: Image)
        requires
            -327680 <= argument <= 23592960,
            *self == UvPicker::Oklab ==> -327680 <= argument <= 327680,
        ensures
            is_field_render(img, *self, argument as int),
    {
        let mut pixels: Vec<u8> = Vec::new();
        let mut y: usize = 0;
        while y < 256
            invariant
                y <= 256,
                pixels@.len() == 4 * (256 * y),
                -327680 <= argument <= 23592960,
                *self == UvPicker::Oklab ==> -327680 <= argument <= 327680,
                forall|i: int|
                    0 <= i < 256 * y ==> #[trigger] pixel_bytes(pixels@, i) =~= field_sample_spec(
                        *self,
                        argument as int,
                        i,
                    ),
            decreases 256 - y,
        {
            proof {
                lemma_row_norm_round_trip(y as int);
            }
            let vnorm = SCALE - ediv(y as i64 * SCALE + 127, 255);
            let mut x: usize = 0;
            while x < 256
                invariant
                    x <= 256,
                    y < 256,
                    pixels@.len() == 4 * (256 * y + x),
                    vnorm as int == 65536 - row_norm_spec(y as int),
                    0 <= vnorm <= 65536,
                    -327680 <= argument <= 23592960,
                    *self == UvPicker::Oklab ==> -327680 <= argument <= 327680,
                    forall|i: int|
                        0 <= i < 256 * y + x ==> #[trigger] pixel_bytes(pixels@, i)
                            =~= field_sample_spec(*self, argument as int, i),
                decreases 256 - x,
            {
                proof {
                    lemma_row_norm_round_trip(x as int);
                }
                let unorm = ediv(x as i64 * SCALE + 127, 255);
                let px = match self {
                    UvPicker::Hsl => from_hsl(argument, unorm, vnorm),
                    UvPicker::Oklab => from_oklab(argument, unorm, vnorm),
                };
                let bytes = px.to_rgba8();
                proof {
                    lemma_channel_byte_bounds(px.r as int);
                    lemma_channel_byte_bounds(px.g as int);
                    lemma_channel_byte_bounds(px.b as int);
                    lemma_channel_byte_bounds(px.a as int);
                }
                let ghost oldp = pixels@;
                pixels.push(bytes[0]);
                pixels.push(bytes[1]);
                pixels.push(bytes[2]);
                pixels.push(bytes[3]);
                proof {
                    let newp = pixels@;
                    let i0 = 256 * (y as int) + x as int;
                    lemma_fundamental_div_mod_converse(i0, 256, y as int, x as int);
                    assert(px == self.field_color_spec(
                        argument as int,
                        row_norm_spec(i0 % 256),
                        65536 - row_norm_spec(i0 / 256),
                    ));
                    assert forall|i: int| 0 <= i < 256 * y + x + 1 implies #[trigger] pixel_bytes(
                        newp,
                        i,
                    ) =~= field_sample_spec(*self, argument as int, i) by {
                        if i < 256 * y + x {
                            assert(pixel_bytes(oldp, i) =~= field_sample_spec(
                                *self,
                                argument as int,
                                i,
                            ));
                            assert(pixel_bytes(newp, i) =~= pixel_bytes(oldp, i));
                        } else {
                            assert(newp[4 * i] == bytes[0]);
                            assert(newp[4 * i + 1] == bytes[1]);
                            assert(newp[4 * i + 2] == bytes[2]);
                            assert(newp[4 * i + 3] == bytes[3]);
                            assert(pixel_bytes(newp, i) =~= rgba_bytes_spec(px));
                        }
                    }
                }
                x = x + 1;
            }
            y = y + 1;
        }
        let img = Image::new(pixels, 256, 256);
        proof {
            assert forall|xx: int, yy: int|
                0 <= xx < 256 && 0 <= yy < 256 implies #[trigger] img.pixel_at(xx, yy)
                =~= rgba_bytes_spec(
                self.field_color_spec(
                    argument as int,
                    row_norm_spec(xx),
                    65536 - row_norm_spec(yy),
                ),
            ) by {
                let i = 256 * yy + xx;
                lemma_fundamental_div_mod_converse(i, 256, yy, xx);
                assert(pixel_bytes(img.pixels@, i) =~= field_sample_spec(
                    *self,
                    argument as int,
                    i,
                ));
                assert(img.pixel_at(xx, yy) =~= pixel_bytes(img.pixels@, i));
            }
        }
        img
    }
}

/// The four bytes of flat sample `i` of a rendered field: column
/// `i % 256`, row `i / 256`.
pub open spec fn field_sample_spec(p: UvPicker, argument: int, i: int) -> Seq<u8> {
    rgba_bytes_spec(
        p.field_color_spec(argument, row_norm_spec(i % 256), 65536 - row_norm_spec(i / 256)),
    )
}

/// What it means for an image to be the rendered UV field for a held
/// channel value: 256 by 256, and every pixel holds the RGBA8 bytes of
/// the field color at its normalized coordinates.
pub open spec fn is_field_render(img: Image, p: UvPicker, argument: int) -> bool {
    &&& img.wf()
    &&& img.width == 256
    &&& img.height == 256
    &&& forall|x: int, y: int|
        0 <= x < 256 && 0 <= y < 256 ==> #[trigger] img.pixel_at(x, y) == rgba_bytes_spec(
            p.field_color_spec(argument, row_norm_spec(x), 65536 - row_norm_spec(y)),
        )
}

/// Render/pick consistency for the field: for every pixel, the bytes
/// the renderer stored equal the color that mapping the pixel's
/// normalized coordinates picks, and rounding `norm * 255` selects
/// that same column and row.
pub proof fn lemma_field_render_pick_consistent(p: UvPicker, c: Color, img: Image, x: int, y: int)
    requires
        c.valid(),
        is_field_render(img, p, p.argument_spec(c)),
        0 <= x < 256,
        0 <= y < 256,
    ensures
        img.pixel_at(x, y) == rgba_bytes_spec(p.map_uv_spec(c, row_norm_spec(x), row_norm_spec(y))),
        (row_norm_spec(x) * 255 + 32768) / 65536 == x,
        (row_norm_spec(y) * 255 + 32768) / 65536 == y,
{
    lemma_row_norm_round_trip(x);
    lemma_row_norm_round_trip(y);
}

/// The field picker's cache: the image last rendered and the color it
/// was rendered from.
pub struct UvPickerState {
    pub image: Image,
    pub color: Color,
}

impl UvPickerState {
    /// The cache invariant: the stored image is exactly the rendered
    /// field for the stored color's held channel.
    pub open spec fn wf(self, p: UvPicker) -> bool {
        self.color.valid() && is_field_render(self.image, p, p.argument_spec(self.color))
    }

    /// Build the initial state by rendering the field once.
    pub fn build(p: &UvPicker, color: Color) -> (st: UvPickerState)
        requires
            color.valid(),
        ensures
            st.wf(*p),
            st.color == color,
    {
        let argument = p.get_argument(color);
        let image = p.render_image(argument);
        UvPickerState { image, color }
    }

    /// Adopt the observed color: if it equals the color the image was
    /// rendered from, the state is left untouched (no re-rendering);
    /// otherwise the field is re-rendered and the color recorded.
    pub fn sync(&mut self, p: &UvPicker, color: Color)
        requires
            old(self).wf(*p),
            color.valid(),
        ensures
            final(self).wf(*p),
            final(self).color == color,
            color == old(self).color ==> *final(self) == *old(self),
            color != old(self).color ==> is_field_render(
                final(self).image,
                *p,
                p.argument_spec(color),
            ),
    {
        if self.color == color {
        } else {
            let argument = p.get_argument(color);
            self.image = p.render_image(argument);
            self.color = color;
        }
    }
}

} // verus!
