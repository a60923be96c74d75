//! The 1-D "argument" picker: a 256-row strip that varies one channel
//! of the model (hue for HSL, lightness for Oklab) while holding the
//! other two at the values derived from the current color, and the
//! inverse mapping from a pointer position back to a color.
//!
//! The strip stores one sample per row.  Row `y` holds the color at
//! free-axis value `t = 1 - y/255`, and mapping a normalized pointer
//! height `y_norm` uses the same formula with `t = 1 - y_norm`, so a
//! pick returns exactly the rendered pixel.

use crate::color::from_hsl;
use crate::color::from_hsl_spec;
use crate::color::from_oklab;
use crate::color::from_oklab_spec;
use crate::color::lemma_channel_byte_bounds;
use crate::color::rgba_bytes_spec;
use crate::color::to_hsl_spec;
use crate::color::to_oklab_spec;
use crate::color::Color;
use crate::fixed::ediv;
use crate::fixed::lemma_div_range;
use crate::fixed::SCALE;
use crate::image::Image;
use vstd::arithmetic::div_mod::lemma_fundamental_div_mod;
use vstd::prelude::*;

verus! {

/// Which color model the strip slices.
#[derive(Clone, Copy, Debug, PartialEq, Eq, Structural)]
pub enum ArgPicker {
    Hsl,
    Oklab,
}

/// The normalized free-axis position stored in row (or column) `y` of
/// a 256-sample gradient: `y/255`, rounded to the nearest fixed-point
/// unit.
pub open spec fn row_norm_spec(y: int) -> int {
    (y * 65536 + 127) / 255
}

/// A sample's normalized position lies in [0, 1], and rounding
/// `norm * 255` recovers the sample index.
pub proof fn lemma_row_norm_round_trip(y: int)
    requires
        0 <= y < 256,
    ensures
        0 <= row_norm_spec(y) <= 65536,
        (row_norm_spec(y) * 255 + 32768) / 65536 == y,
{
    lemma_div_range(y * 65536 + 127, 255, 0, 65536);
    lemma_fundamental_div_mod(y * 65536 + 127, 255);
    let q = row_norm_spec(y);
    lemma_div_range(q * 255 + 32768, 65536, y, y);
}

impl ArgPicker {
    /// The channel the strip varies, derived from a color: hue for
    /// HSL, lightness for Oklab.
    pub open spec fn argument_spec(self, c: Color) -> int {
        match self {
            ArgPicker::Hsl => to_hsl_spec(c).0,
            ArgPicker::Oklab => to_oklab_spec(c).0,
        }
    }

    /// The two channels the strip holds fixed, derived from a color:
    /// saturation and lightness for HSL, a and b for Oklab.
    pub open spec fn arguments_spec(self, c: Color) -> (int, int) {
        match self {
            ArgPicker::Hsl => (to_hsl_spec(c).1, to_hsl_spec(c).2),
            ArgPicker::Oklab => (to_oklab_spec(c).1, to_oklab_spec(c).2),
        }
    }

    /// The strip color at free-axis value `t`, with the held channels
    /// derived from `c`.
    pub open spec fn slice_color_spec(self, c: Color, t: int) -> Color {
        let held = self.arguments_spec(c);
        match self {
            ArgPicker::Hsl => from_hsl_spec(t * 360, held.0, held.1),
            ArgPicker::Oklab => from_oklab_spec(t, held.0, held.1),
        }
    }

    /// The color picked at normalized pointer height `y_norm`
    /// (top-left origin): the free axis runs upward, `t = 1 - y_norm`.
    pub open spec fn map_argument_spec(self, c: Color, y_norm: int) -> Color {
        self.slice_color_spec(c, 65536 - y_norm)
    }

    /// The varied channel of a color.
    pub fn get_argument(&self, color: Color) -> (r: i64)
        requires
            color.valid(),
        ensures
            r as int == self.argument_spec(color),
    {
        match self {
            ArgPicker::Hsl => color.to_hsl().0,
            ArgPicker::Oklab => color.to_oklab().0,
        }
    }

    /// The two held channels of a color.
    pub fn get_arguments(&self, color: Color) -> (r: (i64, i64))
        requires
            color.valid(),
        ensures
            (r.0 as int, r.1 as int) == self.arguments_spec(color),
            -327680 <= r.0 <= 327680,
            -327680 <= r.1 <= 327680,
    {
        match self {
            ArgPicker::Hsl => {
                let hsl = color.to_hsl();
                (hsl.1, hsl.2)
            },
            ArgPicker::Oklab => {
                let lab = color.to_oklab();
                (lab.1, lab.2)
            },
        }
    }

    /// Map a normalized pointer height to a color, using exactly the
    /// per-row formula of `render_image`.  Out-of-range heights
    /// extrapolate; the bound is a generous machine limit.
    pub fn map_argument(&self, color: Color, y_norm: i64) -> (out: Color)
        requires
            color.valid(),
            -786432 <= y_norm <= 786432,
        ensures
            out == self.map_argument_spec(color, y_norm as int),
            out.valid(),
    {
        let t = SCALE - y_norm;
        let held = self.get_arguments(color);
        match self {
            ArgPicker::Hsl => from_hsl(t * 360, held.0, held.1),
            ArgPicker::Oklab => from_oklab(t, held.0, held.1),
        }
    }

    /// Synthesize the strip: one pixel per row, 256 rows, the top row
    /// at the top of the free axis.
    #[verifier::rlimit(60)]
    pub fn render_image(&self, color: Color) -> (img: Image)
        requires
            color.valid(),
        ensures
            is_strip_render(img, *self, color),
    {
        let held = self.get_arguments(color);
        let mut pixels: Vec<u8> = Vec::new();
        let mut y: usize = 0;
        while y < 256
            invariant
                y <= 256,
                pixels@.len() == 4 * y,
                color.valid(),
                (held.0 as int, held.1 as int) == self.arguments_spec(color),
                -327680 <= held.0 <= 327680,
                -327680 <= held.1 <= 327680,
                forall|yy: int|
                    0 <= yy < y ==> #[trigger] pixel_bytes(pixels@, yy) =~= rgba_bytes_spec(
                        self.map_argument_spec(color, row_norm_spec(yy)),
                    ),
            decreases 256 - y,
        {
            proof {
                lemma_row_norm_round_trip(y as int);
            }
            let norm = ediv(y as i64 * SCALE + 127, 255);
            let t = SCALE - norm;
            let px = match self {
                ArgPicker::Hsl => from_hsl(t * 360, held.0, held.1),
                ArgPicker::Oklab => from_oklab(t, held.0, held.1),
            };
            proof {
                assert(px == self.map_argument_spec(color, row_norm_spec(y as int)));
            }
            let bytes = px.to_rgba8();
            proof {
                lemma_channel_byte_bounds(px.r as int);
                lemma_channel_byte_bounds(px.g as int);
                lemma_channel_byte_bounds(px.b as int);
                lemma_channel_byte_bounds(px.a as int);
            }
            let ghost oldp = pixels@;
            pixels.push(bytes[0]);
            pixels.push(bytes[1]);
            pixels.push(bytes[2]);
            pixels.push(bytes[3]);
            proof {
                let newp = pixels@;
                assert forall|yy: int| 0 <= yy < y + 1 implies #[trigger] pixel_bytes(newp, yy)
                    =~= rgba_bytes_spec(self.map_argument_spec(color, row_norm_spec(yy))) by {
                    if yy < y {
                        assert(pixel_bytes(oldp, yy) =~= rgba_bytes_spec(
                            self.map_argument_spec(color, row_norm_spec(yy)),
                        ));
                        assert(pixel_bytes(newp, yy) =~= pixel_bytes(oldp, yy));
                    } else {
                        assert(newp[4 * yy] == bytes[0]);
                        assert(newp[4 * yy + 1] == bytes[1]);
                        assert(newp[4 * yy + 2] == bytes[2]);
                        assert(newp[4 * yy + 3] == bytes[3]);
                        assert(pixel_bytes(newp, yy) =~= rgba_bytes_spec(px));
                    }
                }
            }
            y = y + 1;
        }
        let img = Image::new(pixels, 1, 256);
        proof {
            assert forall|yy: int| 0 <= yy < 256 implies img.pixel_at(0, yy) =~= rgba_bytes_spec(
                self.map_argument_spec(color, row_norm_spec(yy)),
            ) by {
                assert(pixel_bytes(img.pixels@, yy) =~= rgba_bytes_spec(
                    self.map_argument_spec(color, row_norm_spec(yy)),
                ));
            }
        }
        img
    }
}

/// The four bytes of sample `i` of a flat RGBA8 buffer.
pub open spec fn pixel_bytes(s: Seq<u8>, i: int) -> Seq<u8> {
    seq![s[4 * i], s[4 * i + 1], s[4 * i + 2], s[4 * i + 3]]
}

/// What it means for an image to be the rendered argument strip for a
/// color: one pixel wide, 256 rows, and every row holds the RGBA8
/// bytes of the color that mapping that row's normalized height picks.
pub open spec fn is_strip_render(img: Image, p: ArgPicker, c: Color) -> bool {
    &&& img.wf()
    &&& img.width == 1
    &&& img.height == 256
    &&& forall|y: int|
        0 <= y < 256 ==> #[trigger] img.pixel_at(0, y) == rgba_bytes_spec(
            p.map_argument_spec(c, row_norm_spec(y)),
        )
}

/// Render/pick consistency for the strip: for every row, the pixel the
/// renderer stored equals the color that mapping the row's normalized
/// height returns, and rounding `norm * 255` selects that same row.
pub proof fn lemma_strip_render_pick_consistent(p: ArgPicker, c: Color, img: Image, y: int)
    requires
        c.valid(),
        is_strip_render(img, p, c),
        0 <= y < 256,
    ensures
        img.pixel_at(0, y) == rgba_bytes_spec(p.map_argument_spec(c, row_norm_spec(y))),
        (row_norm_spec(y) * 255 + 32768) / 65536 == y,
{
    lemma_row_norm_round_trip(y);
}

/// The strip picker's cache: the image last rendered and the color it
/// was rendered from.
pub struct ArgPickerState {
    pub image: Image,
    pub color: Color,
}

impl ArgPickerState {
    /// The cache invariant: the stored image is exactly the rendered
    /// strip for the stored color.
    pub open spec fn wf(self, p: ArgPicker) -> bool {
        self.color.valid() && is_strip_render(self.image, p, self.color)
    }

    /// Build the initial state by rendering the strip once.
    pub fn build(p: &ArgPicker, color: Color) -> (st: ArgPickerState)
        requires
            color.valid(),
        ensures
            st.wf(*p),
            st.color == color,
    {
        let image = p.render_image(color);
        ArgPickerState { image, color }
    }

    /// Adopt the observed color: if it equals the color the image was
    /// rendered from, the state is left untouched (no re-rendering);
    /// otherwise the strip is re-rendered and the color recorded.
    pub fn sync(&mut self, p: &ArgPicker, color: Color)
        requires
            old(self).wf(*p),
            color.valid(),
        ensures
            final(self).wf(*p),
            final(self).color == color,
            color == old(self).color ==> *final(self) == *old(self),
            color != old(self).color ==> is_strip_render(final(self).image, *p, color),
    {
        if self.color == color {
        } else {
            self.image = p.render_image(color);
            self.color = color;
        }
    }
}

} // verus!
