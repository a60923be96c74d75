//! End-to-end tests of the color conversions, the gradient
//! synthesizers, the inverse pointer mapping and the render cache.
//! All values are fixed-point: 65536 units is 1.0.

use chromagus::arg::ArgPicker;
use chromagus::arg::ArgPickerState;
use chromagus::color::from_hsl;
use chromagus::color::from_oklab;
use chromagus::color::Color;
use chromagus::uv::UvPicker;
use chromagus::uv::UvPickerState;

const SCALE: i64 = 65536;

fn color(r: i64, g: i64, b: i64) -> Color {
    Color { r, g, b, a: SCALE }
}

/// The normalized fixed-point position of sample `i` of a 256-sample
/// gradient, as the renderers compute it.
fn norm(i: i64) -> i64 {
    (i * SCALE + 127) / 255
}

fn assert_close(actual: Color, expected: Color, tol: i64) {
    assert!(
        (actual.r - expected.r).abs() <= tol
            && (actual.g - expected.g).abs() <= tol
            && (actual.b - expected.b).abs() <= tol,
        "colors differ by more than {}: {:?} vs {:?}",
        tol,
        actual,
        expected
    );
}

#[test]
fn hex_of_red_and_black() {
    assert_eq!(color(SCALE, 0, 0).to_hex(), "#ff0000");
    assert_eq!(color(0, 0, 0).to_hex(), "#000000");
    assert_eq!(color(0, SCALE, 0).to_hex(), "#00ff00");
    assert_eq!(color(SCALE, SCALE, SCALE).to_hex(), "#ffffff");
}

#[test]
fn rgba8_rounds_to_nearest() {
    assert_eq!(color(SCALE, 0, 0).to_rgba8(), [255, 0, 0, 255]);
    // 0.5 scales to 127.5 and rounds up.
    assert_eq!(color(SCALE / 2, 0, 0).to_rgba8()[0], 128);
    // One unit below 0.5 rounds down.
    assert_eq!(color(SCALE / 2 - 1, 0, 0).to_rgba8()[0], 127);
}

#[test]
fn hsl_boundaries_are_achromatic() {
    assert_eq!(color(0, 0, 0).to_hsl(), (0, 0, 0));
    assert_eq!(color(SCALE, SCALE, SCALE).to_hsl(), (0, 0, SCALE));
    assert_eq!(color(SCALE / 2, SCALE / 2, SCALE / 2).to_hsl(), (0, 0, SCALE / 2));
}

#[test]
fn hsl_of_primaries() {
    // Red: hue 0, full saturation, half lightness.
    assert_eq!(color(SCALE, 0, 0).to_hsl(), (0, SCALE, SCALE / 2));
    // Green: hue 120 degrees.
    assert_eq!(color(0, SCALE, 0).to_hsl(), (120 * SCALE, SCALE, SCALE / 2));
    // Blue: hue 240 degrees.
    assert_eq!(color(0, 0, SCALE).to_hsl(), (240 * SCALE, SCALE, SCALE / 2));
}

#[test]
fn from_hsl_wraps_hue_and_clamps() {
    let base = from_hsl(100 * SCALE, SCALE, SCALE / 2);
    // A full extra turn of hue changes nothing.
    assert_eq!(from_hsl(100 * SCALE + 360 * SCALE, SCALE, SCALE / 2), base);
    // A negative hue wraps the other way.
    assert_eq!(from_hsl(100 * SCALE - 360 * SCALE, SCALE, SCALE / 2), base);
    // Saturation and lightness clamp to the unit interval.
    assert_eq!(from_hsl(0, 2 * SCALE, SCALE / 2), from_hsl(0, SCALE, SCALE / 2));
    assert_eq!(from_hsl(0, SCALE, -SCALE), from_hsl(0, SCALE, 0));
}

#[test]
fn color_constructor_clamps() {
    let c = Color::rgba(-5, 70000, SCALE, SCALE);
    assert_eq!(c, color(0, SCALE, SCALE));
}

#[test]
fn hsl_round_trip_on_grid() {
    // Round trip within a per-channel tolerance of 4/65536 (about
    // 6e-5); the achromatic round trip is exact.
    let vals = [0, 1, 137, 13107, 21845, 32768, 49152, 65535, 65536];
    for &r in &vals {
        for &g in &vals {
            for &b in &vals {
                let c = color(r, g, b);
                let (h, s, l) = c.to_hsl();
                let back = from_hsl(h, s, l);
                assert_close(back, c, 4);
                if r == g && g == b {
                    assert_eq!(back, c);
                }
            }
        }
    }
}

#[test]
fn oklab_round_trip_on_grid() {
    // The Oklab pipeline runs through gamma curves, two matrices and
    // cube roots; the fixed-point round trip stays within 256/65536
    // (about 4e-3) per channel.
    let vals = [0, 137, 13107, 32768, 49152, 65536];
    for &r in &vals {
        for &g in &vals {
            for &b in &vals {
                let c = color(r, g, b);
                let (lv, av, bv) = c.to_oklab();
                let back = from_oklab(lv, av, bv);
                assert_close(back, c, 256);
            }
        }
    }
}

#[test]
fn oklab_of_black_is_origin() {
    let black = color(0, 0, 0);
    assert_eq!(black.to_oklab(), (0, 0, 0));
    assert_eq!(from_oklab(0, 0, 0), black);
}

#[test]
fn oklab_of_red_round_trips_tightly() {
    let red = color(SCALE, 0, 0);
    let (lv, av, bv) = red.to_oklab();
    // Oklab lightness of pure red is about 0.628.
    assert!((lv as f64 / 65536.0 - 0.6280).abs() < 0.01, "L = {}", lv);
    assert!(av > 0 && bv > 0);
    assert_close(from_oklab(lv, av, bv), red, 16);
}

#[test]
fn end_to_end_red_scenario() {
    // Pure red converts to hue 0, saturation 1, lightness 1/2; the
    // top row of the HSL strip (t = 1, hue 360 == 0) is red again,
    // and picking at the very top returns that same row color.
    let red = color(SCALE, 0, 0);
    assert_eq!(red.to_hsl(), (0, SCALE, SCALE / 2));
    assert_eq!(from_hsl(360 * SCALE, SCALE, SCALE / 2), red);

    let strip = ArgPicker::Hsl.render_image(red);
    assert_eq!(strip.width, 1);
    assert_eq!(strip.height, 256);
    assert_eq!(&strip.pixels[0..4], &[255, 0, 0, 255]);

    let picked = ArgPicker::Hsl.map_argument(red, 0);
    assert_eq!(picked, red);
    assert_eq!(picked.to_rgba8(), [255, 0, 0, 255]);
}

#[test]
fn argument_strip_matches_mapping_hsl() {
    let c = color(30000, 50000, 10000);
    let strip = ArgPicker::Hsl.render_image(c);
    for y in [0i64, 1, 64, 127, 128, 200, 255] {
        let picked = ArgPicker::Hsl.map_argument(c, norm(y));
        let i = (4 * y) as usize;
        assert_eq!(&strip.pixels[i..i + 4], &picked.to_rgba8()[..]);
    }
}

#[test]
fn argument_strip_matches_mapping_oklab() {
    let c = color(30000, 50000, 10000);
    let strip = ArgPicker::Oklab.render_image(c);
    for y in [0i64, 1, 64, 127, 128, 200, 255] {
        let picked = ArgPicker::Oklab.map_argument(c, norm(y));
        let i = (4 * y) as usize;
        assert_eq!(&strip.pixels[i..i + 4], &picked.to_rgba8()[..]);
    }
}

#[test]
fn uv_field_matches_mapping_hsl() {
    let c = color(30000, 50000, 10000);
    let arg = UvPicker::Hsl.get_argument(c);
    let field = UvPicker::Hsl.render_image(arg);
    assert_eq!(field.width, 256);
    assert_eq!(field.height, 256);
    for (x, y) in [(0i64, 0i64), (255, 0), (0, 255), (255, 255), (13, 200), (128, 127)] {
        let picked = UvPicker::Hsl.map_uv(c, norm(x), norm(y));
        let i = (4 * (y * 256 + x)) as usize;
        assert_eq!(&field.pixels[i..i + 4], &picked.to_rgba8()[..]);
    }
}

#[test]
fn uv_field_matches_mapping_oklab() {
    let c = color(30000, 50000, 10000);
    let arg = UvPicker::Oklab.get_argument(c);
    let field = UvPicker::Oklab.render_image(arg);
    for (x, y) in [(0i64, 0i64), (255, 255), (100, 30)] {
        let picked = UvPicker::Oklab.map_uv(c, norm(x), norm(y));
        let i = (4 * (y * 256 + x)) as usize;
        assert_eq!(&field.pixels[i..i + 4], &picked.to_rgba8()[..]);
    }
}

#[test]
fn uv_cursor_position() {
    let c = color(SCALE, 0, 0);
    assert_eq!(UvPicker::Hsl.get_uv(c), (SCALE, SCALE / 2));
    assert_eq!(UvPicker::Oklab.get_uv(c), (0, 0));
}

#[test]
fn arg_sync_reuses_buffer_for_same_color() {
    let red = color(SCALE, 0, 0);
    let p = ArgPicker::Hsl;
    let mut st = ArgPickerState::build(&p, red);
    let before = st.image.pixels.clone();
    // Same color: nothing is recomputed and the buffer is unchanged.
    st.sync(&p, red);
    assert_eq!(st.color, red);
    assert_eq!(st.image.pixels, before);
    // A different color (with different held saturation and
    // lightness) replaces the buffer and the cached color.
    let dull = color(20000, 30000, 40000);
    st.sync(&p, dull);
    assert_eq!(st.color, dull);
    assert_eq!(st.image.pixels, p.render_image(dull).pixels);
    assert_ne!(st.image.pixels, before);
}

#[test]
fn uv_sync_reuses_buffer_for_same_color() {
    let red = color(SCALE, 0, 0);
    let p = UvPicker::Hsl;
    let mut st = UvPickerState::build(&p, red);
    let before = st.image.pixels.clone();
    st.sync(&p, red);
    assert_eq!(st.color, red);
    assert_eq!(st.image.pixels, before);
    let green = color(0, SCALE, 0);
    st.sync(&p, green);
    assert_eq!(st.color, green);
    assert_eq!(st.image.pixels, p.render_image(p.get_argument(green)).pixels);
}

#[test]
fn held_arguments_follow_variant() {
    let c = color(30000, 50000, 10000);
    let (h, s, l) = c.to_hsl();
    assert_eq!(ArgPicker::Hsl.get_argument(c), h);
    assert_eq!(ArgPicker::Hsl.get_arguments(c), (s, l));
    let (lv, av, bv) = c.to_oklab();
    assert_eq!(ArgPicker::Oklab.get_argument(c), lv);
    assert_eq!(ArgPicker::Oklab.get_arguments(c), (av, bv));
    assert_eq!(UvPicker::Hsl.get_argument(c), h);
    assert_eq!(UvPicker::Oklab.get_argument(c), lv);
}
