use truster::canvas::Canvas;
use truster::ppm::{quantize, Rgb};

/// A color component quantized the way the serializer expects it: scaled by
/// 256, floored, clamped into a byte.
fn channel(c: f64) -> u8 {
    quantize((c * 256.0).floor() as i64)
}

fn pixel(r: f64, g: f64, b: f64) -> Rgb {
    Rgb { r: channel(r), g: channel(g), b: channel(b) }
}

#[test]
fn quantize_clamps_into_byte_range() {
    assert_eq!(quantize(-1), 0);
    assert_eq!(quantize(0), 0);
    assert_eq!(quantize(128), 128);
    assert_eq!(quantize(255), 255);
    assert_eq!(quantize(256), 255);
    assert_eq!(quantize(384), 255);
    assert_eq!(quantize(i64::MIN), 0);
    assert_eq!(quantize(i64::MAX), 255);
}

#[test]
fn channel_scaling_matches_reference_values() {
    assert_eq!(channel(1.5), 255);
    assert_eq!(channel(1.0), 255);
    assert_eq!(channel(0.5), 128);
    assert_eq!(channel(0.0), 0);
    assert_eq!(channel(-0.5), 0);
}

#[test]
fn pixmap_round_trip() {
    let mut canvas = Canvas::new(5, 3, Rgb { r: 0, g: 0, b: 0 });
    canvas.set(0, 0, pixel(1.5, 0.0, 0.0));
    canvas.set(2, 1, pixel(0.0, 0.5, 0.0));
    canvas.set(4, 2, pixel(-0.5, 0.0, 1.0));

    let expected = "P3\n\
                    5 3\n\
                    255\n\
                    255 0 0\n\
                    0 0 0\n\
                    0 0 0\n\
                    0 0 0\n\
                    0 0 0\n\
                    0 0 0\n\
                    0 0 0\n\
                    0 128 0\n\
                    0 0 0\n\
                    0 0 0\n\
                    0 0 0\n\
                    0 0 0\n\
                    0 0 0\n\
                    0 0 0\n\
                    0 0 255\n";
    assert_eq!(canvas.to_ppm(), expected);
}

#[test]
fn pixmap_single_pixel() {
    let mut canvas = Canvas::new(1, 1, Rgb { r: 0, g: 0, b: 0 });
    canvas.set(0, 0, Rgb { r: 0, g: 10, b: 255 });
    assert_eq!(canvas.to_ppm(), "P3\n1 1\n255\n0 10 255\n");
}

#[test]
fn pixmap_of_empty_canvas_is_header_only() {
    let canvas = Canvas::new(0, 0, Rgb { r: 0, g: 0, b: 0 });
    assert_eq!(canvas.to_ppm(), "P3\n0 0\n255\n");
}

#[test]
fn pixmap_wide_dimensions_in_decimal() {
    let canvas = Canvas::new(120, 0, Rgb { r: 7, g: 7, b: 7 });
    assert_eq!(canvas.to_ppm(), "P3\n120 0\n255\n");
}
