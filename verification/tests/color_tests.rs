use obj2brs::color::{
    convert_colorset_to_hsv, gamma_correct, hsv2rgb, hsv_average, hsv_distance, isqrt,
    match_hsv_to_colorset, rgb2hsv, Hsv, Rgba,
};
use obj2brs::palette::default_palette;

fn rgba(r: u8, g: u8, b: u8, a: u8) -> Rgba {
    Rgba { r, g, b, a }
}

#[test]
fn rgb2hsv_primaries() {
    let red = rgb2hsv(rgba(255, 0, 0, 255));
    assert_eq!((red.h, red.s, red.v, red.a), (0, 255, 255, 255));
    let green = rgb2hsv(rgba(0, 255, 0, 255));
    assert_eq!((green.h, green.s, green.v), (512, 255, 255));
    let blue = rgb2hsv(rgba(0, 0, 255, 255));
    assert_eq!((blue.h, blue.s, blue.v), (1024, 255, 255));
    let yellow = rgb2hsv(rgba(255, 255, 0, 255));
    assert_eq!((yellow.h, yellow.s, yellow.v), (256, 255, 255));
    let orange = rgb2hsv(rgba(255, 128, 0, 255));
    assert_eq!((orange.h, orange.s, orange.v), (128, 255, 255));
}

#[test]
fn rgb2hsv_grays() {
    let black = rgb2hsv(rgba(0, 0, 0, 255));
    assert_eq!((black.h, black.s, black.v), (0, 0, 0));
    let gray = rgb2hsv(rgba(100, 100, 100, 7));
    assert_eq!((gray.h, gray.s, gray.v, gray.a), (0, 0, 100, 7));
    let white = rgb2hsv(rgba(255, 255, 255, 255));
    assert_eq!((white.h, white.s, white.v), (0, 0, 255));
}

#[test]
fn hsv_round_trip_primaries() {
    for c in [
        rgba(255, 0, 0, 255),
        rgba(0, 255, 0, 255),
        rgba(0, 0, 255, 255),
        rgba(255, 255, 0, 255),
        rgba(17, 99, 203, 31),
    ] {
        let h = rgb2hsv(c);
        let back = hsv2rgb(h);
        // The integer transforms round-trip within small quantization error.
        assert!((back.r as i32 - c.r as i32).abs() <= 3, "{:?} -> {:?}", c, back);
        assert!((back.g as i32 - c.g as i32).abs() <= 3);
        assert!((back.b as i32 - c.b as i32).abs() <= 3);
        assert_eq!(back.a, c.a);
    }
}

#[test]
fn isqrt_values() {
    assert_eq!(isqrt(0), 0);
    assert_eq!(isqrt(1), 1);
    assert_eq!(isqrt(3), 1);
    assert_eq!(isqrt(4), 2);
    assert_eq!(isqrt(16320), 127);
    assert_eq!(isqrt(65025), 255);
    assert_eq!(isqrt(u32::MAX), 65535);
}

#[test]
fn gamma_correct_values() {
    let g = gamma_correct(rgba(64, 0, 255, 9));
    // sqrt(255 * 64) = sqrt(16320) -> 127
    assert_eq!((g.r, g.g, g.b, g.a), (127, 0, 255, 9));
}

#[test]
fn distance_zero_iff_equal_hsv() {
    let a = Hsv { h: 100, s: 20, v: 30, a: 255 };
    let b = Hsv { h: 100, s: 20, v: 30, a: 0 };
    // Alpha is ignored by the metric.
    assert_eq!(hsv_distance(&a, &b), 0);
    let c = Hsv { h: 101, s: 20, v: 30, a: 255 };
    assert!(hsv_distance(&a, &c) > 0);
}

#[test]
fn distance_hue_wraps() {
    let lo = Hsv { h: 10, s: 0, v: 0, a: 255 };
    let hi = Hsv { h: 1530, s: 0, v: 0, a: 255 };
    // 16 units the short way around, not 1520.
    assert_eq!(hsv_distance(&lo, &hi), 16 * 16);
}

#[test]
fn average_of_equal_colors_is_that_color() {
    let cs = vec![rgba(255, 0, 0, 255), rgba(255, 0, 0, 255), rgba(255, 0, 0, 255)];
    let avg = hsv_average(&cs);
    assert_eq!((avg.h, avg.s, avg.v, avg.a), (0, 255, 255, 255));
}

#[test]
fn average_hue_is_circular() {
    // Red (hue 0) and blue (hue 1024) average the short way around, through
    // magenta (1280), not through green (512).
    let avg = hsv_average(&vec![rgba(255, 0, 0, 255), rgba(0, 0, 255, 255)]);
    assert_eq!(avg.h, 1280);
    assert_eq!(avg.s, 255);
    assert_eq!(avg.v, 255);
}

#[test]
fn palette_round_trip_is_identity() {
    // Every palette color matches itself.
    let pal = default_palette();
    let hsv = convert_colorset_to_hsv(&pal);
    for i in 0..pal.len() {
        let idx = match_hsv_to_colorset(&hsv, &hsv[i]);
        assert_eq!(idx, i, "palette entry {} matched {}", i, idx);
    }
}

#[test]
fn match_prefers_lowest_index_on_ties() {
    let set = vec![
        Hsv { h: 0, s: 255, v: 255, a: 255 },
        Hsv { h: 0, s: 255, v: 255, a: 0 },
    ];
    let q = Hsv { h: 0, s: 255, v: 255, a: 128 };
    assert_eq!(match_hsv_to_colorset(&set, &q), 0);
}
