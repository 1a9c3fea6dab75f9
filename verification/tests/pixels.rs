//! Pixel accumulation, gamma correction and byte scaling.

use pathtracer::color::Color;
use pathtracer::geom::Vec3;
use pathtracer::num::ONE;

#[test]
fn full_channel_writes_the_brightest_byte() {
    let c = Color::new_rgb(ONE, ONE, ONE);
    assert_eq!(c.write(1), [255, 255, 255]);
}

#[test]
fn black_writes_zero_bytes() {
    assert_eq!(Color::zero().write(1), [0, 0, 0]);
}

#[test]
fn gamma_correction_takes_the_square_root() {
    // A quarter-intensity channel comes out at half intensity: the byte is
    // 256 * 0.5 == 128.
    let c = Color::new_rgb(ONE / 4, 0, ONE);
    assert_eq!(c.write(1), [128, 0, 255]);
}

#[test]
fn averaging_divides_by_the_sample_count() {
    // Four samples of a full channel average back to the full channel.
    let c = Color::new_rgb(4 * ONE, ONE, 0);
    assert_eq!(c.write(4), [255, 128, 0]);
}

#[test]
fn clamp_bounds_its_argument() {
    assert_eq!(Color::clamp(-5, 0, 10), 0);
    assert_eq!(Color::clamp(5, 0, 10), 5);
    assert_eq!(Color::clamp(50, 0, 10), 10);
    assert_eq!(Color::clamp_color(ONE), 65470);
    assert_eq!(Color::clamp_color(-3), 0);
    assert_eq!(Color::clamp_color(100), 100);
}

#[test]
fn colors_add_and_sum_channelwise() {
    let a = Color::new_rgb(100, 200, 300);
    let b = Color::new_rgb(1, 2, 3);
    assert_eq!(a.add(b), Color::new_rgb(101, 202, 303));
    let buffer = vec![a, b, Color::new_rgb(9, 8, 7)];
    let total = Color::sum(&buffer);
    assert_eq!(total, Color::new_rgb(110, 210, 310));
    assert_eq!(Color::sum(&Vec::new()), Color::zero());
    assert_eq!(Color::new(Vec3::new(1, 2, 3)), Color::new_rgb(1, 2, 3));
}
