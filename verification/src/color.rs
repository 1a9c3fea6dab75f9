//! Colors: RGB triples in fixed point.
//!
//! Channels nominally lie in `[0, ONE]`; accumulation may exceed `ONE`
//! transiently and is clamped when a pixel is written out.

use vstd::prelude::*;

use crate::geom::{in_bound, Vec3};
use crate::num::{div_floor, isqrt_u128, lemma_div_bounds, lemma_mul_bound, sqrt_spec, wide_mul,
    ONE};

verus! {

/// An RGB color; each channel is a real value in `[0, 1]` scaled by `ONE`.
#[derive(Clone, Copy, PartialEq, Eq, Structural, Debug)]
pub struct Color {
    pub rgb: Vec3,
}

impl Color {
    /// The black color.
    pub open spec fn spec_zero() -> Color {
        Color { rgb: Vec3 { x: 0, y: 0, z: 0 } }
    }

    /// Channels within `[0, ONE]`.
    pub open spec fn wf(self) -> bool {
        0 <= self.rgb.x <= ONE && 0 <= self.rgb.y <= ONE && 0 <= self.rgb.z <= ONE
    }

    pub fn new_rgb(r: i64, g: i64, b: i64) -> (c: Color)
        ensures
            c == (Color { rgb: Vec3 { x: r, y: g, z: b } }),
    {
        Color::new(Vec3 { x: r, y: g, z: b })
    }

    pub fn new(vec: Vec3) -> (c: Color)
        ensures
            c == (Color { rgb: vec }),
    {
        Color { rgb: vec }
    }

    pub fn zero() -> (c: Color)
        ensures
            c == (Color { rgb: Vec3 { x: 0, y: 0, z: 0 } }),
    {
        Color::new(Vec3 { x: 0, y: 0, z: 0 })
    }

    /// Add two colors channelwise (light accumulation).
    pub fn add(self, w: Color) -> (c: Color)
        requires
            i64::MIN <= self.rgb.x + w.rgb.x <= i64::MAX,
            i64::MIN <= self.rgb.y + w.rgb.y <= i64::MAX,
            i64::MIN <= self.rgb.z + w.rgb.z <= i64::MAX,
        ensures
            c.rgb.x == self.rgb.x + w.rgb.x,
            c.rgb.y == self.rgb.y + w.rgb.y,
            c.rgb.z == self.rgb.z + w.rgb.z,
    {
        Color::new(self.rgb.add(&w.rgb))
    }

    /// Sum of a sample buffer, channelwise.
    pub fn sum(colors: &Vec<Color>) -> (c: Color)
        requires
            forall|i: int|
                0 <= i < colors@.len() ==> in_bound((#[trigger] colors@[i]).rgb, 0x100000000int),
            colors@.len() <= 0x10000000,
        ensures
            c.rgb.x == sum_x(colors@),
            c.rgb.y == sum_y(colors@),
            c.rgb.z == sum_z(colors@),
    {
        let mut acc = Vec3 { x: 0i64, y: 0i64, z: 0i64 };
        let mut i: usize = 0;
        let n = colors.len();
        while i < n
            invariant
                n == colors@.len(),
                i <= n,
                n <= 0x10000000,
                forall|j: int|
                    0 <= j < colors@.len() ==> in_bound((#[trigger] colors@[j]).rgb,
                    0x100000000int),
                acc.x == sum_x(colors@.subrange(0, i as int)),
                acc.y == sum_y(colors@.subrange(0, i as int)),
                acc.z == sum_z(colors@.subrange(0, i as int)),
                -0x100000000int * i <= acc.x <= 0x100000000int * i,
                -0x100000000int * i <= acc.y <= 0x100000000int * i,
                -0x100000000int * i <= acc.z <= 0x100000000int * i,
            decreases n - i,
        {
            let el = colors[i];
            proof {
                assert(colors@.subrange(0, i + 1).drop_last() == colors@.subrange(0, i as int));
                assert(0x100000000int * (i + 1) == 0x100000000int * (i as int) + 0x100000000int)
                    by (nonlinear_arith);
            }
            acc.x = acc.x + el.rgb.x;
            acc.y = acc.y + el.rgb.y;
            acc.z = acc.z + el.rgb.z;
            i = i + 1;
        }
        proof {
            assert(colors@.subrange(0, n as int) == colors@);
        }
        Color::new(acc)
    }
}

/// One channel of the output pixel: average the accumulated channel over
/// the samples, gamma-correct by square root, clamp and scale to a byte.
pub open spec fn spec_channel_byte(ch: int, samples: int) -> int {
    let avg = ch / samples;
    let g = sqrt_spec(avg * (ONE as int));
    (256 * spec_clamp(g, 0, 65470)) / (ONE as int)
}

pub open spec fn spec_clamp(x: int, min: int, max: int) -> int {
    if x < min {
        min
    } else if x > max {
        max
    } else {
        x
    }
}

impl Color {
    /// The bytes this accumulated pixel writes, for a sample count:
    /// per channel `256 * clamp(sqrt(channel / samples), 0, 0.999)`.
    pub fn write(&self, samples: u32) -> (bytes: [u8; 3])
        requires
            samples >= 1,
            0 <= self.rgb.x,
            0 <= self.rgb.y,
            0 <= self.rgb.z,
        ensures
            bytes[0] == spec_channel_byte(self.rgb.x as int, samples as int),
            bytes[1] == spec_channel_byte(self.rgb.y as int, samples as int),
            bytes[2] == spec_channel_byte(self.rgb.z as int, samples as int),
    {
        let r = Color::channel_byte(self.rgb.x, samples);
        let g = Color::channel_byte(self.rgb.y, samples);
        let b = Color::channel_byte(self.rgb.z, samples);
        [r, g, b]
    }

    fn channel_byte(ch: i64, samples: u32) -> (byte: u8)
        requires
            samples >= 1,
            0 <= ch,
        ensures
            byte == spec_channel_byte(ch as int, samples as int),
    {
        proof {
            lemma_div_bounds(ch as int, samples as int);
        }
        let avg = div_floor(ch, samples as i64);
        let scaled = wide_mul(avg, ONE);
        let root128 = isqrt_u128(scaled as u128);
        proof {
            assert(root128 <= 0xffffffffffu128) by (nonlinear_arith)
                requires
                    root128 as int * root128 as int <= scaled as int,
                    scaled as int <= 0x8000000000000000int * 65536,
            ;
        }
        let root = root128 as i64;
        Color::scale_color_component(root)
    }

    /// Clamp a gamma-corrected channel and scale it to a byte.
    fn scale_color_component(c: i64) -> (byte: u8)
        ensures
            byte == (256 * spec_clamp(c as int, 0, 65470)) / (ONE as int),
    {
        let clamped = Color::clamp_color(c);
        proof {
            lemma_mul_bound(256, clamped as int, 256, 65470);
            lemma_div_bounds(256 * clamped as int, ONE as int);
            crate::num::lemma_div_range(256 * clamped as int, 256, ONE as int);
        }
        let v = div_floor(256 * clamped, ONE);
        v as u8
    }

    /// Clamp a channel to the printable range `[0, 0.999]`.
    pub fn clamp_color(x: i64) -> (r: i64)
        ensures
            r == spec_clamp(x as int, 0, 65470),
    {
        Color::clamp(x, 0, 65470)
    }

    /// Clamp `x` into `[min, max]`.
    pub fn clamp(x: i64, min: i64, max: i64) -> (r: i64)
        requires
            min <= max,
        ensures
            r == spec_clamp(x as int, min as int, max as int),
    {
        if x < min {
            min
        } else if x > max {
            max
        } else {
            x
        }
    }
}

/// Channelwise sums of a sequence of colors.
pub open spec fn sum_x(s: Seq<Color>) -> int
    decreases s.len(),
{
    if s.len() == 0 {
        0
    } else {
        sum_x(s.drop_last()) + s.last().rgb.x
    }
}

pub open spec fn sum_y(s: Seq<Color>) -> int
    decreases s.len(),
{
    if s.len() == 0 {
        0
    } else {
        sum_y(s.drop_last()) + s.last().rgb.y
    }
}

pub open spec fn sum_z(s: Seq<Color>) -> int
    decreases s.len(),
{
    if s.len() == 0 {
        0
    } else {
        sum_z(s.drop_last()) + s.last().rgb.z
    }
}

} // verus!
