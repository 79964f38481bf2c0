use vstd::prelude::*;

verus! {

/// A hue/saturation/lightness triple in fixed point: hue in milli-degrees
/// inside `[0, 360_000)`, saturation and lightness in milli-percent inside
/// `[0, 100_000]`. Saturation is the consumable resource of a dot.
#[derive(Clone, Copy, PartialEq, Eq, Structural, Debug)]
pub struct Color {
    pub hue: i64,
    pub sat: i64,
    pub light: i64,
}

pub open spec fn color_valid(c: Color) -> bool {
    &&& 0 <= c.hue < 360_000
    &&& 0 <= c.sat <= 100_000
    &&& 0 <= c.light <= 100_000
}

/// The hue distance folded into `[0, 180_000]`: the angular difference of the
/// two hues around the circle.
pub open spec fn hue_diff_spec(a: int, b: int) -> int {
    let d = if a >= b {
        a - b
    } else {
        b - a
    };
    if d > 180_000 {
        360_000 - d
    } else {
        d
    }
}

impl Color {
    /// The player's initial coat: white, with no saturation left to take.
    pub fn white() -> (c: Color)
        ensures
            c == (Color { hue: 0, sat: 0, light: 100_000 }),
    {
        Color { hue: 0, sat: 0, light: 100_000 }
    }

    /// Folded angular distance between this hue and another.
    pub fn hue_diff(&self, other: &Color) -> (d: i64)
        requires
            color_valid(*self),
            color_valid(*other),
        ensures
            d == hue_diff_spec(self.hue as int, other.hue as int),
            0 <= d <= 180_000,
    {
        let raw: i64 = if self.hue >= other.hue {
            self.hue - other.hue
        } else {
            other.hue - self.hue
        };
        if raw > 180_000 {
            360_000 - raw
        } else {
            raw
        }
    }
}

} // verus!
