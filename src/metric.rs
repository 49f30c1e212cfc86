use vstd::arithmetic::div_mod::{lemma_div_is_ordered, lemma_div_multiples_vanish};
use vstd::prelude::*;

use crate::error::EngineError;

verus! {

/// Fixed-point scale: the value `v` stands for `v / UNIT`.
pub const UNIT: u64 = 1_000_000_000;

/// Largest full scale of a channel: a 16-bit sample premultiplied by a
/// 16-bit alpha (`65535 * 65535`).
pub const MAX_FULL: u64 = 4_294_836_225;

/// Bound on every per-pixel value (the luma weights sum to slightly above one).
pub const MAX_VALUE: u64 = 2_000_000_000;

/// Weights of the perceptual luma, in units of one ten-millionth.
pub const LUMA_R: u64 = 2_126_729;
pub const LUMA_G: u64 = 7_151_522;
pub const LUMA_B: u64 = 721_750;
pub const LUMA_SCALE: u64 = 10_000_000;

/// The scalar that is measured of each pixel.
#[derive(Clone, Copy, Debug, PartialEq, Eq, Structural)]
pub enum MetricMode {
    /// `(r + g + b) / 3`
    Mean,
    /// `0.2126729 r + 0.7151522 g + 0.0721750 b`
    Luma,
    Red,
    Green,
    Blue,
    /// HSV hue, as a fraction of a full turn.
    Hue,
    /// HSV saturation.
    Saturation,
    /// HSV value: the largest channel.
    Value,
}

pub open spec fn max3(r: int, g: int, b: int) -> int {
    if r >= g && r >= b {
        r
    } else if g >= b {
        g
    } else {
        b
    }
}

pub open spec fn min3(r: int, g: int, b: int) -> int {
    if r <= g && r <= b {
        r
    } else if g <= b {
        g
    } else {
        b
    }
}

/// Hue of a pixel whose channels are `r`, `g`, `b` on one common scale, in
/// units of `1 / UNIT` of a turn, rounded down; zero for an achromatic pixel.
pub open spec fn hue_of(r: int, g: int, b: int) -> int {
    let mx = max3(r, g, b);
    let d = mx - min3(r, g, b);
    if d == 0 {
        0
    } else if mx == r {
        if g >= b {
            UNIT * (g - b) / (6 * d)
        } else {
            UNIT * (g - b + 6 * d) / (6 * d)
        }
    } else if mx == g {
        UNIT * (b - r + 2 * d) / (6 * d)
    } else {
        UNIT * (r - g + 4 * d) / (6 * d)
    }
}

/// HSV saturation `delta / max`, zero where `max` is zero.
pub open spec fn saturation_of(r: int, g: int, b: int) -> int {
    let mx = max3(r, g, b);
    let d = mx - min3(r, g, b);
    if d == 0 {
        0
    } else {
        UNIT * d / mx
    }
}

/// The metric of one pixel whose normalized channels are `r / full`,
/// `g / full` and `b / full`, in units of `1 / UNIT`, rounded down.
pub open spec fn target_value(mode: MetricMode, r: int, g: int, b: int, full: int) -> int {
    match mode {
        MetricMode::Mean => UNIT * (r + g + b) / (3 * full),
        MetricMode::Luma => UNIT * (LUMA_R * r + LUMA_G * g + LUMA_B * b) / (LUMA_SCALE * full),
        MetricMode::Red => UNIT * r / full,
        MetricMode::Green => UNIT * g / full,
        MetricMode::Blue => UNIT * b / full,
        MetricMode::Hue => hue_of(r, g, b),
        MetricMode::Saturation => saturation_of(r, g, b),
        MetricMode::Value => UNIT * max3(r, g, b) / full,
    }
}

/// The mode that the configuration's number `i` selects.
pub open spec fn mode_at(i: int) -> Option<MetricMode> {
    if i == 0 {
        Some(MetricMode::Mean)
    } else if i == 1 {
        Some(MetricMode::Luma)
    } else if i == 2 {
        Some(MetricMode::Red)
    } else if i == 3 {
        Some(MetricMode::Green)
    } else if i == 4 {
        Some(MetricMode::Blue)
    } else if i == 5 {
        Some(MetricMode::Hue)
    } else if i == 6 {
        Some(MetricMode::Saturation)
    } else if i == 7 {
        Some(MetricMode::Value)
    } else {
        None
    }
}

/// A quotient is at most `k` when its numerator is at most `k` denominators.
pub proof fn lemma_quotient_le(num: int, den: int, k: int)
    requires
        0 <= num <= k * den,
        0 < den,
    ensures
        num / den <= k,
{
    lemma_div_is_ordered(num, k * den, den);
    lemma_div_multiples_vanish(k, den);
    assert(k * den == den * k) by (nonlinear_arith);
}

impl MetricMode {
    /// The mode numbered `i`: 0 mean of RGB, 1 luma, 2 red, 3 green, 4 blue,
    /// 5 hue, 6 saturation, 7 value.
    pub fn from_index(i: u8) -> (r: Result<MetricMode, EngineError>)
        ensures
            r == match mode_at(i as int) {
                Some(m) => Ok::<MetricMode, EngineError>(m),
                None => Err(EngineError::Config),
            },
    {
        match i {
            0 => Ok(MetricMode::Mean),
            1 => Ok(MetricMode::Luma),
            2 => Ok(MetricMode::Red),
            3 => Ok(MetricMode::Green),
            4 => Ok(MetricMode::Blue),
            5 => Ok(MetricMode::Hue),
            6 => Ok(MetricMode::Saturation),
            7 => Ok(MetricMode::Value),
            _ => Err(EngineError::Config),
        }
    }

    /// The metric of one pixel with channels `r`, `g`, `b` out of `full`.
    pub fn get_target_value(self, r: u64, g: u64, b: u64, full: u64) -> (v: u64)
        requires
            0 < full <= MAX_FULL,
            r <= full,
            g <= full,
            b <= full,
        ensures
            v == target_value(self, r as int, g as int, b as int, full as int),
            v <= MAX_VALUE,
    {
        let unit = UNIT as u128;
        let (r, g, b, full) = (r as u128, g as u128, b as u128, full as u128);
        let mx = if r >= g && r >= b {
            r
        } else if g >= b {
            g
        } else {
            b
        };
        let mn = if r <= g && r <= b {
            r
        } else if g <= b {
            g
        } else {
            b
        };
        let d = mx - mn;
        let q: u128 = match self {
            MetricMode::Mean => {
                let s = r + g + b;
                assert(unit * s <= MAX_VALUE * (3 * full)) by (nonlinear_arith)
                    requires s <= 3 * full, unit == UNIT;
                proof { lemma_quotient_le(unit * s, 3 * full, MAX_VALUE as int); }
                unit * s / (3 * full)
            },
            MetricMode::Luma => {
                let s = LUMA_R as u128 * r + LUMA_G as u128 * g + LUMA_B as u128 * b;
                assert(s <= 10_000_001 * full) by (nonlinear_arith)
                    requires r <= full, g <= full, b <= full, s == LUMA_R * r + LUMA_G * g + LUMA_B * b;
                assert(unit * s <= MAX_VALUE * (LUMA_SCALE * full)) by (nonlinear_arith)
                    requires s <= 10_000_001 * full, unit == UNIT;
                proof { lemma_quotient_le(unit * s, LUMA_SCALE * full, MAX_VALUE as int); }
                unit * s / (LUMA_SCALE as u128 * full)
            },
            MetricMode::Red => {
                assert(unit * r <= MAX_VALUE * full) by (nonlinear_arith)
                    requires r <= full, unit == UNIT;
                proof { lemma_quotient_le(unit * r, full as int, MAX_VALUE as int); }
                unit * r / full
            },
            MetricMode::Green => {
                assert(unit * g <= MAX_VALUE * full) by (nonlinear_arith)
                    requires g <= full, unit == UNIT;
                proof { lemma_quotient_le(unit * g, full as int, MAX_VALUE as int); }
                unit * g / full
            },
            MetricMode::Blue => {
                assert(unit * b <= MAX_VALUE * full) by (nonlinear_arith)
                    requires b <= full, unit == UNIT;
                proof { lemma_quotient_le(unit * b, full as int, MAX_VALUE as int); }
                unit * b / full
            },
            MetricMode::Value => {
                assert(unit * mx <= MAX_VALUE * full) by (nonlinear_arith)
                    requires mx <= full, unit == UNIT;
                proof { lemma_quotient_le(unit * mx, full as int, MAX_VALUE as int); }
                unit * mx / full
            },
            MetricMode::Saturation => {
                if d == 0 {
                    0
                } else {
                    assert(unit * d <= MAX_VALUE * mx) by (nonlinear_arith)
                        requires d <= mx, unit == UNIT;
                    proof { lemma_quotient_le(unit * d, mx as int, MAX_VALUE as int); }
                    unit * d / mx
                }
            },
            MetricMode::Hue => {
                if d == 0 {
                    0
                } else {
                    let num: u128 = if mx == r {
                        if g >= b {
                            g - b
                        } else {
                            g + 6 * d - b
                        }
                    } else if mx == g {
                        b + 2 * d - r
                    } else {
                        r + 4 * d - g
                    };
                    assert(unit * num <= MAX_VALUE * (6 * d)) by (nonlinear_arith)
                        requires num <= 6 * d, unit == UNIT;
                    proof { lemma_quotient_le(unit * num, 6 * d, MAX_VALUE as int); }
                    unit * num / (6 * d)
                }
            },
        };
        q as u64
    }
}

} // verus!
