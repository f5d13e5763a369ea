use vstd::prelude::*;

verus! {

/// Clamps an integer into the i8 range.
pub open spec fn clamp_i8(x: int) -> int {
    if x < -128 {
        -128
    } else if x > 127 {
        127
    } else {
        x
    }
}

/// `v / 4` rounded to the nearest integer, halves away from zero.
pub open spec fn round_quarter(v: int) -> int {
    if v >= 0 {
        (v + 2) / 4
    } else {
        -((-v + 2) / 4)
    }
}

/// The Q8.8 value `v` (that is `v / 256`) re-expressed in Q2.6 (`q / 64`),
/// rounded half away from zero and saturated to the i8 range.
pub open spec fn crunch_spec(v: i16) -> i8 {
    clamp_i8(round_quarter(v as int)) as i8
}

pub struct Quantizer;

impl Quantizer {
    /// Crunches an i16 (Q8.8) into an i8 (Q2.6).
    pub fn crunch_i16_to_i8(val: i16) -> (r: i8)
        ensures
            r == crunch_spec(val),
    {
        let v = val as i32;
        let q: i32 = if v >= 0 {
            (v + 2) / 4
        } else {
            -((-v + 2) / 4)
        };
        if q < -128 {
            -128
        } else if q > 127 {
            127
        } else {
            q as i8
        }
    }
}

} // verus!
