use vstd::prelude::*;

verus! {

/// One audio sample in fixed point: the real value is `sample / UNIT`.
pub type AudioUnit = i32;

/// A sequence of samples.
pub type Buffer = Vec<AudioUnit>;

/// The fixed-point value that stands for `1.0`.
pub const UNIT: i32 = 0x4000_0000;

/// Millihertz in a hertz: frequencies are given in millihertz.
pub const FREQ_SCALE: u32 = 1000;

} // verus!
