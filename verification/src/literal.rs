//! The bit patterns of the numbers that several modules use.
use vstd::prelude::*;

verus! {

/// 0.0
pub const ZERO: u32 = 0x0000_0000;

/// -0.0
pub const MINUS_ZERO: u32 = 0x8000_0000;

/// 0.05
pub const ONE_TWENTIETH: u32 = 0x3d4c_cccd;

/// 0.1
pub const ONE_TENTH: u32 = 0x3dcc_cccd;

/// 0.125
pub const ONE_EIGHTH: u32 = 0x3e00_0000;

/// 0.25
pub const QUARTER: u32 = 0x3e80_0000;

/// 0.5
pub const HALF: u32 = 0x3f00_0000;

/// 1.0
pub const ONE: u32 = 0x3f80_0000;

/// -1.0
pub const MINUS_ONE: u32 = 0xbf80_0000;

/// 2.0
pub const TWO: u32 = 0x4000_0000;

/// 3.0
pub const THREE: u32 = 0x4040_0000;

/// 1000.0
pub const THOUSAND: u32 = 0x447a_0000;

/// Positive infinity.
pub const INFINITY: u32 = 0x7f80_0000;

/// Negative infinity.
pub const NEG_INFINITY: u32 = 0xff80_0000;

/// 0.0, in binary64.
pub const WIDE_ZERO: u64 = 0x0000_0000_0000_0000;

/// 1000.0, in binary64.
pub const WIDE_THOUSAND: u64 = 0x408f_4000_0000_0000;

/// 1024.0, in binary64.
pub const WIDE_KIBI: u64 = 0x4090_0000_0000_0000;

/// 1000000.0, in binary64.
pub const WIDE_MILLION: u64 = 0x412e_8480_0000_0000;

/// 1000000000.0, in binary64.
pub const WIDE_BILLION: u64 = 0x41cd_cd65_0000_0000;

} // verus!
