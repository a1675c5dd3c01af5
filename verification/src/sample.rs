//! Signal samples as raw IEEE-754 single-precision bit patterns.
//!
//! The engine routes sample values between modules without doing arithmetic
//! on them; the only property it ever inspects is whether a value is NaN,
//! which marks an unconnected input or a value that does not exist yet.
//! Holding the 32 bits directly keeps that test a pure bit-level operation.

use vstd::prelude::*;

verus! {

/// Bit pattern of one quiet NaN, used as the "no value" sentinel.
pub const NAN_BITS: u32 = 0x7fc0_0000;

/// One signal sample: the raw bits of an IEEE-754 single-precision number.
#[derive(Clone, Copy, Debug, PartialEq, Eq, Structural)]
pub struct Sample {
    pub bits: u32,
}

/// One stereo frame of audio, left and right channel.
#[derive(Clone, Copy, Debug, PartialEq, Eq, Structural)]
pub struct Frame {
    pub left: Sample,
    pub right: Sample,
}

/// The sentinel bit pattern really is a NaN.
pub proof fn lemma_nan_sentinel()
    ensures
        (Sample { bits: NAN_BITS }).spec_is_nan(),
{
    assert((0x7fc0_0000u32 >> 23u32) & 0xffu32 == 0xffu32 && 0x7fc0_0000u32 & 0x7f_ffffu32
        != 0u32) by (bit_vector);
}

impl Sample {
    /// A value is NaN when the exponent bits are all ones and the
    /// mantissa is not zero.
    pub open spec fn spec_is_nan(self) -> bool {
        (self.bits >> 23u32) & 0xffu32 == 0xffu32 && self.bits & 0x7f_ffffu32 != 0u32
    }

    #[verifier::when_used_as_spec(spec_is_nan)]
    pub fn is_nan(self) -> (r: bool)
        ensures
            r == self.spec_is_nan(),
    {
        (self.bits >> 23u32) & 0xffu32 == 0xffu32 && self.bits & 0x7f_ffffu32 != 0u32
    }

    /// The sentinel sample meaning "no value".
    pub fn nan() -> (r: Sample)
        ensures
            r.bits == NAN_BITS,
            r.spec_is_nan(),
    {
        let r = Sample { bits: NAN_BITS };
        proof {
            assert((0x7fc0_0000u32 >> 23u32) & 0xffu32 == 0xffu32
                && 0x7fc0_0000u32 & 0x7f_ffffu32 != 0u32) by (bit_vector);
        }
        r
    }

    /// Wrap a raw bit pattern.
    pub fn from_bits(bits: u32) -> (r: Sample)
        ensures
            r.bits == bits,
    {
        Sample { bits }
    }

    /// Unwrap to the raw bit pattern.
    pub fn to_bits(self) -> (r: u32)
        ensures
            r == self.bits,
    {
        self.bits
    }
}

} // verus!
