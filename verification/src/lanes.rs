//! Eight-lane registers of unsigned integers.
//!
//! The registers are those of `simply_simd`, at the portable 256-bit width.
//! Each operation on them is trusted: its contract is read off that crate's
//! source, lane by lane.

use simply_simd::architectures::arch::Scalar256;
use simply_simd::Simd;
use vstd::prelude::*;

verus! {

/// A register of eight `u32` lanes, held as `Simd<u32, Scalar256>`.
#[verifier::external_body]
pub struct U32x8 {
    reg: Simd<u32, Scalar256>,
}

/// The lanes of a register, the first one first.
pub uninterp spec fn lanes_of(v: U32x8) -> Seq<u32>;

impl View for U32x8 {
    type V = Seq<u32>;

    open spec fn view(&self) -> Seq<u32> {
        lanes_of(*self)
    }
}

/// Byte `n` of a row of lanes, counted from the low byte of the first lane.
pub open spec fn byte_of(lanes: Seq<u32>, n: int) -> u32 {
    (lanes[n / 4] >> ((8 * (n % 4)) as u32)) & 0xff
}

impl U32x8 {
    /// `Simd::splat`: every lane holds `val`.
    #[verifier::external_body]
    pub(crate) fn splat(val: u32) -> (r: U32x8)
        ensures
            lanes_of(r) == Seq::new(8, |i: int| val),
    {
        U32x8 { reg: Simd::<u32, Scalar256>::splat(val) }
    }

    /// `Simd::iota`: lane `i` holds `i` plus `offset`, modulo 2^32.
    #[verifier::external_body]
    pub(crate) fn iota(offset: u32) -> (r: U32x8)
        ensures
            lanes_of(r) == Seq::new(8, |i: int| (i as u32).wrapping_add(offset)),
    {
        U32x8 { reg: Simd::<u32, Scalar256>::iota(offset) }
    }

    /// `Simd::from_slice` on a slice as long as the register: lane `i` holds
    /// element `i`.
    #[verifier::external_body]
    pub(crate) fn from_array(values: [u32; 8]) -> (r: U32x8)
        ensures
            lanes_of(r) == values@,
    {
        U32x8 { reg: Simd::<u32, Scalar256>::from_slice(&values[..]) }
    }

    /// `Simd::to_array`: element `i` is lane `i`.
    #[verifier::external_body]
    pub(crate) fn to_array(&self) -> (r: [u32; 8])
        ensures
            r@ == lanes_of(*self),
    {
        self.reg.to_array()
    }

    /// `Add` of `Simd<u32, _>`: lanes are added modulo 2^32.
    #[verifier::external_body]
    pub(crate) fn plus(&self, rhs: &U32x8) -> (r: U32x8)
        ensures
            lanes_of(r) == Seq::new(8, |i: int| lanes_of(*self)[i].wrapping_add(lanes_of(*rhs)[i])),
    {
        U32x8 { reg: self.reg + rhs.reg }
    }

    /// `Sub` of `Simd<u32, _>`: lanes are subtracted modulo 2^32.
    #[verifier::external_body]
    pub(crate) fn minus(&self, rhs: &U32x8) -> (r: U32x8)
        ensures
            lanes_of(r) == Seq::new(
                8,
                |i: int| lanes_of(*self)[i].wrapping_sub(lanes_of(*rhs)[i]),
            ),
    {
        U32x8 { reg: self.reg - rhs.reg }
    }

    /// `Mul` of `Simd<u32, _>`: lanes are multiplied modulo 2^32.
    #[verifier::external_body]
    pub(crate) fn times(&self, rhs: &U32x8) -> (r: U32x8)
        ensures
            lanes_of(r) == Seq::new(8, |i: int| lanes_of(*self)[i].wrapping_mul(lanes_of(*rhs)[i])),
    {
        U32x8 { reg: self.reg * rhs.reg }
    }

    /// `BitXor` of `Simd<u32, _>`, lane by lane.
    #[verifier::external_body]
    pub(crate) fn xor(&self, rhs: &U32x8) -> (r: U32x8)
        ensures
            lanes_of(r) == Seq::new(8, |i: int| lanes_of(*self)[i] ^ lanes_of(*rhs)[i]),
    {
        U32x8 { reg: self.reg ^ rhs.reg }
    }

    /// `BitAnd` of `Simd<u32, _>`, lane by lane.
    #[verifier::external_body]
    pub(crate) fn and(&self, rhs: &U32x8) -> (r: U32x8)
        ensures
            lanes_of(r) == Seq::new(8, |i: int| lanes_of(*self)[i] & lanes_of(*rhs)[i]),
    {
        U32x8 { reg: self.reg & rhs.reg }
    }

    /// `BitOr` of `Simd<u32, _>`, lane by lane.
    #[verifier::external_body]
    pub(crate) fn or(&self, rhs: &U32x8) -> (r: U32x8)
        ensures
            lanes_of(r) == Seq::new(8, |i: int| lanes_of(*self)[i] | lanes_of(*rhs)[i]),
    {
        U32x8 { reg: self.reg | rhs.reg }
    }

    /// `Shr<usize>` of `Simd<u32, _>`: every lane shifted right by `bits`,
    /// zeros coming in. Defined for fewer bits than a lane has.
    #[verifier::external_body]
    pub(crate) fn shifted_right(&self, bits: usize) -> (r: U32x8)
        requires
            bits < 32,
        ensures
            lanes_of(r) == Seq::new(8, |i: int| lanes_of(*self)[i] >> (bits as u32)),
    {
        U32x8 { reg: self.reg >> bits }
    }

    /// `Simd::permute_8`: within each 128-bit half, byte `n` of the result is
    /// the byte that the low four bits of `pattern[n]` pick. Bytes are counted
    /// from the low end of each lane, as on any little-endian target.
    #[verifier::external_body]
    pub(crate) fn permute_8(&self, pattern: [u8; 64]) -> (r: U32x8)
        ensures
            lanes_of(r).len() == 8,
            forall|n: int| 0 <= n < 32 ==> #[trigger] byte_of(lanes_of(r), n) == byte_of(
                lanes_of(*self),
                n / 16 * 16 + pattern@[n] as int % 16,
            ),
    {
        let indices = Simd::<u8, Scalar256>::from_slice(&pattern[..]);
        U32x8 { reg: self.reg.permute_8(indices) }
    }
}

} // verus!
