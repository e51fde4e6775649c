//! Unsigned integers of 7, 15 and 31 bits, each with a fixed-width big-endian
//! encoding.
//!
//! A field of a blob that holds a length, a count or an id is written from
//! one of these types only, so a value that is too wide for its field stops
//! the build instead of wrapping.

use crate::error::Error;
use crate::wire::{be16, be16_value, be32, be32_value};
use vstd::prelude::*;

verus! {

/// An unsigned integer of 7 bits: `0..=127`.
#[derive(Debug, PartialEq, Eq, PartialOrd, Ord, Clone, Copy, Structural)]
pub struct U7(u8);

impl View for U7 {
    type V = nat;

    closed spec fn view(&self) -> nat {
        self.0 as nat
    }
}

impl U7 {
    /// The largest value of the type.
    pub const MAX: usize = 127;

    /// Whether the value is one that the type has.
    #[verifier::type_invariant]
    pub open spec fn in_range(self) -> bool {
        self@ <= U7::MAX
    }

    /// The number that `bytes` decode to: their big-endian value without
    /// the top bit, so that every byte has a meaning.
    pub open spec fn decoded(bytes: Seq<u8>) -> nat {
        bytes[0] as nat % 0x80
    }

    /// The value as a primitive integer.
    pub fn get(self) -> (v: u8)
        ensures
            v == self@,
            v <= 127,
    {
        proof {
            use_type_invariant(&self);
        }
        self.0
    }

    /// The value in one byte.
    pub fn to_be_bytes(self) -> (bytes: [u8; 1])
        ensures
            bytes@ == seq![self@ as u8],
    {
        let v: u8 = self.get();
        let bytes: [u8; 1] = [v];
        assert(bytes@ =~= seq![self@ as u8]);
        bytes
    }

    /// The value that the byte holds. Its top bit counts for nothing.
    pub fn from_be_bytes(bytes: [u8; 1]) -> (r: Self)
        ensures
            r@ == Self::decoded(bytes@),
    {
        U7(bytes[0] % 0x80)
    }

    /// A value written by [`U7::to_be_bytes`] and read by
    /// [`U7::from_be_bytes`] comes back unchanged.
    pub proof fn lemma_round_trip(v: nat)
        requires
            v <= U7::MAX,
        ensures
            Self::decoded(seq![v as u8]) == v,
    {
    }
}

impl TryFrom<usize> for U7 {
    type Error = Error;

    /// The value `u`, or a range error where `u` is above [`U7::MAX`].
    fn try_from(u: usize) -> (r: Result<Self, Error>)
        ensures
            u <= U7::MAX ==> r is Ok && r->Ok_0@ == u,
            u > U7::MAX ==> r == Err::<Self, Error>(
                Error::RangeError { value: u, max: U7::MAX },
            ),
    {
        if u > 127 {
            Err(Error::RangeError { value: u, max: 127 })
        } else {
            Ok(U7(u as u8))
        }
    }
}

impl vstd::std_specs::convert::TryFromSpecImpl<usize> for U7 {
    open spec fn obeys_try_from_spec() -> bool {
        true
    }

    closed spec fn try_from_spec(u: usize) -> Result<Self, Error> {
        if u > 127 {
            Err(Error::RangeError { value: u, max: 127 })
        } else {
            Ok(U7(u as u8))
        }
    }
}

/// An unsigned integer of 15 bits: `0..=32_767`.
#[derive(Debug, PartialEq, Eq, PartialOrd, Ord, Clone, Copy, Structural)]
pub struct U15(u16);

impl View for U15 {
    type V = nat;

    closed spec fn view(&self) -> nat {
        self.0 as nat
    }
}

impl U15 {
    /// The largest value of the type.
    pub const MAX: usize = 32_767;

    /// Whether the value is one that the type has.
    #[verifier::type_invariant]
    pub open spec fn in_range(self) -> bool {
        self@ <= U15::MAX
    }

    /// The number that `bytes` decode to: their big-endian value without
    /// the top bit, so that every pattern of two bytes has a meaning.
    pub open spec fn decoded(bytes: Seq<u8>) -> nat {
        be16_value(bytes) % 0x8000
    }

    /// The value as a primitive integer.
    pub fn get(self) -> (v: u16)
        ensures
            v == self@,
            v <= 32_767,
    {
        proof {
            use_type_invariant(&self);
        }
        self.0
    }

    /// The value in two bytes, most significant first.
    pub fn to_be_bytes(self) -> (bytes: [u8; 2])
        ensures
            bytes@ == be16(self@),
    {
        let v: u16 = self.get();
        let bytes: [u8; 2] = [(v / 0x100) as u8, (v % 0x100) as u8];
        reveal(be16);
        assert(bytes@ =~= be16(self@));
        bytes
    }

    /// The value that the two bytes hold. The top bit counts for nothing.
    pub fn from_be_bytes(bytes: [u8; 2]) -> (r: Self)
        ensures
            r@ == Self::decoded(bytes@),
    {
        U15((bytes[0] % 0x80) as u16 * 0x100 + bytes[1] as u16)
    }

    /// A value written by [`U15::to_be_bytes`] and read by
    /// [`U15::from_be_bytes`] comes back unchanged.
    pub proof fn lemma_round_trip(v: nat)
        requires
            v <= U15::MAX,
        ensures
            Self::decoded(be16(v)) == v,
    {
        reveal(be16);
    }
}

impl TryFrom<usize> for U15 {
    type Error = Error;

    /// The value `u`, or a range error where `u` is above [`U15::MAX`].
    fn try_from(u: usize) -> (r: Result<Self, Error>)
        ensures
            u <= U15::MAX ==> r is Ok && r->Ok_0@ == u,
            u > U15::MAX ==> r == Err::<Self, Error>(
                Error::RangeError { value: u, max: U15::MAX },
            ),
    {
        if u > 32_767 {
            Err(Error::RangeError { value: u, max: 32_767 })
        } else {
            Ok(U15(u as u16))
        }
    }
}

impl vstd::std_specs::convert::TryFromSpecImpl<usize> for U15 {
    open spec fn obeys_try_from_spec() -> bool {
        true
    }

    closed spec fn try_from_spec(u: usize) -> Result<Self, Error> {
        if u > 32_767 {
            Err(Error::RangeError { value: u, max: 32_767 })
        } else {
            Ok(U15(u as u16))
        }
    }
}

/// An unsigned integer of 31 bits: `0..=2_147_483_647`.
#[derive(Debug, PartialEq, Eq, PartialOrd, Ord, Clone, Copy, Structural)]
pub struct U31(u32);

impl View for U31 {
    type V = nat;

    closed spec fn view(&self) -> nat {
        self.0 as nat
    }
}

impl U31 {
    /// The largest value of the type.
    pub const MAX: usize = 2_147_483_647;

    /// Whether the value is one that the type has.
    #[verifier::type_invariant]
    pub open spec fn in_range(self) -> bool {
        self@ <= U31::MAX
    }

    /// The number that `bytes` decode to: their big-endian value without
    /// the top bit, so that every pattern of four bytes has a meaning.
    pub open spec fn decoded(bytes: Seq<u8>) -> nat {
        be32_value(bytes) % 0x80000000
    }

    /// The value as a primitive integer.
    pub fn get(self) -> (v: u32)
        ensures
            v == self@,
            v <= 2_147_483_647,
    {
        proof {
            use_type_invariant(&self);
        }
        self.0
    }

    /// The value in four bytes, most significant first.
    pub fn to_be_bytes(self) -> (bytes: [u8; 4])
        ensures
            bytes@ == be32(self@),
    {
        let v: u32 = self.get();
        let bytes: [u8; 4] = [
            (v / 0x100_0000) as u8,
            (v / 0x1_0000 % 0x100) as u8,
            (v / 0x100 % 0x100) as u8,
            (v % 0x100) as u8,
        ];
        reveal(be32);
        assert(bytes@ =~= be32(self@));
        bytes
    }

    /// The value that the four bytes hold. The top bit counts for nothing.
    pub fn from_be_bytes(bytes: [u8; 4]) -> (r: Self)
        ensures
            r@ == Self::decoded(bytes@),
    {
        U31(
            (bytes[0] % 0x80) as u32 * 0x100_0000 + bytes[1] as u32 * 0x1_0000 + bytes[2] as u32
                * 0x100 + bytes[3] as u32,
        )
    }

    /// A value written by [`U31::to_be_bytes`] and read by
    /// [`U31::from_be_bytes`] comes back unchanged.
    pub proof fn lemma_round_trip(v: nat)
        requires
            v <= U31::MAX,
        ensures
            Self::decoded(be32(v)) == v,
    {
        reveal(be32);
    }
}

impl TryFrom<usize> for U31 {
    type Error = Error;

    /// The value `u`, or a range error where `u` is above [`U31::MAX`].
    fn try_from(u: usize) -> (r: Result<Self, Error>)
        ensures
            u <= U31::MAX ==> r is Ok && r->Ok_0@ == u,
            u > U31::MAX ==> r == Err::<Self, Error>(
                Error::RangeError { value: u, max: U31::MAX },
            ),
    {
        if u > 2_147_483_647 {
            Err(Error::RangeError { value: u, max: 2_147_483_647 })
        } else {
            Ok(U31(u as u32))
        }
    }
}

impl vstd::std_specs::convert::TryFromSpecImpl<usize> for U31 {
    open spec fn obeys_try_from_spec() -> bool {
        true
    }

    closed spec fn try_from_spec(u: usize) -> Result<Self, Error> {
        if u > 2_147_483_647 {
            Err(Error::RangeError { value: u, max: 2_147_483_647 })
        } else {
            Ok(U31(u as u32))
        }
    }
}

} // verus!
