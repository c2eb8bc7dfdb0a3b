//! A bidirectional codec between the canonical binary layout of blockchain
//! transaction records and a typed, hex-text-friendly representation.
//!
//! The scalar layer maps fixed-width unsigned integers, fixed-length
//! hashes and variable-length byte strings to and from validated
//! `0x`-prefixed hexadecimal text. The structural layer maps nested binary
//! records (scripts, cell inputs and outputs, cell dependencies, whole
//! transactions) to and from their typed counterparts, byte for byte.

use vstd::prelude::*;

pub mod cell;
pub mod error;
pub mod hex;
pub mod transaction;

use crate::error::Error;
use crate::hex::{
    has_hex_prefix, hex_body, hex_of, hex_seq_val, hex_to_bytes, is_hex_digit, uint_hex,
    valid_hex_body,
};

verus! {

/// A 32-bit unsigned scalar rendered as `0x`-prefixed minimal hexadecimal.
#[derive(Default, Clone, Copy, Debug, Hash, PartialEq, Eq, Structural)]
pub struct Uint32(pub u32);

/// Consecutive block number starting from 0.
pub type BlockNumber = Uint64;

/// Consecutive epoch number starting from 0.
pub type EpochNumber = Uint64;

/// The epoch indicator of a block: which epoch the block is in, and the
/// elapsed epoch fraction after adding this block.
pub type EpochNumberWithFraction = Uint64;

/// The capacity of a cell: the value of the cell in base units, also the
/// upper limit of the storage the cell occupies.
pub type Capacity = Uint64;

/// Count of cycles consumed by the virtual machine to run scripts.
pub type Cycle = Uint64;

/// The Unix timestamp in milliseconds.
pub type Timestamp = Uint64;

/// The simple increasing integer version.
pub type Version = Uint32;

/// A 64-bit unsigned scalar rendered as `0x`-prefixed minimal hexadecimal.
#[derive(Default, Clone, Copy, Debug, Hash, PartialEq, Eq, Structural)]
pub struct Uint64(pub u64);

/// A 128-bit unsigned scalar rendered as `0x`-prefixed minimal hexadecimal.
#[derive(Default, Clone, Copy, Debug, Hash, PartialEq, Eq, Structural)]
pub struct Uint128(pub u128);

/// A 20-byte hash rendered as `0x` plus exactly 40 hex digits.
#[derive(Default, Clone, Copy, Debug, Hash, PartialEq, Eq)]
pub struct H160(pub [u8; 20]);

/// A 32-byte hash rendered as `0x` plus exactly 64 hex digits.
#[derive(Default, Clone, Copy, Debug, Hash, PartialEq, Eq)]
pub struct H256(pub [u8; 32]);

/// A variable-length byte string rendered as `0x` plus two hex digits per
/// byte.
#[derive(Default, Clone, Debug, Hash, PartialEq, Eq)]
pub struct GraphqlBytes(pub Vec<u8>);

impl Uint32 {
    /// Wraps a plain integer.
    pub fn new(value: u32) -> (r: Self)
        ensures
            r.0 == value,
    {
        Uint32(value)
    }

    /// Renders the value as `0x`-prefixed minimal lowercase hexadecimal.
    pub fn to_hex(&self) -> (r: String)
        ensures
            r@ == seq!['0', 'x'] + uint_hex(self.0 as nat),
    {
        hex::hex_uint(self.0 as u128)
    }

    /// Parses `0x`-prefixed hexadecimal text, rejecting a missing prefix,
    /// an empty or non-hexadecimal payload, and overflow.
    pub fn from_hex(s: &str) -> (r: Result<Self, Error>)
        ensures
            match r {
                Ok(v) => has_hex_prefix(s@) && uint_body_ok(hex_body(s@), u32::MAX as nat)
                    && v.0 == hex_seq_val(hex_body(s@)),
                Err(e) => (e == Error::HexPrefix && !has_hex_prefix(s@)) || (e == Error::ParseUint
                    && has_hex_prefix(s@) && !uint_body_ok(hex_body(s@), u32::MAX as nat)),
            },
    {
        let body = hex::clean_0x(s)?;
        match hex::hex_body_to_u128(body.as_str()) {
            Ok(v) => {
                if v > u32::MAX as u128 {
                    Err(Error::ParseUint)
                } else {
                    Ok(Uint32(v as u32))
                }
            },
            Err(e) => Err(e),
        }
    }
}

impl Uint64 {
    /// Wraps a plain integer.
    pub fn new(value: u64) -> (r: Self)
        ensures
            r.0 == value,
    {
        Uint64(value)
    }

    /// Renders the value as `0x`-prefixed minimal lowercase hexadecimal.
    pub fn to_hex(&self) -> (r: String)
        ensures
            r@ == seq!['0', 'x'] + uint_hex(self.0 as nat),
    {
        hex::hex_uint(self.0 as u128)
    }

    /// Parses `0x`-prefixed hexadecimal text, rejecting a missing prefix,
    /// an empty or non-hexadecimal payload, and overflow.
    pub fn from_hex(s: &str) -> (r: Result<Self, Error>)
        ensures
            match r {
                Ok(v) => has_hex_prefix(s@) && uint_body_ok(hex_body(s@), u64::MAX as nat)
                    && v.0 == hex_seq_val(hex_body(s@)),
                Err(e) => (e == Error::HexPrefix && !has_hex_prefix(s@)) || (e == Error::ParseUint
                    && has_hex_prefix(s@) && !uint_body_ok(hex_body(s@), u64::MAX as nat)),
            },
    {
        let body = hex::clean_0x(s)?;
        match hex::hex_body_to_u128(body.as_str()) {
            Ok(v) => {
                if v > u64::MAX as u128 {
                    Err(Error::ParseUint)
                } else {
                    Ok(Uint64(v as u64))
                }
            },
            Err(e) => Err(e),
        }
    }
}

impl Uint128 {
    /// Wraps a plain integer.
    pub fn new(value: u128) -> (r: Self)
        ensures
            r.0 == value,
    {
        Uint128(value)
    }

    /// Renders the value as `0x`-prefixed minimal lowercase hexadecimal.
    pub fn to_hex(&self) -> (r: String)
        ensures
            r@ == seq!['0', 'x'] + uint_hex(self.0 as nat),
    {
        hex::hex_uint(self.0)
    }

    /// Parses `0x`-prefixed hexadecimal text, rejecting a missing prefix,
    /// an empty or non-hexadecimal payload, and overflow.
    pub fn from_hex(s: &str) -> (r: Result<Self, Error>)
        ensures
            match r {
                Ok(v) => has_hex_prefix(s@) && uint_body_ok(hex_body(s@), u128::MAX as nat)
                    && v.0 == hex_seq_val(hex_body(s@)),
                Err(e) => (e == Error::HexPrefix && !has_hex_prefix(s@)) || (e == Error::ParseUint
                    && has_hex_prefix(s@) && !uint_body_ok(hex_body(s@), u128::MAX as nat)),
            },
    {
        let body = hex::clean_0x(s)?;
        match hex::hex_body_to_u128(body.as_str()) {
            Ok(v) => Ok(Uint128(v)),
            Err(e) => Err(e),
        }
    }
}

/// Whether a prefix-stripped payload parses as an unsigned integer no
/// greater than `max`: nonempty, hexadecimal digits throughout, in range.
pub open spec fn uint_body_ok(body: Seq<char>, max: nat) -> bool {
    body.len() > 0 && (forall|i: int| 0 <= i < body.len() ==> is_hex_digit(#[trigger] body[i]))
        && hex_seq_val(body) <= max
}

impl H160 {
    /// Wraps a plain byte array.
    pub fn new(array: [u8; 20]) -> (r: Self)
        ensures
            r.0@ == array@,
    {
        H160(array)
    }

    /// Renders every byte as two lowercase hex digits, `0x`-prefixed.
    pub fn to_hex(&self) -> (r: String)
        ensures
            r@ == seq!['0', 'x'] + hex_of(self.0@),
    {
        hex::hex_encode(self.0.as_slice())
    }

    /// Parses `0x`-prefixed hexadecimal text into a 20-byte hash,
    /// rejecting a missing prefix, a malformed payload, and any payload
    /// not exactly 40 digits long.
    pub fn from_hex(s: &str) -> (r: Result<Self, Error>)
        ensures
            match r {
                Ok(h) => s@.len() > 0 && has_hex_prefix(s@) && valid_hex_body(hex_body(s@))
                    && hex_body(s@).len() == 40 && h.0@ == hex_to_bytes(hex_body(s@)),
                Err(e) => (e == Error::HexPrefix && (s@.len() == 0 || !has_hex_prefix(s@))) || (e
                    == Error::FromHex && s@.len() > 0 && has_hex_prefix(s@) && !valid_hex_body(
                    hex_body(s@),
                )) || (e == Error::ParseBytes && s@.len() > 0 && has_hex_prefix(s@)
                    && valid_hex_body(hex_body(s@)) && hex_body(s@).len() != 40),
            },
    {
        if s.unicode_len() == 0 {
            return Err(Error::HexPrefix);
        }
        let bytes = hex::hex_decode(s)?;
        if bytes.len() != 20 {
            return Err(Error::ParseBytes);
        }
        let mut array = [0u8; 20];
        let mut i: usize = 0;
        while i < 20
            invariant
                i <= 20,
                bytes@.len() == 20,
                forall|j: int| 0 <= j < i ==> array@[j] == bytes@[j],
            decreases 20 - i,
        {
            array[i] = bytes[i];
            i = i + 1;
        }
        proof {
            assert(array@ =~= bytes@);
        }
        Ok(H160(array))
    }
}

impl H256 {
    /// Wraps a plain byte array.
    pub fn new(array: [u8; 32]) -> (r: Self)
        ensures
            r.0@ == array@,
    {
        H256(array)
    }

    /// Renders every byte as two lowercase hex digits, `0x`-prefixed.
    pub fn to_hex(&self) -> (r: String)
        ensures
            r@ == seq!['0', 'x'] + hex_of(self.0@),
    {
        hex::hex_encode(self.0.as_slice())
    }

    /// Parses `0x`-prefixed hexadecimal text into a 32-byte hash,
    /// rejecting a missing prefix, a malformed payload, and any payload
    /// not exactly 64 digits long.
    pub fn from_hex(s: &str) -> (r: Result<Self, Error>)
        ensures
            match r {
                Ok(h) => s@.len() > 0 && has_hex_prefix(s@) && valid_hex_body(hex_body(s@))
                    && hex_body(s@).len() == 64 && h.0@ == hex_to_bytes(hex_body(s@)),
                Err(e) => (e == Error::HexPrefix && (s@.len() == 0 || !has_hex_prefix(s@))) || (e
                    == Error::FromHex && s@.len() > 0 && has_hex_prefix(s@) && !valid_hex_body(
                    hex_body(s@),
                )) || (e == Error::ParseBytes && s@.len() > 0 && has_hex_prefix(s@)
                    && valid_hex_body(hex_body(s@)) && hex_body(s@).len() != 64),
            },
    {
        if s.unicode_len() == 0 {
            return Err(Error::HexPrefix);
        }
        let bytes = hex::hex_decode(s)?;
        if bytes.len() != 32 {
            return Err(Error::ParseBytes);
        }
        let mut array = [0u8; 32];
        let mut i: usize = 0;
        while i < 32
            invariant
                i <= 32,
                bytes@.len() == 32,
                forall|j: int| 0 <= j < i ==> array@[j] == bytes@[j],
            decreases 32 - i,
        {
            array[i] = bytes[i];
            i = i + 1;
        }
        proof {
            assert(array@ =~= bytes@);
        }
        Ok(H256(array))
    }
}

impl GraphqlBytes {
    /// Wraps a plain byte vector.
    pub fn new(bytes: Vec<u8>) -> (r: Self)
        ensures
            r.0@ == bytes@,
    {
        GraphqlBytes(bytes)
    }

    /// Renders every byte as two lowercase hex digits, `0x`-prefixed.
    pub fn to_hex(&self) -> (r: String)
        ensures
            r@ == seq!['0', 'x'] + hex_of(self.0@),
    {
        hex::hex_encode(self.0.as_slice())
    }

    /// Parses `0x`-prefixed hexadecimal text into a byte string. The
    /// empty string yields the empty byte string; any other input must
    /// carry the prefix and an even number of hexadecimal digits.
    pub fn from_hex(s: &str) -> (r: Result<Self, Error>)
        ensures
            match r {
                Ok(b) => (s@.len() == 0 && b.0@ == Seq::<u8>::empty()) || (has_hex_prefix(s@)
                    && valid_hex_body(hex_body(s@)) && b.0@ == hex_to_bytes(hex_body(s@))),
                Err(e) => s@.len() > 0 && ((e == Error::HexPrefix && !has_hex_prefix(s@)) || (e
                    == Error::FromHex && has_hex_prefix(s@) && !valid_hex_body(hex_body(s@)))),
            },
    {
        let bytes = hex::hex_decode(s)?;
        Ok(GraphqlBytes(bytes))
    }
}

/// Law: rendering any byte sequence and decoding the text yields the
/// same bytes, and the text always carries the prefix and a decodable
/// payload of twice the byte length.
pub proof fn lemma_bytes_text_round_trip(bs: Seq<u8>)
    ensures
        has_hex_prefix(seq!['0', 'x'] + hex_of(bs)),
        valid_hex_body(hex_body(seq!['0', 'x'] + hex_of(bs))),
        hex_body(seq!['0', 'x'] + hex_of(bs)).len() == 2 * bs.len(),
        hex_to_bytes(hex_body(seq!['0', 'x'] + hex_of(bs))) == bs,
{
    hex::lemma_hex_round_trip_bytes(bs);
    assert(hex_body(seq!['0', 'x'] + hex_of(bs)) =~= hex_of(bs));
}

/// Law: rendering any unsigned value and reading the digits back yields
/// the same value, and the text always carries the prefix and at least
/// one digit.
pub proof fn lemma_uint_text_round_trip(n: nat)
    ensures
        has_hex_prefix(seq!['0', 'x'] + uint_hex(n)),
        hex_body(seq!['0', 'x'] + uint_hex(n)) == uint_hex(n),
        uint_body_ok(uint_hex(n), n),
        hex_seq_val(uint_hex(n)) == n,
{
    hex::lemma_hex_round_trip_uint(n);
    assert(hex_body(seq!['0', 'x'] + uint_hex(n)) =~= uint_hex(n));
}

} // verus!
