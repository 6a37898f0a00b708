//! Decoding of the header's fixed-width byte fields into integer values.
use vstd::prelude::*;

verus! {

/// The unsigned value of two bytes read as a little-endian 16-bit integer.
pub open spec fn le16(b0: u8, b1: u8) -> int {
    b0 + 0x100 * b1
}

/// The unsigned value of four bytes read as a little-endian 32-bit integer.
pub open spec fn le32(b0: u8, b1: u8, b2: u8, b3: u8) -> int {
    b0 + 0x100 * b1 + 0x10000 * b2 + 0x1000000 * b3
}

/// A fixed-width byte field of the cache header decodes to one integer value;
/// each width has a single interpretation rule, given by `field_value`.
/// Decoding never fails: a field is always fully populated before it is read.
pub trait ByteArrayToInt {
    /// The integer this field's bytes stand for.
    spec fn field_value(&self) -> int;

    fn as_i64(&self) -> (r: i64)
        ensures
            r == self.field_value(),
    ;

    fn as_u64(&self) -> (r: u64)
        ensures
            r == self.field_value(),
    ;

    fn as_usize(&self) -> (r: usize)
        ensures
            r == self.field_value(),
    ;
}

/// An 8-byte field decodes to the little-endian 32-bit value of its second
/// half, bytes 4..8; the first four bytes are discarded. This asymmetric read
/// is a deliberate rule of this format reader, not a 64-bit decode, and must
/// stay bit-for-bit as it is to match the format's layout.
impl ByteArrayToInt for [u8; 8] {
    open spec fn field_value(&self) -> int {
        le32(self@[4], self@[5], self@[6], self@[7])
    }

    fn as_i64(&self) -> (r: i64) {
        (self[4] as i64) + 0x100 * (self[5] as i64) + 0x10000 * (self[6] as i64) + 0x1000000
            * (self[7] as i64)
    }

    fn as_u64(&self) -> (r: u64) {
        (self[4] as u64) + 0x100 * (self[5] as u64) + 0x10000 * (self[6] as u64) + 0x1000000
            * (self[7] as u64)
    }

    fn as_usize(&self) -> (r: usize) {
        (self[4] as usize) + 0x100 * (self[5] as usize) + 0x10000 * (self[6] as usize) + 0x1000000
            * (self[7] as usize)
    }
}

/// A 4-byte field decodes as an unsigned 32-bit little-endian integer.
impl ByteArrayToInt for [u8; 4] {
    open spec fn field_value(&self) -> int {
        le32(self@[0], self@[1], self@[2], self@[3])
    }

    fn as_i64(&self) -> (r: i64) {
        (self[0] as i64) + 0x100 * (self[1] as i64) + 0x10000 * (self[2] as i64) + 0x1000000
            * (self[3] as i64)
    }

    fn as_u64(&self) -> (r: u64) {
        (self[0] as u64) + 0x100 * (self[1] as u64) + 0x10000 * (self[2] as u64) + 0x1000000
            * (self[3] as u64)
    }

    fn as_usize(&self) -> (r: usize) {
        (self[0] as usize) + 0x100 * (self[1] as usize) + 0x10000 * (self[2] as usize) + 0x1000000
            * (self[3] as usize)
    }
}

/// A 2-byte field decodes as an unsigned 16-bit little-endian integer.
impl ByteArrayToInt for [u8; 2] {
    open spec fn field_value(&self) -> int {
        le16(self@[0], self@[1])
    }

    fn as_i64(&self) -> (r: i64) {
        (self[0] as i64) + 0x100 * (self[1] as i64)
    }

    fn as_u64(&self) -> (r: u64) {
        (self[0] as u64) + 0x100 * (self[1] as u64)
    }

    fn as_usize(&self) -> (r: usize) {
        (self[0] as usize) + 0x100 * (self[1] as usize)
    }
}

/// A 1-byte field decodes to its single byte, zero-extended.
impl ByteArrayToInt for [u8; 1] {
    open spec fn field_value(&self) -> int {
        self@[0] as int
    }

    fn as_i64(&self) -> (r: i64) {
        self[0] as i64
    }

    fn as_u64(&self) -> (r: u64) {
        self[0] as u64
    }

    fn as_usize(&self) -> (r: usize) {
        self[0] as usize
    }
}

} // verus!
