//! A sequential reader over an in-memory byte buffer, with the primitive
//! decoders (little-endian integers, fixed-length lossy-decoded strings,
//! raw byte spans) that every archive decoder in this crate builds on.

use vstd::prelude::*;

use crate::DecodeError;

verus! {

/// The little-endian 32-bit value stored at `pos` in `d`.
pub open spec fn le32_at(d: Seq<u8>, pos: int) -> int {
    d[pos] + 0x100 * d[pos + 1] + 0x1_0000 * d[pos + 2] + 0x100_0000 * d[pos + 3]
}

/// What `String::from_utf8_lossy` returns for a byte sequence: the UTF-8
/// decoding with each invalid sequence replaced by U+FFFD.
pub uninterp spec fn utf8_lossy(bytes: Seq<u8>) -> Seq<char>;

/// Relies on `String::from_utf8_lossy`: decodes UTF-8, replacing invalid
/// sequences with U+FFFD; a valid UTF-8 input decodes exactly.
#[verifier::external_body]
pub(crate) fn decode_utf8_lossy(bytes: &[u8]) -> (r: String)
    ensures
        r@ == utf8_lossy(bytes@),
        vstd::utf8::valid_utf8(bytes@) ==> r@ == vstd::utf8::decode_utf8(bytes@),
{
    String::from_utf8_lossy(bytes).into_owned()
}

/// Wraps an immutable byte buffer together with a mutable read position.
/// Every successful read advances the position by exactly the consumed
/// byte count; a read past the end of the buffer fails with
/// `DecodeError::OutOfBounds` and leaves the reader unchanged.
#[derive(Debug)]
pub struct ByteDataWrapper {
    pub data: Vec<u8>,
    pub position: usize,
}

impl ByteDataWrapper {
    /// Wraps `data`, with the read position at the start of the buffer.
    pub fn from_vec(data: Vec<u8>) -> (r: Self)
        ensures
            r.data == data,
            r.position == 0,
    {
        ByteDataWrapper { data, position: 0 }
    }

    /// Reads a little-endian `u32` from the current position.
    pub fn read_u32(&mut self) -> (r: Result<u32, DecodeError>)
        ensures
            match r {
                Ok(v) => {
                    &&& old(self).position + 4 <= old(self).data@.len()
                    &&& v == le32_at(old(self).data@, old(self).position as int)
                    &&& final(self).data == old(self).data
                    &&& final(self).position == old(self).position + 4
                },
                Err(e) => {
                    &&& e == DecodeError::OutOfBounds
                    &&& old(self).position + 4 > old(self).data@.len()
                    &&& *final(self) == *old(self)
                },
            },
    {
        if self.position >= self.data.len() || self.data.len() - self.position < 4 {
            return Err(DecodeError::OutOfBounds);
        }
        let b0 = self.data[self.position];
        let b1 = self.data[self.position + 1];
        let b2 = self.data[self.position + 2];
        let b3 = self.data[self.position + 3];
        let v: u32 = b0 as u32 + 0x100 * (b1 as u32) + 0x1_0000 * (b2 as u32) + 0x100_0000 * (
        b3 as u32);
        self.position = self.position + 4;
        Ok(v)
    }

    /// Reads a single byte from the current position.
    pub fn read_u8(&mut self) -> (r: Result<u8, DecodeError>)
        ensures
            match r {
                Ok(v) => {
                    &&& old(self).position + 1 <= old(self).data@.len()
                    &&& v == old(self).data@[old(self).position as int]
                    &&& final(self).data == old(self).data
                    &&& final(self).position == old(self).position + 1
                },
                Err(e) => {
                    &&& e == DecodeError::OutOfBounds
                    &&& old(self).position + 1 > old(self).data@.len()
                    &&& *final(self) == *old(self)
                },
            },
    {
        if self.position >= self.data.len() {
            return Err(DecodeError::OutOfBounds);
        }
        let v = self.data[self.position];
        self.position = self.position + 1;
        Ok(v)
    }

    /// Reads `length` raw bytes from the current position.
    pub fn read_u8_list(&mut self, length: usize) -> (r: Result<Vec<u8>, DecodeError>)
        ensures
            match r {
                Ok(v) => {
                    &&& old(self).position + length <= old(self).data@.len()
                    &&& v@ == old(self).data@.subrange(
                        old(self).position as int,
                        old(self).position + length,
                    )
                    &&& final(self).data == old(self).data
                    &&& final(self).position == old(self).position + length
                },
                Err(e) => {
                    &&& e == DecodeError::OutOfBounds
                    &&& old(self).position + length > old(self).data@.len()
                    &&& *final(self) == *old(self)
                },
            },
    {
        if self.position > self.data.len() || self.data.len() - self.position < length {
            return Err(DecodeError::OutOfBounds);
        }
        let mut out: Vec<u8> = Vec::new();
        let mut i: usize = 0;
        while i < length
            invariant
                0 <= i <= length,
                self.position + length <= self.data@.len(),
                self.data@.len() <= usize::MAX,
                out@ == self.data@.subrange(self.position as int, self.position + i),
            decreases length - i,
        {
            out.push(self.data[self.position + i]);
            i = i + 1;
            proof {
                assert(out@ =~= self.data@.subrange(
                    self.position as int,
                    self.position + i as int,
                ));
            }
        }
        self.position = self.position + length;
        Ok(out)
    }

    /// Reads `length` bytes and decodes them as UTF-8 with lossy
    /// replacement; malformed text never aborts extraction.
    pub fn read_string(&mut self, length: usize) -> (r: Result<String, DecodeError>)
        ensures
            match r {
                Ok(s) => {
                    &&& old(self).position + length <= old(self).data@.len()
                    &&& s@ == utf8_lossy(
                        old(self).data@.subrange(
                            old(self).position as int,
                            old(self).position + length,
                        ),
                    )
                    &&& final(self).data == old(self).data
                    &&& final(self).position == old(self).position + length
                },
                Err(e) => {
                    &&& e == DecodeError::OutOfBounds
                    &&& old(self).position + length > old(self).data@.len()
                    &&& *final(self) == *old(self)
                },
            },
    {
        let bytes = self.read_u8_list(length)?;
        Ok(decode_utf8_lossy(bytes.as_slice()))
    }

    /// Moves the read position to `position`; the buffer is unchanged.
    pub fn set_position(&mut self, position: usize)
        ensures
            final(self).data == old(self).data,
            final(self).position == position,
    {
        self.position = position;
    }
}

} // verus!
