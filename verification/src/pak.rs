//! The nested sub-archive reader: derives the member count from the
//! first entry's offset, computes each member's byte span from
//! consecutive offsets, detects compressed payloads, and recovers each
//! member's bytes.
//!
//! Layout: repeating 12-byte little-endian entries
//! `{type, uncompressed_size, offset}`. The member count is not stored;
//! it is back-solved from the first entry's offset as
//! `(first_offset - 4) / 12`, exploiting the fixed 12-byte entry size
//! and the format's 4-byte leading constant. This derivation is a format
//! quirk and is preserved exactly: it is the only source of the count.
//! An entry's span ends where the next entry's offset begins (or at the
//! buffer end for the last entry). A member is compressed exactly when
//! its declared uncompressed size exceeds its span; a compressed payload
//! is prefixed by a `u32` giving the compressed byte length, while a raw
//! payload is read minus the 4-byte-alignment padding implied by its
//! declared size.

use vstd::prelude::*;

use crate::DecodeError;
use crate::cursor::ByteDataWrapper;
use crate::cursor::le32_at;

verus! {

/// What zlib inflation returns for a byte stream: the decompressed
/// bytes, or nothing when the stream is corrupt. Inflation is a
/// function of the stream bytes alone.
pub uninterp spec fn zlib_inflate(stream: Seq<u8>) -> Option<Seq<u8>>;

/// Relies on flate2's `read::ZlibDecoder` over the stream bytes,
/// drained with `Read::read_to_end`: deterministically decompresses a
/// zlib stream, and fails exactly on a corrupt stream.
#[verifier::external_body]
fn zlib_decompress(stream: &[u8]) -> (r: Result<Vec<u8>, DecodeError>)
    ensures
        match r {
            Ok(v) => zlib_inflate(stream@) == Some(v@),
            Err(e) => {
                &&& zlib_inflate(stream@) is None
                &&& e == DecodeError::Decompression
            },
        },
{
    let mut decoder = flate2::read::ZlibDecoder::new(stream);
    let mut out: Vec<u8> = Vec::new();
    match std::io::Read::read_to_end(&mut decoder, &mut out) {
        Ok(_) => Ok(out),
        Err(_) => Err(DecodeError::Decompression),
    }
}

/// The first entry's declared offset.
pub open spec fn pak_first_offset(d: Seq<u8>) -> int {
    le32_at(d, 8)
}

/// The derived member count: `(first_offset - 4) / 12`.
pub open spec fn pak_count(d: Seq<u8>) -> int {
    (pak_first_offset(d) - 4) / 12
}

/// The opaque type tag of entry `i`, preserved but not interpreted.
pub open spec fn pak_entry_type(d: Seq<u8>, i: int) -> int {
    le32_at(d, 12 * i)
}

/// The declared uncompressed size of entry `i`.
pub open spec fn pak_entry_size(d: Seq<u8>, i: int) -> int {
    le32_at(d, 12 * i + 4)
}

/// The declared byte offset of entry `i`.
pub open spec fn pak_entry_offset(d: Seq<u8>, i: int) -> int {
    le32_at(d, 12 * i + 8)
}

/// Entry `i`'s byte span: up to the next entry's offset, or to the
/// buffer end for the last entry.
pub open spec fn pak_span(d: Seq<u8>, i: int) -> int {
    if i == pak_count(d) - 1 {
        d.len() - pak_entry_offset(d, i)
    } else {
        pak_entry_offset(d, i + 1) - pak_entry_offset(d, i)
    }
}

/// A member is compressed exactly when its declared uncompressed size
/// exceeds its span: a payload cannot be stored larger than its
/// decompressed size unless it was compressed.
pub open spec fn pak_is_compressed(d: Seq<u8>, i: int) -> bool {
    pak_entry_size(d, i) > pak_span(d, i)
}

/// The 4-byte-alignment padding implied by the declared size.
pub open spec fn pak_padding(d: Seq<u8>, i: int) -> int {
    (4 - pak_entry_size(d, i) % 4) % 4
}

/// The stored zlib stream of a compressed member: its length is the
/// `u32` prefix at the entry's offset, and the stream follows it.
pub open spec fn pak_raw_stream(d: Seq<u8>, i: int) -> Seq<u8> {
    let off = pak_entry_offset(d, i);
    d.subrange(off + 4, off + 4 + le32_at(d, off))
}

/// Entry `i`'s 12-byte record lies inside the buffer.
pub open spec fn pak_entry_in(d: Seq<u8>, i: int) -> bool {
    12 * i + 12 <= d.len()
}

/// Entry `i`'s span is well defined: offsets are non-decreasing, and
/// the last entry starts inside the buffer.
pub open spec fn pak_span_ok(d: Seq<u8>, i: int) -> bool {
    if i == pak_count(d) - 1 {
        pak_entry_offset(d, i) <= d.len()
    } else {
        pak_entry_offset(d, i) <= pak_entry_offset(d, i + 1)
    }
}

/// Entry `i`'s payload read lies inside the buffer.
pub open spec fn pak_payload_ok(d: Seq<u8>, i: int) -> bool {
    let off = pak_entry_offset(d, i);
    if pak_is_compressed(d, i) {
        &&& off + 4 <= d.len()
        &&& off + 4 + le32_at(d, off) <= d.len()
    } else {
        &&& pak_span(d, i) >= pak_padding(d, i)
        &&& off + (pak_span(d, i) - pak_padding(d, i)) <= d.len()
    }
}

/// A compressed member's stored stream inflates.
pub open spec fn pak_member_decodes(d: Seq<u8>, i: int) -> bool {
    pak_is_compressed(d, i) ==> zlib_inflate(pak_raw_stream(d, i)) is Some
}

/// The bytes of member `i`: the inflated stream when compressed, else
/// the raw span minus its alignment padding.
pub open spec fn pak_member_data(d: Seq<u8>, i: int) -> Seq<u8> {
    let off = pak_entry_offset(d, i);
    if pak_is_compressed(d, i) {
        match zlib_inflate(pak_raw_stream(d, i)) {
            Some(s) => s,
            None => Seq::<u8>::empty(),
        }
    } else {
        d.subrange(off, off + (pak_span(d, i) - pak_padding(d, i)))
    }
}

/// Every header and payload read lies inside the buffer.
pub open spec fn pak_bounds_ok(d: Seq<u8>) -> bool {
    let n = pak_count(d);
    &&& d.len() >= 12
    &&& pak_first_offset(d) >= 4
    &&& forall|i: int| 0 <= i < n ==> #[trigger] pak_entry_in(d, i)
    &&& forall|i: int| 0 <= i < n ==> #[trigger] pak_span_ok(d, i)
    &&& forall|i: int| 0 <= i < n ==> #[trigger] pak_payload_ok(d, i)
}

/// A sub-archive decodes exactly when every read is in bounds and every
/// compressed member's stream inflates.
pub open spec fn pak_ok(d: Seq<u8>) -> bool {
    &&& pak_bounds_ok(d)
    &&& forall|i: int| 0 <= i < pak_count(d) ==> #[trigger] pak_member_decodes(d, i)
}

/// One 12-byte header entry of a sub-archive.
#[derive(Debug)]
pub struct HeaderEntry {
    pub type_tag: u32,
    pub uncompressed_size: u32,
    pub offset: u32,
}

impl HeaderEntry {
    /// Reads one 12-byte entry record from the current position.
    pub fn new(bytes: &mut ByteDataWrapper) -> (r: Result<Self, DecodeError>)
        ensures
            match r {
                Ok(e) => {
                    let d = old(bytes).data@;
                    let p = old(bytes).position as int;
                    &&& p + 12 <= d.len()
                    &&& e.type_tag == le32_at(d, p)
                    &&& e.uncompressed_size == le32_at(d, p + 4)
                    &&& e.offset == le32_at(d, p + 8)
                    &&& final(bytes).data == old(bytes).data
                    &&& final(bytes).position == old(bytes).position + 12
                },
                Err(err) => {
                    &&& err == DecodeError::OutOfBounds
                    &&& old(bytes).position + 12 > old(bytes).data@.len()
                    &&& final(bytes).data == old(bytes).data
                },
            },
    {
        let type_tag = bytes.read_u32()?;
        let uncompressed_size = bytes.read_u32()?;
        let offset = bytes.read_u32()?;
        Ok(HeaderEntry { type_tag, uncompressed_size, offset })
    }
}

/// One extracted member of a sub-archive: its entry fields, whether its
/// payload was stored compressed, and its (decompressed) bytes.
#[derive(Debug)]
pub struct PakMember {
    pub type_tag: u32,
    pub uncompressed_size: u32,
    pub offset: u32,
    pub is_compressed: bool,
    pub data: Vec<u8>,
}

/// Recovers one member's payload from the sub-archive buffer. The
/// member is compressed exactly when its declared uncompressed size
/// exceeds `span`; a compressed payload is bounded by its `u32` length
/// prefix and inflated, a raw payload is `span` bytes minus the
/// alignment padding implied by the declared size.
pub fn extract_pak_member(entry: &HeaderEntry, span: usize, bytes: &mut ByteDataWrapper) -> (r:
    Result<(bool, Vec<u8>), DecodeError>)
    ensures
        final(bytes).data == old(bytes).data,
        match r {
            Ok(p) => {
                let d = old(bytes).data@;
                let off = entry.offset as int;
                let clen = le32_at(d, off);
                let pad = (4 - entry.uncompressed_size % 4) % 4;
                &&& p.0 == (entry.uncompressed_size > span)
                &&& (p.0 ==> {
                    &&& off + 4 <= d.len()
                    &&& off + 4 + clen <= d.len()
                    &&& zlib_inflate(d.subrange(off + 4, off + 4 + clen)) == Some(p.1@)
                })
                &&& (!p.0 ==> {
                    &&& span >= pad
                    &&& off + (span - pad) <= d.len()
                    &&& p.1@ == d.subrange(off, off + (span - pad))
                })
            },
            Err(e) => {
                let d = old(bytes).data@;
                let off = entry.offset as int;
                let clen = le32_at(d, off);
                let pad = (4 - entry.uncompressed_size % 4) % 4;
                &&& (e == DecodeError::OutOfBounds || e == DecodeError::Decompression)
                &&& (e == DecodeError::OutOfBounds ==> {
                    if entry.uncompressed_size > span {
                        off + 4 > d.len() || off + 4 + clen > d.len()
                    } else {
                        span < pad || off + (span - pad) > d.len()
                    }
                })
                &&& (e == DecodeError::Decompression ==> {
                    &&& entry.uncompressed_size > span
                    &&& off + 4 <= d.len()
                    &&& off + 4 + clen <= d.len()
                    &&& zlib_inflate(d.subrange(off + 4, off + 4 + clen)) is None
                })
            },
        },
{
    bytes.set_position(entry.offset as usize);
    let is_compressed = entry.uncompressed_size as usize > span;
    if is_compressed {
        let clen = match bytes.read_u32() {
            Ok(v) => v,
            Err(_) => {
                return Err(DecodeError::OutOfBounds);
            },
        };
        let stream = match bytes.read_u8_list(clen as usize) {
            Ok(v) => v,
            Err(_) => {
                return Err(DecodeError::OutOfBounds);
            },
        };
        let payload = match zlib_decompress(stream.as_slice()) {
            Ok(v) => v,
            Err(_) => {
                return Err(DecodeError::Decompression);
            },
        };
        Ok((true, payload))
    } else {
        let padding = ((4 - (entry.uncompressed_size % 4)) % 4) as usize;
        if span < padding {
            return Err(DecodeError::OutOfBounds);
        }
        let read_size = span - padding;
        bytes.set_position(entry.offset as usize);
        let payload = match bytes.read_u8_list(read_size) {
            Ok(v) => v,
            Err(_) => {
                return Err(DecodeError::OutOfBounds);
            },
        };
        Ok((false, payload))
    }
}

/// A compressed member inflates to exactly its declared uncompressed
/// size, on every archive whose stored stream in fact inflates to the
/// declared length: the extractor hands the inflated bytes through
/// unchanged. An archive that declares one size and stores a stream of
/// another breaks the assumption, not the extractor.
pub proof fn lemma_compressed_member_size(d: Seq<u8>, i: int, m: PakMember)
    requires
        pak_member_matches(d, i, m),
        m.is_compressed,
        ({
            match zlib_inflate(pak_raw_stream(d, i)) {
                Some(s) => s.len() == pak_entry_size(d, i),
                None => false,
            }
        }),
    ensures
        m.data@.len() == m.uncompressed_size,
{
}

/// What a correctly extracted sub-archive member holds.
pub open spec fn pak_member_matches(d: Seq<u8>, i: int, m: PakMember) -> bool {
    &&& m.type_tag == pak_entry_type(d, i)
    &&& m.uncompressed_size == pak_entry_size(d, i)
    &&& m.offset == pak_entry_offset(d, i)
    &&& m.is_compressed == pak_is_compressed(d, i)
    &&& m.data@ == pak_member_data(d, i)
}

/// Extracts every member of a sub-archive. The member count is derived
/// from the first entry's offset; each member's span is derived from
/// consecutive offsets; a member whose declared uncompressed size
/// exceeds its span is inflated from the zlib stream behind its length
/// prefix. Extraction is sequential: any read outside the buffer
/// aborts the whole extraction with a bounds error, and a corrupt
/// compressed stream aborts it with a decompression error.
pub fn extract_pak(data: Vec<u8>) -> (r: Result<Vec<PakMember>, DecodeError>)
    ensures
        match r {
            Ok(ms) => {
                &&& pak_ok(data@)
                &&& ms@.len() == pak_count(data@)
                &&& (forall|i: int|
                    0 <= i < ms@.len() ==> pak_member_matches(data@, i, #[trigger] ms@[i]))
            },
            Err(e) => {
                &&& !pak_ok(data@)
                &&& (e == DecodeError::OutOfBounds || e == DecodeError::Decompression)
                &&& (e == DecodeError::OutOfBounds ==> !pak_bounds_ok(data@))
                &&& (e == DecodeError::Decompression ==> exists|i: int|
                    0 <= i < pak_count(data@) && !(#[trigger] pak_member_decodes(data@, i)))
            },
        },
{
    let ghost d = data@;
    let mut bytes = ByteDataWrapper::from_vec(data);

    bytes.set_position(8);
    let first_offset = match bytes.read_u32() {
        Ok(v) => v,
        Err(_) => {
            return Err(DecodeError::OutOfBounds);
        },
    };
    if first_offset < 4 {
        return Err(DecodeError::OutOfBounds);
    }
    let file_count = ((first_offset - 4) / 12) as usize;
    proof {
        assert(file_count == pak_count(d));
    }

    // the header entries
    bytes.set_position(0);
    let mut entries: Vec<HeaderEntry> = Vec::new();
    let mut i: usize = 0;
    while i < file_count
        invariant
            0 <= i <= file_count,
            d == data@,
            bytes.data@ == d,
            file_count == pak_count(d),
            d.len() >= 12,
            pak_first_offset(d) >= 4,
            bytes.position == 12 * i,
            entries@.len() == i,
            forall|k: int|
                0 <= k < i ==> {
                    &&& (#[trigger] entries@[k]).type_tag == pak_entry_type(d, k)
                    &&& entries@[k].uncompressed_size == pak_entry_size(d, k)
                    &&& entries@[k].offset == pak_entry_offset(d, k)
                },
            forall|k: int| 0 <= k < i ==> #[trigger] pak_entry_in(d, k),
        decreases file_count - i,
    {
        let e = match HeaderEntry::new(&mut bytes) {
            Ok(e) => e,
            Err(_) => {
                proof {
                    assert(!pak_entry_in(d, i as int));
                }
                return Err(DecodeError::OutOfBounds);
            },
        };
        entries.push(e);
        i = i + 1;
        proof {
            assert(pak_entry_in(d, i - 1));
        }
    }

    // the member spans, from consecutive offsets
    let mut spans: Vec<usize> = Vec::new();
    let mut i2: usize = 0;
    while i2 < file_count
        invariant
            0 <= i2 <= file_count,
            d == data@,
            bytes.data@ == d,
            file_count == pak_count(d),
            d.len() >= 12,
            pak_first_offset(d) >= 4,
            entries@.len() == file_count,
            forall|k: int|
                0 <= k < file_count ==> {
                    &&& (#[trigger] entries@[k]).type_tag == pak_entry_type(d, k)
                    &&& entries@[k].uncompressed_size == pak_entry_size(d, k)
                    &&& entries@[k].offset == pak_entry_offset(d, k)
                },
            spans@.len() == i2,
            forall|k: int| 0 <= k < i2 ==> spans@[k] == pak_span(d, k),
            forall|k: int| 0 <= k < i2 ==> #[trigger] pak_span_ok(d, k),
        decreases file_count - i2,
    {
        let span: usize = if i2 == file_count - 1 {
            let off = entries[i2].offset as usize;
            if off > bytes.data.len() {
                proof {
                    assert(!pak_span_ok(d, i2 as int));
                }
                return Err(DecodeError::OutOfBounds);
            }
            bytes.data.len() - off
        } else {
            let lo = entries[i2].offset;
            let hi = entries[i2 + 1].offset;
            if hi < lo {
                proof {
                    assert(!pak_span_ok(d, i2 as int));
                }
                return Err(DecodeError::OutOfBounds);
            }
            (hi - lo) as usize
        };
        spans.push(span);
        i2 = i2 + 1;
        proof {
            assert(pak_span_ok(d, i2 - 1));
        }
    }

    // the member payloads
    let mut members: Vec<PakMember> = Vec::new();
    let mut i3: usize = 0;
    while i3 < file_count
        invariant
            0 <= i3 <= file_count,
            d == data@,
            bytes.data@ == d,
            file_count == pak_count(d),
            entries@.len() == file_count,
            spans@.len() == file_count,
            forall|k: int|
                0 <= k < file_count ==> {
                    &&& (#[trigger] entries@[k]).type_tag == pak_entry_type(d, k)
                    &&& entries@[k].uncompressed_size == pak_entry_size(d, k)
                    &&& entries@[k].offset == pak_entry_offset(d, k)
                },
            forall|k: int| 0 <= k < file_count ==> spans@[k] == pak_span(d, k),
            members@.len() == i3,
            forall|k: int| 0 <= k < i3 ==> pak_member_matches(d, k, #[trigger] members@[k]),
            forall|k: int| 0 <= k < i3 ==> #[trigger] pak_payload_ok(d, k),
            forall|k: int| 0 <= k < i3 ==> #[trigger] pak_member_decodes(d, k),
        decreases file_count - i3,
    {
        let entry_type = entries[i3].type_tag;
        let entry_size = entries[i3].uncompressed_size;
        let entry_offset = entries[i3].offset;
        let span = spans[i3];
        let (is_compressed, payload) = match extract_pak_member(&entries[i3], span, &mut bytes) {
            Ok(p) => p,
            Err(e) => {
                proof {
                    if e == DecodeError::OutOfBounds {
                        assert(!pak_payload_ok(d, i3 as int));
                    } else {
                        assert(!pak_member_decodes(d, i3 as int));
                    }
                }
                return Err(e);
            },
        };
        members.push(
            PakMember {
                type_tag: entry_type,
                uncompressed_size: entry_size,
                offset: entry_offset,
                is_compressed,
                data: payload,
            },
        );
        i3 = i3 + 1;
        proof {
            assert(pak_payload_ok(d, i3 - 1));
            assert(pak_member_decodes(d, i3 - 1));
            assert(pak_member_matches(d, i3 - 1, members@[i3 - 1]));
        }
    }

    Ok(members)
}

} // verus!
