//! The container archive reader: parses the outer archive's header and
//! its offset/size/name tables, recovers each member's bytes, and builds
//! the sorted extraction manifest.
//!
//! Layout (all integers little-endian): a 4-byte identifier tag; the
//! member count; then the offsets of four tables (member offsets, member
//! extensions, member names, member sizes) and of a hash-map table that
//! extraction does not read. The names table begins with the fixed
//! name-field width, followed by one null-padded field of that width per
//! member.

use vstd::prelude::*;

use crate::DecodeError;
use crate::cursor::ByteDataWrapper;
use crate::cursor::le32_at;
use crate::cursor::utf8_lossy;
use crate::cursor::decode_utf8_lossy;
use crate::manifest::MemberName;
use crate::manifest::key_le;
use crate::manifest::sort_member_names;

verus! {

/// Index of the first null byte in `s`, or `s.len()` when there is none.
pub open spec fn first_nul(s: Seq<u8>) -> int
    decreases s.len(),
{
    if s.len() == 0 {
        0
    } else if s[0] == 0 {
        0
    } else {
        1 + first_nul(s.drop_first())
    }
}

/// A null-padded fixed-width field, truncated at its first null byte.
pub open spec fn trunc_nul(s: Seq<u8>) -> Seq<u8> {
    s.take(first_nul(s))
}

pub open spec fn dat_file_number(d: Seq<u8>) -> int {
    le32_at(d, 4)
}

pub open spec fn dat_offsets_offset(d: Seq<u8>) -> int {
    le32_at(d, 8)
}

pub open spec fn dat_extensions_offset(d: Seq<u8>) -> int {
    le32_at(d, 12)
}

pub open spec fn dat_names_offset(d: Seq<u8>) -> int {
    le32_at(d, 16)
}

pub open spec fn dat_sizes_offset(d: Seq<u8>) -> int {
    le32_at(d, 20)
}

pub open spec fn dat_hash_map_offset(d: Seq<u8>) -> int {
    le32_at(d, 24)
}

/// Declared byte offset of member `i`.
pub open spec fn dat_member_offset(d: Seq<u8>, i: int) -> int {
    le32_at(d, dat_offsets_offset(d) + 4 * i)
}

/// Declared byte size of member `i`.
pub open spec fn dat_member_size(d: Seq<u8>, i: int) -> int {
    le32_at(d, dat_sizes_offset(d) + 4 * i)
}

/// The fixed width of each name field.
pub open spec fn dat_name_length(d: Seq<u8>) -> int {
    le32_at(d, dat_names_offset(d))
}

/// The raw (untruncated) name field of member `i`.
pub open spec fn dat_name_field(d: Seq<u8>, i: int) -> Seq<u8> {
    let start = dat_names_offset(d) + 4 + i * dat_name_length(d);
    d.subrange(start, start + dat_name_length(d))
}

/// Entry `i` of the member offsets table lies inside the buffer.
pub open spec fn dat_offsets_entry_ok(d: Seq<u8>, i: int) -> bool {
    dat_offsets_offset(d) + 4 * i + 4 <= d.len()
}

/// Entry `i` of the member sizes table lies inside the buffer.
pub open spec fn dat_sizes_entry_ok(d: Seq<u8>, i: int) -> bool {
    dat_sizes_offset(d) + 4 * i + 4 <= d.len()
}

/// Name field `i` lies inside the buffer.
pub open spec fn dat_name_entry_ok(d: Seq<u8>, i: int) -> bool {
    dat_names_offset(d) + 4 + (i + 1) * dat_name_length(d) <= d.len()
}

/// Member `i`'s declared span lies inside the buffer.
pub open spec fn dat_member_span_ok(d: Seq<u8>, i: int) -> bool {
    dat_member_offset(d, i) + dat_member_size(d, i) <= d.len()
}

/// Every table and member read lies inside the buffer. A non-empty
/// archive is decoded exactly when this holds.
pub open spec fn dat_bounds_ok(d: Seq<u8>) -> bool {
    let n = dat_file_number(d);
    &&& d.len() >= 28
    &&& dat_names_offset(d) + 4 <= d.len()
    &&& forall|i: int| 0 <= i < n ==> #[trigger] dat_offsets_entry_ok(d, i)
    &&& forall|i: int| 0 <= i < n ==> #[trigger] dat_sizes_entry_ok(d, i)
    &&& forall|i: int| 0 <= i < n ==> #[trigger] dat_name_entry_ok(d, i)
    &&& forall|i: int| 0 <= i < n ==> #[trigger] dat_member_span_ok(d, i)
}

/// The parsed header of a container archive.
#[derive(Debug)]
pub struct DatHeader {
    pub id: String,
    pub file_number: u32,
    pub file_offsets_offset: u32,
    pub file_extensions_offset: u32,
    pub file_names_offset: u32,
    pub file_sizes_offset: u32,
    pub hash_map_offset: u32,
}

impl DatHeader {
    /// Reads the 28 header bytes at the current position: the 4-byte
    /// identifier tag, then six little-endian offsets and counts.
    pub fn new(bytes: &mut ByteDataWrapper) -> (r: Result<Self, DecodeError>)
        ensures
            match r {
                Ok(h) => {
                    let d = old(bytes).data@;
                    let p = old(bytes).position as int;
                    &&& p + 28 <= d.len()
                    &&& h.id@ == utf8_lossy(d.subrange(p, p + 4))
                    &&& h.file_number == le32_at(d, p + 4)
                    &&& h.file_offsets_offset == le32_at(d, p + 8)
                    &&& h.file_extensions_offset == le32_at(d, p + 12)
                    &&& h.file_names_offset == le32_at(d, p + 16)
                    &&& h.file_sizes_offset == le32_at(d, p + 20)
                    &&& h.hash_map_offset == le32_at(d, p + 24)
                    &&& final(bytes).data == old(bytes).data
                    &&& final(bytes).position == old(bytes).position + 28
                },
                Err(e) => {
                    &&& e == DecodeError::OutOfBounds
                    &&& old(bytes).position + 28 > old(bytes).data@.len()
                    &&& final(bytes).data == old(bytes).data
                },
            },
    {
        let id = bytes.read_string(4)?;
        let file_number = bytes.read_u32()?;
        let file_offsets_offset = bytes.read_u32()?;
        let file_extensions_offset = bytes.read_u32()?;
        let file_names_offset = bytes.read_u32()?;
        let file_sizes_offset = bytes.read_u32()?;
        let hash_map_offset = bytes.read_u32()?;
        Ok(
            DatHeader {
                id,
                file_number,
                file_offsets_offset,
                file_extensions_offset,
                file_names_offset,
                file_sizes_offset,
                hash_map_offset,
            },
        )
    }
}

/// One extracted member of a container archive: its name (raw bytes and
/// decoded text), its declared location, and its bytes.
#[derive(Debug)]
pub struct DatMember {
    pub name_bytes: Vec<u8>,
    pub name: String,
    pub offset: u32,
    pub size: u32,
    pub data: Vec<u8>,
}

/// What a correctly extracted member holds.
pub open spec fn dat_member_matches(d: Seq<u8>, i: int, m: DatMember) -> bool {
    &&& m.offset == dat_member_offset(d, i)
    &&& m.size == dat_member_size(d, i)
    &&& m.data@ == d.subrange(m.offset as int, m.offset + m.size)
    &&& m.name_bytes@ == trunc_nul(dat_name_field(d, i))
    &&& m.name@ == utf8_lossy(m.name_bytes@)
}

/// The result of a container extraction: the members in file-table
/// order, and the manifest of member names sorted by (case-folded stem,
/// case-folded extension).
#[derive(Debug)]
pub struct DatArchive {
    pub members: Vec<DatMember>,
    pub manifest: Vec<MemberName>,
}

/// An owned copy of a byte vector.
pub fn copy_bytes(v: &Vec<u8>) -> (r: Vec<u8>)
    ensures
        r@ == v@,
{
    let n = v.len();
    let mut out: Vec<u8> = Vec::new();
    let mut i: usize = 0;
    while i < n
        invariant
            0 <= i <= n,
            n == v@.len(),
            out@ =~= v@.take(i as int),
        decreases n - i,
    {
        out.push(v[i]);
        i = i + 1;
        proof {
            assert(out@ =~= v@.take(i as int));
        }
    }
    proof {
        assert(out@ =~= v@);
    }
    out
}

pub proof fn lemma_first_nul_props(s: Seq<u8>)
    ensures
        0 <= first_nul(s) <= s.len(),
        forall|j: int| 0 <= j < first_nul(s) ==> s[j] != 0,
        first_nul(s) < s.len() ==> s[first_nul(s)] == 0,
    decreases s.len(),
{
    if s.len() == 0 || s[0] == 0 {
    } else {
        lemma_first_nul_props(s.drop_first());
        assert forall|j: int| 0 <= j < first_nul(s) implies s[j] != 0 by {
            if j > 0 {
                assert(s.drop_first()[j - 1] != 0);
            }
        }
    }
}

/// Truncates a name field at its first null byte.
fn trunc_at_nul(field: &Vec<u8>) -> (r: Vec<u8>)
    ensures
        r@ == trunc_nul(field@),
{
    let n = field.len();
    let mut out: Vec<u8> = Vec::new();
    let mut i: usize = 0;
    while i < n
        invariant
            0 <= i <= n,
            n == field@.len(),
            forall|j: int| 0 <= j < i ==> field@[j] != 0,
            out@ =~= field@.take(i as int),
        decreases n - i,
    {
        if field[i] == 0 {
            proof {
                lemma_first_nul_props(field@);
                assert(field@[i as int] == 0);
                if first_nul(field@) < i {
                    assert(field@[first_nul(field@)] == 0);
                }
            }
            return out;
        }
        out.push(field[i]);
        i = i + 1;
        proof {
            assert(out@ =~= field@.take(i as int));
        }
    }
    proof {
        lemma_first_nul_props(field@);
        if first_nul(field@) < n {
            assert(field@[first_nul(field@)] == 0);
        }
    }
    out
}

/// Extracts every member of a container archive and builds the sorted
/// manifest. An empty buffer is an explicit non-error case yielding an
/// empty result; any table or member read outside the buffer aborts the
/// extraction with a bounds error. On success the member count equals
/// the declared count and each member's bytes are exactly its declared
/// span, in file-table order; the manifest holds exactly the member
/// names, sorted.
pub fn extract_dat(data: Vec<u8>) -> (r: Result<DatArchive, DecodeError>)
    ensures
        match r {
            Ok(a) => {
                &&& (data@.len() == 0 ==> a.members@.len() == 0 && a.manifest@.len() == 0)
                &&& (data@.len() > 0 ==> {
                    &&& dat_bounds_ok(data@)
                    &&& a.members@.len() == dat_file_number(data@)
                    &&& (forall|i: int|
                        0 <= i < a.members@.len() ==> dat_member_matches(
                            data@,
                            i,
                            #[trigger] a.members@[i],
                        ))
                    &&& a.manifest@.len() == a.members@.len()
                    &&& a.manifest@.map_values(|e: MemberName| e@).to_multiset()
                        == a.members@.map_values(
                        |m: DatMember| (m.name_bytes@, m.name@),
                    ).to_multiset()
                    &&& (forall|p: int, q: int|
                        0 <= p < q < a.manifest@.len() ==> key_le(
                            #[trigger] a.manifest@[p].bytes@,
                            #[trigger] a.manifest@[q].bytes@,
                        ))
                })
            },
            Err(e) => {
                &&& e == DecodeError::OutOfBounds
                &&& data@.len() > 0
                &&& !dat_bounds_ok(data@)
            },
        },
{
    let ghost d = data@;
    if data.len() == 0 {
        return Ok(DatArchive { members: Vec::new(), manifest: Vec::new() });
    }
    let mut bytes = ByteDataWrapper::from_vec(data);
    let header = DatHeader::new(&mut bytes)?;
    let n = header.file_number as usize;

    // the member offsets table
    bytes.set_position(header.file_offsets_offset as usize);
    let mut file_offsets: Vec<u32> = Vec::new();
    let mut i: usize = 0;
    while i < n
        invariant
            0 <= i <= n,
            d == data@,
            bytes.data@ == d,
            d.len() > 0,
            n == dat_file_number(d),
            header.file_offsets_offset == dat_offsets_offset(d),
            bytes.position == dat_offsets_offset(d) + 4 * i,
            file_offsets@.len() == i,
            forall|k: int| 0 <= k < i ==> file_offsets@[k] == dat_member_offset(d, k),
            forall|k: int| 0 <= k < i ==> #[trigger] dat_offsets_entry_ok(d, k),
        decreases n - i,
    {
        let v = match bytes.read_u32() {
            Ok(v) => v,
            Err(_) => {
                proof {
                    assert(!dat_offsets_entry_ok(d, i as int));
                }
                return Err(DecodeError::OutOfBounds);
            },
        };
        file_offsets.push(v);
        i = i + 1;
        proof {
            assert(dat_offsets_entry_ok(d, i - 1));
        }
    }

    // the member sizes table
    bytes.set_position(header.file_sizes_offset as usize);
    let mut file_sizes: Vec<u32> = Vec::new();
    let mut i2: usize = 0;
    while i2 < n
        invariant
            0 <= i2 <= n,
            d == data@,
            bytes.data@ == d,
            d.len() > 0,
            n == dat_file_number(d),
            header.file_sizes_offset == dat_sizes_offset(d),
            bytes.position == dat_sizes_offset(d) + 4 * i2,
            file_sizes@.len() == i2,
            forall|k: int| 0 <= k < i2 ==> file_sizes@[k] == dat_member_size(d, k),
            forall|k: int| 0 <= k < i2 ==> #[trigger] dat_sizes_entry_ok(d, k),
        decreases n - i2,
    {
        let v = match bytes.read_u32() {
            Ok(v) => v,
            Err(_) => {
                proof {
                    assert(!dat_sizes_entry_ok(d, i2 as int));
                }
                return Err(DecodeError::OutOfBounds);
            },
        };
        file_sizes.push(v);
        i2 = i2 + 1;
        proof {
            assert(dat_sizes_entry_ok(d, i2 - 1));
        }
    }

    // the member names table: a field width, then fixed-width fields
    bytes.set_position(header.file_names_offset as usize);
    let name_length_u32 = match bytes.read_u32() {
        Ok(v) => v,
        Err(_) => {
            return Err(DecodeError::OutOfBounds);
        },
    };
    let name_length = name_length_u32 as usize;
    let mut names: Vec<Vec<u8>> = Vec::new();
    let mut i3: usize = 0;
    while i3 < n
        invariant
            0 <= i3 <= n,
            d == data@,
            bytes.data@ == d,
            d.len() > 0,
            n == dat_file_number(d),
            header.file_names_offset == dat_names_offset(d),
            name_length == dat_name_length(d),
            dat_names_offset(d) + 4 <= d.len(),
            bytes.position == dat_names_offset(d) + 4 + i3 * dat_name_length(d),
            names@.len() == i3,
            forall|k: int| 0 <= k < i3 ==> #[trigger] names@[k]@ == dat_name_field(d, k),
            forall|k: int| 0 <= k < i3 ==> #[trigger] dat_name_entry_ok(d, k),
        decreases n - i3,
    {
        let ghost p = bytes.position as int;
        let field = match bytes.read_u8_list(name_length) {
            Ok(v) => v,
            Err(_) => {
                proof {
                    assert((i3 + 1) * dat_name_length(d) == i3 * dat_name_length(d)
                        + dat_name_length(d)) by (nonlinear_arith);
                    assert(!dat_name_entry_ok(d, i3 as int));
                }
                return Err(DecodeError::OutOfBounds);
            },
        };
        names.push(field);
        i3 = i3 + 1;
        proof {
            assert((i3 - 1) * dat_name_length(d) + dat_name_length(d) == i3 * dat_name_length(d))
                by (nonlinear_arith);
            assert(dat_name_entry_ok(d, i3 - 1));
            assert(names@[i3 - 1]@ =~= dat_name_field(d, i3 - 1));
        }
    }

    // the member payloads
    let mut members: Vec<DatMember> = Vec::new();
    let mut i4: usize = 0;
    while i4 < n
        invariant
            0 <= i4 <= n,
            d == data@,
            bytes.data@ == d,
            d.len() > 0,
            n == dat_file_number(d),
            file_offsets@.len() == n,
            file_sizes@.len() == n,
            names@.len() == n,
            forall|k: int| 0 <= k < n ==> file_offsets@[k] == dat_member_offset(d, k),
            forall|k: int| 0 <= k < n ==> file_sizes@[k] == dat_member_size(d, k),
            forall|k: int| 0 <= k < n ==> #[trigger] names@[k]@ == dat_name_field(d, k),
            members@.len() == i4,
            forall|k: int| 0 <= k < i4 ==> dat_member_matches(d, k, #[trigger] members@[k]),
            forall|k: int| 0 <= k < i4 ==> #[trigger] dat_member_span_ok(d, k),
        decreases n - i4,
    {
        bytes.set_position(file_offsets[i4] as usize);
        let payload = match bytes.read_u8_list(file_sizes[i4] as usize) {
            Ok(v) => v,
            Err(_) => {
                proof {
                    assert(!dat_member_span_ok(d, i4 as int));
                }
                return Err(DecodeError::OutOfBounds);
            },
        };
        let name_bytes = trunc_at_nul(&names[i4]);
        let name = decode_utf8_lossy(name_bytes.as_slice());
        members.push(
            DatMember {
                name_bytes,
                name,
                offset: file_offsets[i4],
                size: file_sizes[i4],
                data: payload,
            },
        );
        i4 = i4 + 1;
        proof {
            assert(dat_member_span_ok(d, i4 - 1));
            assert(dat_member_matches(d, i4 - 1, members@[i4 - 1]));
        }
    }

    // the sorted manifest
    let mut manifest: Vec<MemberName> = Vec::new();
    let mut i5: usize = 0;
    while i5 < n
        invariant
            0 <= i5 <= n,
            members@.len() == n,
            manifest@.len() == i5,
            forall|k: int|
                0 <= k < i5 ==> #[trigger] manifest@[k]@ == (
                members@[k].name_bytes@,
                members@[k].name@,
            ),
        decreases n - i5,
    {
        let entry_bytes = copy_bytes(&members[i5].name_bytes);
        let entry_text = members[i5].name.clone();
        manifest.push(MemberName { bytes: entry_bytes, text: entry_text });
        i5 = i5 + 1;
    }
    proof {
        assert(manifest@.map_values(|e: MemberName| e@) =~= members@.map_values(
            |m: DatMember| (m.name_bytes@, m.name@),
        ));
    }
    sort_member_names(&mut manifest);

    Ok(DatArchive { members, manifest })
}

} // verus!
