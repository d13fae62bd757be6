//! The binary tree decoder: parses the flat node-record stream, resolves
//! tag names through the symbol tables, reads the trailing string table,
//! and reconstructs the node tree from the records' indentation levels.
//!
//! Layout: a `u32` node count; that many 9-byte records
//! `{indentation: u8, tag hash: u32, string offset: u32}`; then a
//! sequence of zero-terminated, Shift-JIS-encoded strings occupying the
//! rest of the buffer, each keyed by its starting byte position. A node
//! at indentation zero is a root sibling; a node at indentation `L > 0`
//! attaches as the last child of the most recent node at `L - 1`. A
//! record stream whose first record is not at indentation zero, or that
//! skips a level, is malformed.

use vstd::prelude::*;

use crate::DecodeError;
use crate::cursor::ByteDataWrapper;
use crate::cursor::le32_at;
use crate::dat::first_nul;
use crate::dat::lemma_first_nul_props;
use crate::symbols::SymbolTables;
use crate::symbols::spec_resolve_hash;

verus! {

broadcast use vstd::std_specs::vec::group_vec_axioms;

/// What Shift-JIS decoding returns for a byte sequence, malformed
/// sequences replaced with U+FFFD. The result depends on the bytes
/// alone.
pub uninterp spec fn sjis_decode(bytes: Seq<u8>) -> Seq<char>;

/// Relies on encoding_rs's `Encoding::decode` on the Shift_JIS
/// encoding: decodes the whole buffer, replacing malformed sequences
/// with the replacement character; the result is a function of the
/// bytes alone.
#[verifier::external_body]
fn decode_shift_jis(bytes: &[u8]) -> (r: String)
    ensures
        r@ == sjis_decode(bytes@),
{
    let (text, _, _) = encoding_rs::SHIFT_JIS.decode(bytes);
    text.into_owned()
}

/// One reconstructed tree node. Records are parsed flat (children
/// empty, one node per 9-byte record) in file order, then re-parented
/// in a single reconstruction pass.
#[derive(Debug)]
pub struct YaxNode {
    pub indentation: u8,
    pub tag_name_hash: u32,
    pub string_offset: u32,
    pub tag_name: String,
    pub text: Option<String>,
    pub children: Vec<YaxNode>,
}

/// The mathematical content of a node: its record fields and its
/// children, with strings abstracted to character sequences.
pub struct NodeView {
    pub ind: u8,
    pub hash: u32,
    pub soff: u32,
    pub tag: Seq<char>,
    pub text: Option<Seq<char>>,
    pub children: Seq<NodeView>,
}

/// The mathematical content of one flat record: a node without its
/// children.
pub struct RecView {
    pub ind: u8,
    pub hash: u32,
    pub soff: u32,
    pub tag: Seq<char>,
    pub text: Option<Seq<char>>,
}

pub open spec fn node_view(n: YaxNode) -> NodeView
    decreases n,
{
    NodeView {
        ind: n.indentation,
        hash: n.tag_name_hash,
        soff: n.string_offset,
        tag: n.tag_name@,
        text: match n.text {
            Option::Some(s) => Some(s@),
            Option::None => None,
        },
        children: forest_view(n.children@),
    }
}

pub open spec fn forest_view(v: Seq<YaxNode>) -> Seq<NodeView>
    decreases v,
{
    if v.len() == 0 {
        Seq::<NodeView>::empty()
    } else {
        seq![node_view(v[0])] + forest_view(v.drop_first())
    }
}

impl View for YaxNode {
    type V = NodeView;

    open spec fn view(&self) -> NodeView {
        node_view(*self)
    }
}

/// Indexing into a forest view.
pub broadcast proof fn lemma_forest_view_index(v: Seq<YaxNode>, k: int)
    requires
        0 <= k < v.len(),
    ensures
        forest_view(v).len() == v.len(),
        #[trigger] forest_view(v)[k] == node_view(v[k]),
    decreases v.len(),
{
    lemma_forest_view_len(v);
    if k > 0 {
        lemma_forest_view_index(v.drop_first(), k - 1);
    }
}

pub broadcast proof fn lemma_forest_view_len(v: Seq<YaxNode>)
    ensures
        #[trigger] forest_view(v).len() == v.len(),
    decreases v.len(),
{
    if v.len() > 0 {
        lemma_forest_view_len(v.drop_first());
    }
}

/// The record a node came from.
pub open spec fn flat_of(n: NodeView) -> RecView {
    RecView { ind: n.ind, hash: n.hash, soff: n.soff, tag: n.tag, text: n.text }
}

/// The records of a sequence of flat nodes.
pub open spec fn rec_views(v: Seq<YaxNode>) -> Seq<RecView> {
    v.map_values(|n: YaxNode| flat_of(node_view(n)))
}

pub open spec fn yax_node_count(d: Seq<u8>) -> int {
    le32_at(d, 0)
}

/// The 9-byte record region starts right after the count; the string
/// table occupies the remainder of the buffer.
pub open spec fn yax_strings_start(d: Seq<u8>) -> int {
    4 + 9 * yax_node_count(d)
}

pub open spec fn yax_rec_ind(d: Seq<u8>, i: int) -> u8 {
    d[4 + 9 * i]
}

pub open spec fn yax_rec_hash(d: Seq<u8>, i: int) -> u32 {
    le32_at(d, 4 + 9 * i + 1) as u32
}

pub open spec fn yax_rec_soff(d: Seq<u8>, i: int) -> u32 {
    le32_at(d, 4 + 9 * i + 5) as u32
}

/// The count field and every record lie inside the buffer.
pub open spec fn yax_bounds_ok(d: Seq<u8>) -> bool {
    &&& d.len() >= 4
    &&& yax_strings_start(d) <= d.len()
}

/// A resolved tag name: the symbol-table entry, or the `UNKNOWN`
/// sentinel when the hash is absent.
pub open spec fn spec_tag_name(tags: Seq<(u32, Seq<char>)>, hash: u32) -> Seq<char> {
    match spec_resolve_hash(tags, hash) {
        Some(s) => s,
        None => "UNKNOWN"@,
    }
}

/// The string table read greedily from `base` relative to the whole
/// buffer: each zero-terminated (or buffer-ending) string keyed by its
/// starting position. A string of zero length — a terminator right at
/// the read position — ends the table; a string ended by the buffer end
/// is the table's last entry.
pub open spec fn string_table_from(s: Seq<u8>, base: int) -> Seq<(int, Seq<char>)>
    decreases s.len(),
    via string_table_from_dec
{
    if s.len() == 0 || s[0] == 0 {
        Seq::<(int, Seq<char>)>::empty()
    } else {
        let e = first_nul(s);
        if e >= s.len() {
            seq![(base, sjis_decode(s))]
        } else {
            seq![(base, sjis_decode(s.take(e)))] + string_table_from(s.skip(e + 1), base + e + 1)
        }
    }
}

#[via_fn]
proof fn string_table_from_dec(s: Seq<u8>, base: int) {
    lemma_first_nul_props(s);
}

/// The whole string table of a tree buffer.
pub open spec fn string_table(d: Seq<u8>) -> Seq<(int, Seq<char>)> {
    string_table_from(d.skip(yax_strings_start(d)), yax_strings_start(d))
}

/// First-match lookup of a string offset in the string table. Absence
/// is not an error: it means the node has no text content.
pub open spec fn spec_lookup(entries: Seq<(int, Seq<char>)>, key: int) -> Option<Seq<char>>
    decreases entries.len(),
{
    if entries.len() == 0 {
        None
    } else if entries[0].0 == key {
        Some(entries[0].1)
    } else {
        spec_lookup(entries.drop_first(), key)
    }
}

/// The mathematical content of a scanned string table.
pub open spec fn table_view(t: Seq<(usize, String)>) -> Seq<(int, Seq<char>)> {
    t.map_values(|e: (usize, String)| (e.0 as int, e.1@))
}

/// Record `i` of the tree buffer, fully decoded: tag resolved through
/// the symbol tables, text looked up in the string table.
pub open spec fn yax_record(d: Seq<u8>, tags: Seq<(u32, Seq<char>)>, i: int) -> RecView {
    RecView {
        ind: yax_rec_ind(d, i),
        hash: yax_rec_hash(d, i),
        soff: yax_rec_soff(d, i),
        tag: spec_tag_name(tags, yax_rec_hash(d, i)),
        text: spec_lookup(string_table(d), yax_rec_soff(d, i) as int),
    }
}

/// All records of the tree buffer.
pub open spec fn yax_records(d: Seq<u8>, tags: Seq<(u32, Seq<char>)>) -> Seq<RecView> {
    Seq::new(yax_node_count(d) as nat, |i: int| yax_record(d, tags, i))
}

impl YaxNode {
    /// Parses one flat 9-byte node record from the current position,
    /// resolving its tag hash through the symbol tables immediately
    /// (with the `UNKNOWN` fallback). The node starts flat: no text, no
    /// children.
    pub fn from_bytes(bytes: &mut ByteDataWrapper, tables: &SymbolTables) -> (r: Result<
        YaxNode,
        DecodeError,
    >)
        ensures
            match r {
                Ok(n) => {
                    let d = old(bytes).data@;
                    let p = old(bytes).position as int;
                    &&& p + 9 <= d.len()
                    &&& n.indentation == d[p]
                    &&& n.tag_name_hash == le32_at(d, p + 1) as u32
                    &&& n.string_offset == le32_at(d, p + 5) as u32
                    &&& n.tag_name@ == spec_tag_name(tables@.tags, n.tag_name_hash)
                    &&& n.text is None
                    &&& n.children@.len() == 0
                    &&& final(bytes).data == old(bytes).data
                    &&& final(bytes).position == old(bytes).position + 9
                },
                Err(e) => {
                    &&& e == DecodeError::OutOfBounds
                    &&& old(bytes).position + 9 > old(bytes).data@.len()
                    &&& final(bytes).data == old(bytes).data
                },
            },
    {
        let indentation = bytes.read_u8()?;
        let tag_name_hash = bytes.read_u32()?;
        let string_offset = bytes.read_u32()?;
        let tag_name: String = match tables.resolve_tag(tag_name_hash) {
            Some(s) => s.clone(),
            None => "UNKNOWN".to_owned(),
        };
        Ok(
            YaxNode {
                indentation,
                tag_name_hash,
                string_offset,
                tag_name,
                text: None,
                children: Vec::new(),
            },
        )
    }
}

/// An owned copy of `v[from..to]`.
fn copy_range(v: &Vec<u8>, from: usize, to: usize) -> (r: Vec<u8>)
    requires
        from <= to <= v@.len(),
    ensures
        r@ == v@.subrange(from as int, to as int),
{
    let mut out: Vec<u8> = Vec::new();
    let mut i: usize = from;
    while i < to
        invariant
            from <= i <= to <= v@.len(),
            out@ =~= v@.subrange(from as int, i as int),
        decreases to - i,
    {
        out.push(v[i]);
        i = i + 1;
        proof {
            assert(out@ =~= v@.subrange(from as int, i as int));
        }
    }
    out
}

/// Reads one zero-terminated string from the current position:
/// consumes bytes up to and including the terminator, or to the buffer
/// end, and decodes them as Shift-JIS. `None` means zero bytes stood
/// before the terminator or the buffer end; malformed text never aborts
/// extraction.
pub fn read_string_zero_terminated(bytes: &mut ByteDataWrapper) -> (r: Option<String>)
    ensures
        final(bytes).data == old(bytes).data,
        ({
            let d = old(bytes).data@;
            let p = old(bytes).position as int;
            if p >= d.len() {
                r is None && final(bytes).position == old(bytes).position
            } else {
                let s = d.skip(p);
                let e = first_nul(s);
                if e == 0 {
                    r is None && final(bytes).position == old(bytes).position + 1
                } else if e >= s.len() {
                    match r {
                        Some(t) => t@ == sjis_decode(s) && final(bytes).position == d.len(),
                        None => false,
                    }
                } else {
                    match r {
                        Some(t) => t@ == sjis_decode(s.take(e)) && final(bytes).position == p + e
                            + 1,
                        None => false,
                    }
                }
            }
        }),
{
    let ghost d = bytes.data@;
    let start = bytes.position;
    if start >= bytes.data.len() {
        return None;
    }
    // find the terminator or the buffer end
    let mut e: usize = start;
    while e < bytes.data.len() && bytes.data[e] != 0
        invariant
            d == bytes.data@,
            start == bytes.position,
            start <= e <= d.len(),
            forall|j: int| start <= j < e ==> d[j] != 0,
        decreases d.len() - e,
    {
        e = e + 1;
    }
    proof {
        let s = d.skip(start as int);
        lemma_first_nul_props(s);
        assert forall|j: int| 0 <= j < e - start implies s[j] != 0 by {
            assert(d[start + j] != 0);
        }
        if e < d.len() {
            assert(s[e - start] == d[e as int]);
            assert(s[e - start] == 0);
        }
        // first_nul(s) == e - start
        if first_nul(s) < e - start {
            assert(s[first_nul(s)] != 0);
            assert(s[first_nul(s)] == 0);
        }
        if first_nul(s) > e - start {
            assert(e - start < s.len() ==> s[(e - start) as int] != 0);
        }
        assert(first_nul(s) == e - start);
    }
    if e == start {
        // an immediate terminator: consumed, but no string
        bytes.set_position(start + 1);
        return None;
    }
    let seg = copy_range(&bytes.data, start, e);
    let text = decode_shift_jis(seg.as_slice());
    proof {
        let s = d.skip(start as int);
        if e >= d.len() {
            assert(s.take(first_nul(s)) =~= s);
            assert(d.subrange(start as int, e as int) =~= s);
        } else {
            assert(s.take(e - start) =~= d.subrange(start as int, e as int));
        }
    }
    if e < bytes.data.len() {
        bytes.set_position(e + 1);
    } else {
        bytes.set_position(e);
    }
    Some(text)
}

/// Reads the trailing string table: zero-terminated Shift-JIS strings,
/// each keyed by its starting byte position, scanned until the buffer
/// ends or a zero-length string is found.
fn scan_string_table(data: &Vec<u8>, start: usize) -> (r: Vec<(usize, String)>)
    requires
        start <= data@.len(),
    ensures
        table_view(r@) == string_table_from(data@.skip(start as int), start as int),
{
    let ghost d = data@;
    let mut bytes = ByteDataWrapper::from_vec(crate::dat::copy_bytes(data));
    bytes.set_position(start);
    let mut out: Vec<(usize, String)> = Vec::new();
    proof {
        assert(table_view(out@) =~= Seq::<(int, Seq<char>)>::empty());
    }
    while bytes.position < data.len()
        invariant
            d == data@,
            bytes.data@ == d,
            start <= bytes.position <= d.len(),
            table_view(out@) + string_table_from(d.skip(bytes.position as int), bytes.position as int)
                == string_table_from(d.skip(start as int), start as int),
        decreases d.len() - bytes.position,
    {
        let p = bytes.position;
        let ghost s = d.skip(p as int);
        let ghost e = first_nul(s);
        proof {
            lemma_first_nul_props(s);
        }
        match read_string_zero_terminated(&mut bytes) {
            Some(t) => {
                let ghost out_before = out@;
                out.push((p, t));
                proof {
                    if e >= s.len() {
                        assert(string_table_from(s, p as int) =~= seq![(p as int, sjis_decode(s))]);
                        assert(table_view(out@) =~= table_view(out_before) + seq![
                            (p as int, sjis_decode(s)),
                        ]);
                        assert(d.skip(d.len() as int).len() == 0);
                        assert(string_table_from(d.skip(d.len() as int), d.len() as int) =~= Seq::<(
                            int,
                            Seq<char>,
                        )>::empty());
                        assert(table_view(out@) + string_table_from(
                            d.skip(d.len() as int),
                            d.len() as int,
                        ) =~= string_table_from(d.skip(start as int), start as int));
                    } else {
                        assert(s.skip(e + 1) =~= d.skip(p + e + 1));
                        assert(table_view(out@) =~= table_view(out_before) + seq![
                            (p as int, sjis_decode(s.take(e))),
                        ]);
                        assert(table_view(out@) + string_table_from(
                            d.skip(bytes.position as int),
                            bytes.position as int,
                        ) =~= string_table_from(d.skip(start as int), start as int));
                    }
                }
            },
            None => {
                // a zero-length string ends the table
                proof {
                    assert(s[0] == d[p as int]);
                    assert(string_table_from(s, p as int) =~= Seq::<(int, Seq<char>)>::empty());
                    assert(table_view(out@) =~= table_view(out@) + Seq::<(int, Seq<char>)>::empty());
                }
                return out;
            },
        }
    }
    proof {
        assert(d.skip(bytes.position as int).len() == 0);
        assert(string_table_from(d.skip(bytes.position as int), bytes.position as int) =~= Seq::<(
            int,
            Seq<char>,
        )>::empty());
        assert(table_view(out@) =~= table_view(out@) + Seq::<(int, Seq<char>)>::empty());
    }
    out
}

/// Looks a node's stored string offset up in the string table; `None`
/// means the node has no text content.
fn lookup_text(table: &Vec<(usize, String)>, soff: u32) -> (r: Option<String>)
    ensures
        ({
            let entries = table_view(table@);
            match r {
                Some(s) => spec_lookup(entries, soff as int) == Some(s@),
                None => spec_lookup(entries, soff as int) is None,
            }
        }),
{
    let ghost entries = table_view(table@);
    let n = table.len();
    let mut i: usize = 0;
    proof {
        assert(entries.skip(0) =~= entries);
    }
    while i < n
        invariant
            0 <= i <= n,
            n == table@.len(),
            entries == table_view(table@),
            spec_lookup(entries, soff as int) == spec_lookup(entries.skip(i as int), soff as int),
        decreases n - i,
    {
        proof {
            assert(entries.skip(i as int)[0] == entries[i as int]);
            assert(entries.skip(i as int).drop_first() =~= entries.skip(i + 1));
        }
        if table[i].0 == soff as usize {
            let found = table[i].1.clone();
            return Some(found);
        }
        i = i + 1;
    }
    proof {
        assert(entries.skip(n as int) =~= Seq::<(int, Seq<char>)>::empty());
    }
    None
}

/// Parses the whole flat record region of a tree buffer: the node
/// count, then that many records, each with its tag resolved and its
/// text looked up in the trailing string table. The nodes come back
/// flat, in file order.
pub fn parse_yax_records(data: &Vec<u8>, tables: &SymbolTables) -> (r: Result<
    Vec<YaxNode>,
    DecodeError,
>)
    ensures
        match r {
            Ok(recs) => {
                &&& yax_bounds_ok(data@)
                &&& recs@.len() == yax_node_count(data@)
                &&& rec_views(recs@) == yax_records(data@, tables@.tags)
            },
            Err(e) => {
                &&& e == DecodeError::OutOfBounds
                &&& !yax_bounds_ok(data@)
            },
        },
{
    let ghost d = data@;
    let mut bytes = ByteDataWrapper::from_vec(crate::dat::copy_bytes(data));
    let node_count_u32 = match bytes.read_u32() {
        Ok(v) => v,
        Err(_) => {
            return Err(DecodeError::OutOfBounds);
        },
    };
    let node_count = node_count_u32 as usize;

    // the string table begins where the records end
    let strings_start: usize = match node_count.checked_mul(9) {
        Some(x) => match x.checked_add(4) {
            Some(y) => y,
            None => {
                return Err(DecodeError::OutOfBounds);
            },
        },
        None => {
            return Err(DecodeError::OutOfBounds);
        },
    };
    if strings_start > data.len() {
        return Err(DecodeError::OutOfBounds);
    }
    let table = scan_string_table(data, strings_start);

    let mut records: Vec<YaxNode> = Vec::new();
    let mut i: usize = 0;
    while i < node_count
        invariant
            0 <= i <= node_count,
            d == data@,
            bytes.data@ == d,
            node_count == yax_node_count(d),
            strings_start == yax_strings_start(d),
            strings_start <= d.len(),
            bytes.position == 4 + 9 * i,
            table_view(table@) == string_table(d),
            records@.len() == i,
            forall|k: int|
                0 <= k < i ==> #[trigger] rec_views(records@)[k] == yax_record(
                    d,
                    tables@.tags,
                    k,
                ),
        decreases node_count - i,
    {
        let mut node = match YaxNode::from_bytes(&mut bytes, tables) {
            Ok(n) => n,
            Err(_) => {
                proof {
                    assert(4 + 9 * i + 9 <= 4 + 9 * node_count);
                    assert(false);
                }
                return Err(DecodeError::OutOfBounds);
            },
        };
        node.text = lookup_text(&table, node.string_offset);
        let ghost before = records@;
        records.push(node);
        i = i + 1;
        proof {
            assert(records@.drop_last() =~= before);
            assert(rec_views(records@)[i - 1] == yax_record(d, tables@.tags, i - 1));
            assert forall|k: int| 0 <= k < i implies #[trigger] rec_views(records@)[k]
                == yax_record(d, tables@.tags, k) by {
                if k < i - 1 {
                    assert(rec_views(before)[k] == yax_record(d, tables@.tags, k));
                    assert(records@[k] == before[k]);
                }
            }
        }
    }
    proof {
        assert(rec_views(records@) =~= yax_records(d, tables@.tags));
    }
    Ok(records)
}

/// A forest is well formed at `level` when every root sits at `level`
/// and its children form a well-formed forest one level deeper.
pub open spec fn wf_forest(ns: Seq<NodeView>, level: int) -> bool
    decreases ns,
{
    if ns.len() == 0 {
        true
    } else {
        &&& ns[0].ind == level
        &&& wf_forest(ns[0].children, level + 1)
        &&& wf_forest(ns.drop_first(), level)
    }
}

/// The records of a forest, in file (preorder) order: each node's
/// record, then its children's records, then its later siblings'.
pub open spec fn flatten_forest(ns: Seq<NodeView>) -> Seq<RecView>
    decreases ns,
{
    if ns.len() == 0 {
        Seq::<RecView>::empty()
    } else {
        seq![flat_of(ns[0])] + flatten_forest(ns[0].children) + flatten_forest(ns.drop_first())
    }
}

/// A record stream is well leveled when its first record sits at
/// indentation zero and no record's indentation exceeds its
/// predecessor's by more than one: every node then has an open ancestor
/// at the level above it.
pub open spec fn levels_ok(recs: Seq<RecView>) -> bool {
    forall|k: int|
        0 <= k < recs.len() ==> (#[trigger] recs[k]).ind <= (if k == 0 {
            0int
        } else {
            recs[k - 1].ind + 1
        })
}

/// The records of a well-formed forest start at the forest's level,
/// never sink below it, and never climb by more than one at a time.
pub proof fn lemma_flatten_props(ns: Seq<NodeView>, level: int)
    requires
        wf_forest(ns, level),
    ensures
        flatten_forest(ns).len() >= ns.len(),
        ns.len() > 0 ==> flatten_forest(ns).len() > 0 && flatten_forest(ns)[0].ind == level,
        forall|k: int|
            0 <= k < flatten_forest(ns).len() ==> (#[trigger] flatten_forest(ns)[k]).ind >= level,
        forall|k: int|
            1 <= k < flatten_forest(ns).len() ==> (#[trigger] flatten_forest(ns)[k]).ind
                <= flatten_forest(ns)[k - 1].ind + 1,
    decreases ns,
{
    if ns.len() == 0 {
    } else {
        let head = seq![flat_of(ns[0])];
        let fc = flatten_forest(ns[0].children);
        let fr = flatten_forest(ns.drop_first());
        let f = flatten_forest(ns);
        lemma_flatten_props(ns[0].children, level + 1);
        lemma_flatten_props(ns.drop_first(), level);
        assert(f =~= head + fc + fr);
        assert(f.len() == 1 + fc.len() + fr.len());
        assert(f[0] == flat_of(ns[0]));
        assert forall|k: int| 0 <= k < f.len() implies (#[trigger] f[k]).ind >= level by {
            if k == 0 {
            } else if k < 1 + fc.len() {
                assert(f[k] == fc[k - 1]);
                assert(fc[k - 1].ind >= level + 1);
            } else {
                assert(f[k] == fr[k - 1 - fc.len()]);
            }
        }
        assert forall|k: int| 1 <= k < f.len() implies (#[trigger] f[k]).ind <= f[k - 1].ind
            + 1 by {
            if k < 1 + fc.len() {
                assert(f[k] == fc[k - 1]);
                if k == 1 {
                    assert(fc[0].ind == level + 1);
                } else {
                    assert(f[k - 1] == fc[k - 2]);
                    assert(fc[k - 1].ind <= fc[k - 2].ind + 1);
                }
            } else if k == 1 + fc.len() {
                // the boundary from the children back to the next sibling
                assert(f[k] == fr[0]);
                assert(fr[0].ind == level);
                if k == 1 {
                    assert(f[0].ind == level);
                } else {
                    assert(f[k - 1] == fc[k - 2]);
                    assert(fc[k - 2].ind >= level + 1);
                }
            } else {
                assert(f[k] == fr[k - 1 - fc.len()]);
                assert(f[k - 1] == fr[k - 2 - fc.len()]);
                assert(fr[k - 1 - fc.len()].ind <= fr[k - 2 - fc.len()].ind + 1);
            }
        }
    }
}

/// The records of a well-formed forest are well leveled.
pub proof fn lemma_flatten_levels_ok(ns: Seq<NodeView>)
    requires
        wf_forest(ns, 0),
    ensures
        levels_ok(flatten_forest(ns)),
{
    lemma_flatten_props(ns, 0);
}

/// Tree reconstruction is determined by the record stream: two
/// well-formed forests with the same records — same tag names, same
/// text, same child ordering — are the same forest. Decoding a tree
/// buffer twice therefore yields structurally identical trees, with no
/// reliance on lookup-table load order.
#[verifier::rlimit(100)]
pub proof fn lemma_reconstruction_unique(ns1: Seq<NodeView>, ns2: Seq<NodeView>, level: int)
    requires
        wf_forest(ns1, level),
        wf_forest(ns2, level),
        flatten_forest(ns1) == flatten_forest(ns2),
    ensures
        ns1 == ns2,
    decreases flatten_forest(ns1).len(),
{
    let f = flatten_forest(ns1);
    if f.len() == 0 {
        assert(ns1.len() == 0 && ns2.len() == 0) by {
            lemma_flatten_props(ns1, level);
            lemma_flatten_props(ns2, level);
        }
        assert(ns1 =~= ns2);
    } else {
        assert(ns1.len() > 0 && ns2.len() > 0) by {
            if ns1.len() == 0 {
                assert(f =~= Seq::<RecView>::empty());
            }
            if ns2.len() == 0 {
                assert(flatten_forest(ns2) =~= Seq::<RecView>::empty());
            }
        }
        let fc1 = flatten_forest(ns1[0].children);
        let fr1 = flatten_forest(ns1.drop_first());
        let fc2 = flatten_forest(ns2[0].children);
        let fr2 = flatten_forest(ns2.drop_first());
        assert(f =~= seq![flat_of(ns1[0])] + fc1 + fr1);
        assert(f =~= seq![flat_of(ns2[0])] + fc2 + fr2);
        assert(flat_of(ns1[0]) == f[0] && flat_of(ns2[0]) == f[0]);
        let s = f.drop_first();
        assert(fc1 =~= s.subrange(0, fc1.len() as int)) by {
            assert forall|k: int| 0 <= k < fc1.len() implies fc1[k] == s[k] by {
                assert(f[k + 1] == fc1[k]);
            }
        }
        assert(fc2 =~= s.subrange(0, fc2.len() as int)) by {
            assert forall|k: int| 0 <= k < fc2.len() implies fc2[k] == s[k] by {
                assert(f[k + 1] == fc2[k]);
            }
        }
        lemma_flatten_props(ns1[0].children, level + 1);
        lemma_flatten_props(ns2[0].children, level + 1);
        lemma_flatten_props(ns1.drop_first(), level);
        lemma_flatten_props(ns2.drop_first(), level);
        // the children's records are the longest prefix above `level`,
        // so both decompositions cut the stream at the same place
        assert(fc1.len() == fc2.len()) by {
            if fc1.len() < fc2.len() {
                assert(f[fc1.len() as int + 1] == fr1[0]);
                assert(fr1.len() > 0 && fr1[0].ind == level);
                assert(s[fc1.len() as int] == fc2[fc1.len() as int]);
                assert(fc2[fc1.len() as int].ind >= level + 1);
            }
            if fc2.len() < fc1.len() {
                assert(f[fc2.len() as int + 1] == fr2[0]);
                assert(fr2.len() > 0 && fr2[0].ind == level);
                assert(s[fc2.len() as int] == fc1[fc2.len() as int]);
                assert(fc1[fc2.len() as int].ind >= level + 1);
            }
        }
        assert(fc1 == fc2);
        assert(fr1 =~= fr2) by {
            assert forall|k: int| 0 <= k < fr1.len() implies fr1[k] == fr2[k] by {
                assert(f[1 + fc1.len() + k] == fr1[k]);
                assert(f[1 + fc2.len() + k] == fr2[k]);
            }
            assert(fr1.len() == fr2.len());
        }
        lemma_reconstruction_unique(ns1[0].children, ns2[0].children, level + 1);
        lemma_reconstruction_unique(ns1.drop_first(), ns2.drop_first(), level);
        assert(ns1[0] == ns2[0]) by {
            let a = ns1[0];
            let b = ns2[0];
            assert(flat_of(a) == flat_of(b));
            assert(a.ind == b.ind && a.hash == b.hash && a.soff == b.soff && a.tag == b.tag
                && a.text == b.text);
            assert(a.children == b.children);
        }
        assert(ns1 =~= ns2) by {
            assert(ns1.len() == ns2.len());
            assert forall|k: int| 0 <= k < ns1.len() implies ns1[k] == ns2[k] by {
                if k > 0 {
                    assert(ns1.drop_first()[k - 1] == ns2.drop_first()[k - 1]);
                }
            }
        }
    }
}

/// A clone of an optional text payload.
fn clone_text(t: &Option<String>) -> (r: Option<String>)
    ensures
        r == *t,
{
    match t {
        Some(s) => Some(s.clone()),
        None => None,
    }
}

/// Parses the longest run of sibling subtrees at `level` beginning at
/// record `start`: each record at `level` opens a node whose children
/// are parsed one level deeper, exactly as the indentation encodes
/// them. Returns the forest and the index of the first unconsumed
/// record; when that record exists it never fits at `level`, and it
/// fits at no open level at all unless it sits below `level`.
pub fn parse_forest(recs: &Vec<YaxNode>, start: usize, level: usize) -> (r: (Vec<YaxNode>, usize))
    requires
        start <= recs@.len(),
    ensures
        ({
            let nodes = r.0;
            let j = r.1 as int;
            let rv = rec_views(recs@);
            let i = start as int;
            &&& i <= j <= rv.len()
            &&& wf_forest(forest_view(nodes@), level as int)
            &&& flatten_forest(forest_view(nodes@)) == rv.subrange(i, j)
            &&& (j < rv.len() ==> (#[trigger] rv[j]).ind != level)
            &&& (j < rv.len() ==> (rv[j].ind < level || (j == i && rv[j].ind > level) || (j > i
                && rv[j].ind > rv[j - 1].ind + 1)))
            &&& (i < rv.len() && rv[i].ind == level ==> j > i)
        }),
    decreases recs@.len() - start,
{
    let ghost rv = rec_views(recs@);
    let n = recs.len();
    if start >= n || recs[start].indentation as usize != level {
        let empty_forest: Vec<YaxNode> = Vec::new();
        proof {
            assert(forest_view(empty_forest@) =~= Seq::<NodeView>::empty());
            assert(flatten_forest(forest_view(empty_forest@)) =~= rv.subrange(
                start as int,
                start as int,
            ));
            if start < n {
                assert(rv[start as int].ind == recs@[start as int].indentation);
            }
        }
        return (empty_forest, start);
    }
    proof {
        assert(rv[start as int].ind == recs@[start as int].indentation);
    }
    let (children, j1) = parse_forest(recs, start + 1, level + 1);
    let head = YaxNode {
        indentation: recs[start].indentation,
        tag_name_hash: recs[start].tag_name_hash,
        string_offset: recs[start].string_offset,
        tag_name: recs[start].tag_name.clone(),
        text: clone_text(&recs[start].text),
        children,
    };
    let ghost head_children_view = forest_view(head.children@);
    let (mut nodes, j2) = parse_forest(recs, j1, level);
    let ghost sibs = nodes@;
    nodes.insert(0, head);
    proof {
        let i = start as int;
        let lv = level as int;
        assert(flat_of(node_view(head)) == rv[i]);
        assert(forest_view(nodes@) =~= seq![node_view(head)] + forest_view(sibs)) by {
            lemma_forest_view_len(nodes@);
            lemma_forest_view_len(sibs);
            assert(nodes@[0] == head);
            assert(nodes@.drop_first() =~= sibs);
            assert forall|k: int| 0 <= k < nodes@.len() implies forest_view(nodes@)[k] == (
            seq![node_view(head)] + forest_view(sibs))[k] by {
                lemma_forest_view_index(nodes@, k);
                if k > 0 {
                    lemma_forest_view_index(sibs, k - 1);
                    assert(nodes@[k] == sibs[k - 1]);
                }
            }
        }
        let nsv = forest_view(nodes@);
        // well-formedness of the grown forest
        assert(wf_forest(nsv, lv)) by {
            assert(nsv[0] == node_view(head));
            assert(nsv[0].ind == lv);
            assert(nsv[0].children == forest_view(head.children@));
            assert(nsv.drop_first() =~= forest_view(sibs));
        }
        // its records are exactly the consumed range
        assert(flatten_forest(nsv) == rv.subrange(i, j2 as int)) by {
            assert(nsv[0] == node_view(head));
            assert(nsv.drop_first() =~= forest_view(sibs));
            assert(flatten_forest(nsv) =~= seq![flat_of(node_view(head))] + flatten_forest(
                forest_view(head.children@),
            ) + flatten_forest(forest_view(sibs)));
            assert(flatten_forest(forest_view(head.children@)) == rv.subrange(i + 1, j1 as int));
            assert(flatten_forest(forest_view(sibs)) == rv.subrange(j1 as int, j2 as int));
            assert(rv.subrange(i, j2 as int) =~= seq![rv[i]] + rv.subrange(i + 1, j1 as int)
                + rv.subrange(j1 as int, j2 as int));
        }
        // the stopping record fits at no open level unless it sits below this one
        if (j2 as int) < rv.len() {
            if j2 == j1 {
                if rv[j2 as int].ind > lv {
                    // the children's parse also rejected it, so it skips a level
                    if j1 == start + 1 {
                        assert(rv[j1 as int].ind > lv + 1);
                        assert(rv[j1 - 1].ind == lv);
                    } else {
                        assert(rv[j1 as int].ind < lv + 1 || rv[j1 as int].ind > rv[j1 - 1].ind
                            + 1);
                        assert(rv[j1 as int].ind > rv[j1 - 1].ind + 1);
                    }
                }
            }
        }
    }
    (nodes, j2)
}

/// A tree buffer decodes to a document exactly when its records lie in
/// bounds and are well leveled.
pub open spec fn yax_ok(d: Seq<u8>, tags: Seq<(u32, Seq<char>)>) -> bool {
    &&& yax_bounds_ok(d)
    &&& levels_ok(yax_records(d, tags))
}

/// Reconstructs the node tree from the flat records: a record at
/// indentation zero opens a new root sibling; a record at indentation
/// `L > 0` attaches as the last child of the most recent node at
/// `L - 1`. A stream whose first record is not at indentation zero, or
/// that skips a level, is a malformed document.
pub fn build_tree(records: &Vec<YaxNode>) -> (r: Result<Vec<YaxNode>, DecodeError>)
    ensures
        match r {
            Ok(roots) => {
                &&& levels_ok(rec_views(records@))
                &&& wf_forest(forest_view(roots@), 0)
                &&& flatten_forest(forest_view(roots@)) == rec_views(records@)
            },
            Err(e) => {
                &&& e == DecodeError::LevelSkip
                &&& !levels_ok(rec_views(records@))
            },
        },
{
    let ghost rv = rec_views(records@);
    let (roots, j) = parse_forest(records, 0, 0);
    if j == records.len() {
        proof {
            assert(flatten_forest(forest_view(roots@)) =~= rv);
            lemma_flatten_levels_ok(forest_view(roots@));
        }
        Ok(roots)
    } else {
        proof {
            assert(!levels_ok(rv)) by {
                if levels_ok(rv) {
                    let jj = j as int;
                    assert(rv[jj].ind <= (if jj == 0 {
                        0int
                    } else {
                        rv[jj - 1].ind + 1
                    }));
                    assert(false);
                }
            }
        }
        Err(DecodeError::LevelSkip)
    }
}

} // verus!
