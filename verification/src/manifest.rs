//! The extraction manifest: member names sorted ascending by
//! (case-folded name-stem, case-folded extension). The sort order is a
//! contract of the container extractor, not an implementation detail,
//! because downstream consumers rely on a deterministic ordering.
//!
//! Names are compared as byte strings: the stem is everything before the
//! first `.`, the extension everything after it (empty when the name has
//! no dot), and case folding maps the ASCII letters `A`..`Z` to their
//! lowercase counterparts, byte-wise.

use vstd::prelude::*;

verus! {

broadcast use vstd::seq_lib::to_multiset_insert, vstd::seq_lib::to_multiset_remove, vstd::multiset::group_multiset_axioms;

/// ASCII case folding of one byte.
pub open spec fn fold_byte(b: u8) -> u8 {
    if 0x41 <= b <= 0x5a {
        (b + 0x20) as u8
    } else {
        b
    }
}

/// Byte-wise ASCII case folding.
pub open spec fn fold_bytes(s: Seq<u8>) -> Seq<u8> {
    s.map_values(|b: u8| fold_byte(b))
}

/// Index of the first `.` in `s`, or `s.len()` when there is none.
pub open spec fn first_dot(s: Seq<u8>) -> int
    decreases s.len(),
{
    if s.len() == 0 {
        0
    } else if s[0] == 0x2e {
        0
    } else {
        1 + first_dot(s.drop_first())
    }
}

/// The name's stem: everything before the first dot.
pub open spec fn name_stem(s: Seq<u8>) -> Seq<u8> {
    s.take(first_dot(s))
}

/// The name's extension: everything after the first dot, or empty when
/// the name has no dot.
pub open spec fn name_ext(s: Seq<u8>) -> Seq<u8> {
    if first_dot(s) == s.len() {
        Seq::<u8>::empty()
    } else {
        s.skip(first_dot(s) + 1)
    }
}

/// Lexicographic order on byte strings.
pub open spec fn lex_le(a: Seq<u8>, b: Seq<u8>) -> bool
    decreases a.len(),
{
    if a.len() == 0 {
        true
    } else if b.len() == 0 {
        false
    } else if a[0] < b[0] {
        true
    } else if a[0] > b[0] {
        false
    } else {
        lex_le(a.drop_first(), b.drop_first())
    }
}

/// The manifest order: by case-folded stem, then by case-folded
/// extension.
pub open spec fn key_le(a: Seq<u8>, b: Seq<u8>) -> bool {
    if fold_bytes(name_stem(a)) == fold_bytes(name_stem(b)) {
        lex_le(fold_bytes(name_ext(a)), fold_bytes(name_ext(b)))
    } else {
        lex_le(fold_bytes(name_stem(a)), fold_bytes(name_stem(b)))
    }
}

pub proof fn lemma_lex_total(a: Seq<u8>, b: Seq<u8>)
    ensures
        lex_le(a, b) || lex_le(b, a),
    decreases a.len(),
{
    if a.len() == 0 || b.len() == 0 {
    } else if a[0] == b[0] {
        lemma_lex_total(a.drop_first(), b.drop_first());
    }
}

pub proof fn lemma_lex_antisym(a: Seq<u8>, b: Seq<u8>)
    requires
        lex_le(a, b),
        lex_le(b, a),
    ensures
        a == b,
    decreases a.len(),
{
    if a.len() == 0 {
        assert(b.len() == 0);
        assert(a =~= b);
    } else {
        assert(b.len() > 0);
        assert(a[0] == b[0]);
        lemma_lex_antisym(a.drop_first(), b.drop_first());
        assert(a.drop_first().len() == b.drop_first().len());
        assert(a.len() == b.len());
        assert forall|j: int| 0 <= j < a.len() implies a[j] == b[j] by {
            if j > 0 {
                assert(a.drop_first()[j - 1] == b.drop_first()[j - 1]);
            }
        }
        assert(a =~= b);
    }
}

pub proof fn lemma_lex_trans(a: Seq<u8>, b: Seq<u8>, c: Seq<u8>)
    requires
        lex_le(a, b),
        lex_le(b, c),
    ensures
        lex_le(a, c),
    decreases a.len(),
{
    if a.len() == 0 || b.len() == 0 || c.len() == 0 {
    } else if a[0] == b[0] && b[0] == c[0] {
        lemma_lex_trans(a.drop_first(), b.drop_first(), c.drop_first());
    }
}

pub proof fn lemma_key_total(a: Seq<u8>, b: Seq<u8>)
    ensures
        key_le(a, b) || key_le(b, a),
{
    lemma_lex_total(fold_bytes(name_stem(a)), fold_bytes(name_stem(b)));
    lemma_lex_total(fold_bytes(name_ext(a)), fold_bytes(name_ext(b)));
}

pub proof fn lemma_key_trans(a: Seq<u8>, b: Seq<u8>, c: Seq<u8>)
    requires
        key_le(a, b),
        key_le(b, c),
    ensures
        key_le(a, c),
{
    let sa = fold_bytes(name_stem(a));
    let sb = fold_bytes(name_stem(b));
    let sc = fold_bytes(name_stem(c));
    if sa == sb && sb == sc {
        lemma_lex_trans(fold_bytes(name_ext(a)), fold_bytes(name_ext(b)), fold_bytes(name_ext(c)));
    } else if sa == sb {
        // key order between b and c is decided by the stems; a's stem equals b's
    } else if sb == sc {
    } else {
        lemma_lex_trans(sa, sb, sc);
        if sa == sc {
            // then lex_le(sb, sc) == lex_le(sb, sa); with lex_le(sa, sb) the
            // stems b and a would be equal, contradicting sa != sb
            lemma_lex_antisym(sa, sb);
        }
    }
}

/// Equal prefixes do not decide the lexicographic order: it is decided by
/// the remainders.
proof fn lemma_lex_skip(a: Seq<u8>, b: Seq<u8>, i: int)
    requires
        0 <= i <= a.len(),
        i <= b.len(),
        a.subrange(0, i) == b.subrange(0, i),
    ensures
        lex_le(a, b) == lex_le(a.skip(i), b.skip(i)),
    decreases i,
{
    if i == 0 {
        assert(a.skip(0) =~= a);
        assert(b.skip(0) =~= b);
    } else {
        assert(a.subrange(0, i)[0] == a[0]);
        assert(b.subrange(0, i)[0] == b[0]);
        assert(a.len() > 0 && b.len() > 0 && a[0] == b[0]);
        assert(a.drop_first().subrange(0, i - 1) =~= a.subrange(0, i).subrange(1, i));
        assert(b.drop_first().subrange(0, i - 1) =~= b.subrange(0, i).subrange(1, i));
        lemma_lex_skip(a.drop_first(), b.drop_first(), i - 1);
        assert(a.drop_first().skip(i - 1) =~= a.skip(i));
        assert(b.drop_first().skip(i - 1) =~= b.skip(i));
    }
}

/// One member name: the raw bytes of the name field (truncated at its
/// first null byte) together with its lossy UTF-8 decoding. The bytes
/// carry the sort key; the text is what callers display.
#[derive(Debug)]
pub struct MemberName {
    pub bytes: Vec<u8>,
    pub text: String,
}

impl View for MemberName {
    type V = (Seq<u8>, Seq<char>);

    open spec fn view(&self) -> (Seq<u8>, Seq<char>) {
        (self.bytes@, self.text@)
    }
}

/// Whether a byte string ends with the given suffix.
pub open spec fn has_suffix(s: Seq<u8>, suffix: Seq<u8>) -> bool {
    s.len() >= suffix.len() && s.subrange(s.len() - suffix.len(), s.len() as int) == suffix
}

/// Whether a member name names a nested sub-archive: its bytes end in
/// `.pak`. The orchestration that recurses into sub-archives selects
/// members with this test.
pub fn is_pak_name(name: &Vec<u8>) -> (r: bool)
    ensures
        r == has_suffix(name@, seq![0x2eu8, 0x70u8, 0x61u8, 0x6bu8]),
{
    let n = name.len();
    if n < 4 {
        return false;
    }
    let r = name[n - 4] == 0x2e && name[n - 3] == 0x70 && name[n - 2] == 0x61 && name[n - 1]
        == 0x6b;
    proof {
        let suf = seq![0x2eu8, 0x70u8, 0x61u8, 0x6bu8];
        let tail = name@.subrange(name@.len() - 4, name@.len() as int);
        assert(tail.len() == 4);
        assert(tail[0] == name@[n - 4] && tail[1] == name@[n - 3] && tail[2] == name@[n - 2]
            && tail[3] == name@[n - 1]);
        if r {
            assert(tail =~= suf);
        } else {
            assert(tail != suf) by {
                if tail == suf {
                    assert(tail[0] == 0x2e && tail[1] == 0x70 && tail[2] == 0x61 && tail[3]
                        == 0x6b);
                }
            }
        }
    }
    r
}

/// Byte-string equality.
fn bytes_eq(a: &Vec<u8>, b: &Vec<u8>) -> (r: bool)
    ensures
        r == (a@ == b@),
{
    if a.len() != b.len() {
        proof {
            assert(a@ != b@);
        }
        return false;
    }
    let n = a.len();
    let mut i: usize = 0;
    while i < n
        invariant
            0 <= i <= n,
            n == a@.len() && n == b@.len(),
            forall|j: int| 0 <= j < i ==> a@[j] == b@[j],
        decreases n - i,
    {
        if a[i] != b[i] {
            return false;
        }
        i = i + 1;
    }
    proof {
        assert(a@ =~= b@);
    }
    true
}

/// Lexicographic comparison of byte strings.
fn lex_le_exec(a: &Vec<u8>, b: &Vec<u8>) -> (r: bool)
    ensures
        r == lex_le(a@, b@),
{
    let mut i: usize = 0;
    while i < a.len() && i < b.len()
        invariant
            0 <= i <= a@.len(),
            i <= b@.len(),
            a@.subrange(0, i as int) =~= b@.subrange(0, i as int),
        decreases a@.len() - i,
    {
        let x = a[i];
        let y = b[i];
        if x < y {
            proof {
                lemma_lex_skip(a@, b@, i as int);
            }
            return true;
        }
        if x > y {
            proof {
                lemma_lex_skip(a@, b@, i as int);
            }
            return false;
        }
        i = i + 1;
        proof {
            assert(a@.subrange(0, i as int) =~= b@.subrange(0, i as int));
        }
    }
    proof {
        lemma_lex_skip(a@, b@, i as int);
    }
    i >= a.len()
}

/// ASCII case folding of one byte.
fn fold_byte_exec(b: u8) -> (r: u8)
    ensures
        r == fold_byte(b),
{
    if 0x41 <= b && b <= 0x5a {
        b + 0x20
    } else {
        b
    }
}

/// The case-folded bytes of `v[from..to]`.
fn folded_range(v: &Vec<u8>, from: usize, to: usize) -> (r: Vec<u8>)
    requires
        from <= to <= v@.len(),
    ensures
        r@ == fold_bytes(v@.subrange(from as int, to as int)),
{
    let mut out: Vec<u8> = Vec::new();
    let mut i: usize = from;
    while i < to
        invariant
            from <= i <= to <= v@.len(),
            out@ =~= fold_bytes(v@.subrange(from as int, i as int)),
        decreases to - i,
    {
        out.push(fold_byte_exec(v[i]));
        i = i + 1;
        proof {
            assert(out@ =~= fold_bytes(v@.subrange(from as int, i as int)));
        }
    }
    out
}

proof fn lemma_first_dot_props(s: Seq<u8>)
    ensures
        0 <= first_dot(s) <= s.len(),
        forall|j: int| 0 <= j < first_dot(s) ==> s[j] != 0x2e,
        first_dot(s) < s.len() ==> s[first_dot(s)] == 0x2e,
    decreases s.len(),
{
    if s.len() == 0 || s[0] == 0x2e {
    } else {
        lemma_first_dot_props(s.drop_first());
        assert forall|j: int| 0 <= j < first_dot(s) implies s[j] != 0x2e by {
            if j > 0 {
                assert(s.drop_first()[j - 1] != 0x2e);
            }
        }
    }
}

/// Index of the first dot, or the length when there is none.
fn first_dot_exec(v: &Vec<u8>) -> (r: usize)
    ensures
        r == first_dot(v@),
{
    proof {
        lemma_first_dot_props(v@);
    }
    let n = v.len();
    let mut i: usize = 0;
    while i < n
        invariant
            0 <= i <= n,
            n == v@.len(),
            forall|j: int| 0 <= j < i ==> v@[j] != 0x2e,
        decreases n - i,
    {
        if v[i] == 0x2e {
            proof {
                lemma_first_dot_props(v@);
                if first_dot(v@) < i {
                    assert(v@[first_dot(v@)] == 0x2e);
                }
            }
            return i;
        }
        i = i + 1;
    }
    proof {
        lemma_first_dot_props(v@);
        if first_dot(v@) < n {
            assert(v@[first_dot(v@)] == 0x2e);
        }
    }
    n
}

/// The manifest comparison on two member names.
pub fn name_key_le(a: &MemberName, b: &MemberName) -> (r: bool)
    ensures
        r == key_le(a.bytes@, b.bytes@),
{
    let da = first_dot_exec(&a.bytes);
    let db = first_dot_exec(&b.bytes);
    proof {
        lemma_first_dot_props(a.bytes@);
        lemma_first_dot_props(b.bytes@);
    }
    let stem_a = folded_range(&a.bytes, 0, da);
    let stem_b = folded_range(&b.bytes, 0, db);
    proof {
        assert(a.bytes@.subrange(0, da as int) =~= name_stem(a.bytes@));
        assert(b.bytes@.subrange(0, db as int) =~= name_stem(b.bytes@));
    }
    let ext_start_a = if da < a.bytes.len() {
        da + 1
    } else {
        da
    };
    let ext_start_b = if db < b.bytes.len() {
        db + 1
    } else {
        db
    };
    let ext_a = folded_range(&a.bytes, ext_start_a, a.bytes.len());
    let ext_b = folded_range(&b.bytes, ext_start_b, b.bytes.len());
    proof {
        assert(a.bytes@.subrange(ext_start_a as int, a.bytes@.len() as int) =~= name_ext(a.bytes@));
        assert(b.bytes@.subrange(ext_start_b as int, b.bytes@.len() as int) =~= name_ext(b.bytes@));
    }
    if bytes_eq(&stem_a, &stem_b) {
        lex_le_exec(&ext_a, &ext_b)
    } else {
        lex_le_exec(&stem_a, &stem_b)
    }
}

/// Finds where to insert `x` into the sorted prefix `v[0..i]`.
fn find_insert_pos(v: &Vec<MemberName>, x: &MemberName, i: usize) -> (r: usize)
    requires
        i <= v@.len(),
    ensures
        r <= i,
        forall|p: int| 0 <= p < r ==> key_le(#[trigger] v@[p].bytes@, x.bytes@),
        r < i ==> !key_le(v@[r as int].bytes@, x.bytes@),
{
    let mut j: usize = 0;
    while j < i
        invariant
            0 <= j <= i <= v@.len(),
            forall|p: int| 0 <= p < j ==> key_le(#[trigger] v@[p].bytes@, x.bytes@),
        decreases i - j,
    {
        if !name_key_le(&v[j], x) {
            return j;
        }
        j = j + 1;
    }
    j
}

/// Sorts member names ascending by (case-folded stem, case-folded
/// extension). The result holds exactly the names given, rearranged;
/// this order must hold regardless of the on-disk member-table order.
pub fn sort_member_names(v: &mut Vec<MemberName>)
    ensures
        final(v)@.len() == old(v)@.len(),
        final(v)@.map_values(|m: MemberName| m@).to_multiset() == old(v)@.map_values(
            |m: MemberName| m@,
        ).to_multiset(),
        forall|p: int, q: int|
            0 <= p < q < final(v)@.len() ==> key_le(
                #[trigger] final(v)@[p].bytes@,
                #[trigger] final(v)@[q].bytes@,
            ),
{
    if v.len() <= 1 {
        return ;
    }
    let mut i: usize = 1;
    while i < v.len()
        invariant
            1 <= i <= v@.len(),
            v@.len() == old(v)@.len(),
            v@.map_values(|m: MemberName| m@).to_multiset() == old(v)@.map_values(
                |m: MemberName| m@,
            ).to_multiset(),
            forall|p: int, q: int|
                0 <= p < q < i ==> key_le(#[trigger] v@[p].bytes@, #[trigger] v@[q].bytes@),
        decreases v@.len() - i,
    {
        let ghost before = v@;
        let x = v.remove(i);
        let j = find_insert_pos(v, &x, i);
        v.insert(j, x);
        proof {
            // the removed-then-reinserted sequence holds the same names
            let vw = |m: MemberName| m@;
            let bm = before.map_values(vw);
            assert(v@.map_values(vw) =~= bm.remove(i as int).insert(j as int, x@));
            vstd::seq_lib::to_multiset_remove(bm, i as int);
            vstd::seq_lib::to_multiset_insert(bm.remove(i as int), j as int, x@);
            bm.to_multiset_ensures();
            assert(bm[i as int] == x@);
            assert(bm.contains(x@));
            assert(bm.to_multiset().count(x@) > 0);
            assert(bm.to_multiset().remove(x@).insert(x@) =~= bm.to_multiset());
            assert(v@.map_values(vw).to_multiset() == bm.to_multiset());
            // sortedness of the prefix grew by one element
            assert forall|p: int, q: int| 0 <= p < q < i + 1 implies key_le(
                #[trigger] v@[p].bytes@,
                #[trigger] v@[q].bytes@,
            ) by {
                let jj = j as int;
                if p < jj && q < jj {
                    assert(v@[p] == before[p] && v@[q] == before[q]);
                } else if p < jj && q == jj {
                    assert(v@[p] == before[p]);
                } else if p < jj && q > jj {
                    assert(v@[p] == before[p] && v@[q] == before[q - 1]);
                } else if p == jj && q > jj {
                    // x goes before the element it displaced
                    assert(v@[q] == before[q - 1]);
                    lemma_key_total(x.bytes@, before[jj].bytes@);
                    if q - 1 > jj {
                        lemma_key_trans(x.bytes@, before[jj].bytes@, before[q - 1].bytes@);
                    }
                } else {
                    assert(p > jj && q > jj);
                    assert(v@[p] == before[p - 1] && v@[q] == before[q - 1]);
                }
            }
        }
        i = i + 1;
    }
}

} // verus!
