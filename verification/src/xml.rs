//! Serialization of a reconstructed node tree to a structured markup
//! document: a synthetic `root` element wraps the top-level siblings,
//! each node becomes an element named by its resolved tag, child
//! elements keep their original order, and pretty-printing uses a fixed
//! single-tab indent with no semantic significance.
//!
//! Annotation mode (always on) adds attributes: a node whose text is a
//! hex-encoded reference (`0x` prefix, hex digits, non-zero) that
//! resolves through the symbol tables carries the resolved name in a
//! `str` attribute; otherwise, text containing any non-ASCII character
//! whose translation lookup succeeds carries the translation in an
//! `eng` attribute; and a node whose tag hash is unknown carries the
//! raw hash, in hex, in an `id` attribute on its `UNKNOWN` element.
//!
//! Text content containing the literal escaped-quote marker `&quot;` is
//! rewritten to a doubled quote before emission, an output-compatibility
//! normalization specific to this format.

use vstd::prelude::*;

use crate::DecodeError;
use crate::symbols::SymbolTables;
use crate::symbols::TablesView;
use crate::symbols::spec_resolve_hash;
use crate::symbols::spec_translate;
use crate::yax::NodeView;
use crate::yax::YaxNode;
use crate::yax::build_tree;
use crate::yax::flatten_forest;
use crate::yax::forest_view;
use crate::yax::lemma_forest_view_index;
use crate::yax::lemma_forest_view_len;
use crate::yax::levels_ok;
use crate::yax::parse_yax_records;
use crate::yax::wf_forest;
use crate::yax::yax_bounds_ok;
use crate::yax::yax_ok;
use crate::yax::yax_records;

verus! {

broadcast use vstd::string::axiom_spec_iter, vstd::string::next_postcondition, vstd::std_specs::vec::group_vec_axioms;

/// Every character is in the ASCII range.
pub open spec fn all_ascii(t: Seq<char>) -> bool {
    forall|k: int| 0 <= k < t.len() ==> ((#[trigger] t[k]) as int) < 128
}

/// The characters of a string slice.
fn str_chars(s: &str) -> (r: Vec<char>)
    ensures
        r@ == s@,
{
    let mut out: Vec<char> = Vec::new();
    for c in it: s.chars()
        invariant
            it.seq() == s@,
            out@ =~= it.seq().take(it.index()),
    {
        out.push(c);
        proof {
            assert(out@ =~= it.seq().take(it.index() + 1));
        }
    }
    proof {
        assert(out@ =~= s@);
    }
    out
}

/// Appends the characters of `cs` to `out`.
fn push_chars(out: &mut Vec<char>, cs: &Vec<char>)
    ensures
        final(out)@ == old(out)@ + cs@,
{
    let n = cs.len();
    let mut i: usize = 0;
    while i < n
        invariant
            0 <= i <= n,
            n == cs@.len(),
            out@ =~= old(out)@ + cs@.take(i as int),
        decreases n - i,
    {
        out.push(cs[i]);
        i = i + 1;
        proof {
            assert(out@ =~= old(out)@ + cs@.take(i as int));
        }
    }
    proof {
        assert(out@ =~= old(out)@ + cs@);
    }
}

/// Appends the characters of a string slice to `out`.
fn push_str_chars(out: &mut Vec<char>, s: &str)
    ensures
        final(out)@ == old(out)@ + s@,
{
    let cs = str_chars(s);
    push_chars(out, &cs);
}

/// `n` tab characters.
pub open spec fn tabs(n: int) -> Seq<char>
    decreases n,
{
    if n <= 0 {
        Seq::<char>::empty()
    } else {
        tabs(n - 1).push('\t')
    }
}

/// Appends `depth` tabs to `out`.
fn push_tabs(out: &mut Vec<char>, depth: usize)
    ensures
        final(out)@ == old(out)@ + tabs(depth as int),
{
    let mut i: usize = 0;
    while i < depth
        invariant
            0 <= i <= depth,
            out@ =~= old(out)@ + tabs(i as int),
        decreases depth - i,
    {
        out.push('\t');
        i = i + 1;
    }
}

/// Markup escaping of one character: the five characters with meaning
/// in the output format become entities, all others stand for
/// themselves.
pub open spec fn escape_char(c: char) -> Seq<char> {
    if c == '<' {
        seq!['&', 'l', 't', ';']
    } else if c == '>' {
        seq!['&', 'g', 't', ';']
    } else if c == '&' {
        seq!['&', 'a', 'm', 'p', ';']
    } else if c == '\'' {
        seq!['&', 'a', 'p', 'o', 's', ';']
    } else if c == '"' {
        seq!['&', 'q', 'u', 'o', 't', ';']
    } else {
        seq![c]
    }
}

/// Markup escaping of a character sequence.
pub open spec fn escape(t: Seq<char>) -> Seq<char>
    decreases t.len(),
{
    if t.len() == 0 {
        Seq::<char>::empty()
    } else {
        escape_char(t[0]) + escape(t.drop_first())
    }
}

/// Appends the escaped form of `t` to `out`.
fn push_escaped(out: &mut Vec<char>, t: &Vec<char>)
    ensures
        final(out)@ == old(out)@ + escape(t@),
{
    let n = t.len();
    let ghost whole = t@;
    let mut i: usize = 0;
    proof {
        assert(whole.skip(0) =~= whole);
    }
    while i < n
        invariant
            0 <= i <= n,
            n == t@.len(),
            whole == t@,
            out@ + escape(whole.skip(i as int)) == old(out)@ + escape(whole),
        decreases n - i,
    {
        let c = t[i];
        let ghost prev = out@;
        proof {
            assert(whole.skip(i as int)[0] == whole[i as int]);
            assert(whole.skip(i as int).drop_first() =~= whole.skip(i + 1));
        }
        if c == '<' {
            out.push('&');
            out.push('l');
            out.push('t');
            out.push(';');
        } else if c == '>' {
            out.push('&');
            out.push('g');
            out.push('t');
            out.push(';');
        } else if c == '&' {
            out.push('&');
            out.push('a');
            out.push('m');
            out.push('p');
            out.push(';');
        } else if c == '\'' {
            out.push('&');
            out.push('a');
            out.push('p');
            out.push('o');
            out.push('s');
            out.push(';');
        } else if c == '"' {
            out.push('&');
            out.push('q');
            out.push('u');
            out.push('o');
            out.push('t');
            out.push(';');
        } else {
            out.push(c);
        }
        proof {
            assert(out@ =~= prev + escape_char(whole[i as int]));
            assert((prev + escape_char(whole[i as int])) + escape(whole.skip(i + 1)) =~= prev
                + escape(whole.skip(i as int)));
        }
        i = i + 1;
    }
    proof {
        assert(escape(whole.skip(n as int)) =~= Seq::<char>::empty());
        assert(out@ =~= old(out)@ + escape(whole));
    }
}

/// The literal escaped-quote marker.
pub open spec fn quot_marker() -> Seq<char> {
    seq!['&', 'q', 'u', 'o', 't', ';']
}

/// Rewrites each occurrence of the escaped-quote marker to a doubled
/// quote.
pub open spec fn rewrite_quotes(t: Seq<char>) -> Seq<char>
    decreases t.len(),
{
    if t.len() == 0 {
        Seq::<char>::empty()
    } else if t.len() >= 6 && t.subrange(0, 6) == quot_marker() {
        seq!['"', '"'] + rewrite_quotes(t.skip(6))
    } else {
        seq![t[0]] + rewrite_quotes(t.skip(1))
    }
}

/// Rewrites each occurrence of the escaped-quote marker in `t` to a
/// doubled quote.
fn rewrite_quotes_exec(t: &Vec<char>) -> (r: Vec<char>)
    ensures
        r@ == rewrite_quotes(t@),
{
    let n = t.len();
    let ghost whole = t@;
    let mut out: Vec<char> = Vec::new();
    let mut i: usize = 0;
    proof {
        assert(whole.skip(0) =~= whole);
    }
    while i < n
        invariant
            0 <= i <= n,
            n == t@.len(),
            whole == t@,
            out@ + rewrite_quotes(whole.skip(i as int)) == rewrite_quotes(whole),
        decreases n - i,
    {
        let is_marker = n - i >= 6 && t[i] == '&' && t[i + 1] == 'q' && t[i + 2] == 'u' && t[i + 3]
            == 'o' && t[i + 4] == 't' && t[i + 5] == ';';
        let ghost rest = whole.skip(i as int);
        if is_marker {
            proof {
                assert(rest.subrange(0, 6) =~= quot_marker());
                assert(rest.skip(6) =~= whole.skip(i + 6));
            }
            out.push('"');
            out.push('"');
            i = i + 6;
        } else {
            proof {
                assert(rest[0] == whole[i as int]);
                assert(rest.skip(1) =~= whole.skip(i + 1));
                if rest.len() >= 6 && rest.subrange(0, 6) == quot_marker() {
                    assert(whole[i as int] == rest.subrange(0, 6)[0]);
                    assert(whole[i + 1] == rest.subrange(0, 6)[1]);
                    assert(whole[i + 2] == rest.subrange(0, 6)[2]);
                    assert(whole[i + 3] == rest.subrange(0, 6)[3]);
                    assert(whole[i + 4] == rest.subrange(0, 6)[4]);
                    assert(whole[i + 5] == rest.subrange(0, 6)[5]);
                }
            }
            out.push(t[i]);
            i = i + 1;
        }
    }
    proof {
        assert(rewrite_quotes(whole.skip(n as int)) =~= Seq::<char>::empty());
        assert(out@ =~= out@ + rewrite_quotes(whole.skip(n as int)));
    }
    out
}

/// The lowercase hex digit for a value below 16.
pub open spec fn hex_digit_char(v: int) -> char {
    if v == 0 {
        '0'
    } else if v == 1 {
        '1'
    } else if v == 2 {
        '2'
    } else if v == 3 {
        '3'
    } else if v == 4 {
        '4'
    } else if v == 5 {
        '5'
    } else if v == 6 {
        '6'
    } else if v == 7 {
        '7'
    } else if v == 8 {
        '8'
    } else if v == 9 {
        '9'
    } else if v == 10 {
        'a'
    } else if v == 11 {
        'b'
    } else if v == 12 {
        'c'
    } else if v == 13 {
        'd'
    } else if v == 14 {
        'e'
    } else {
        'f'
    }
}

/// The lowercase hex form of a non-negative value, most significant
/// digit first, no leading zeros (`0` stands for zero).
pub open spec fn hex_chars(n: int) -> Seq<char>
    decreases n,
{
    if n < 16 {
        seq![hex_digit_char(n)]
    } else {
        hex_chars(n / 16).push(hex_digit_char(n % 16))
    }
}

/// The lowercase hex digit for a value below 16.
fn hex_digit_exec(v: u32) -> (r: char)
    requires
        v < 16,
    ensures
        r == hex_digit_char(v as int),
{
    if v == 0 {
        '0'
    } else if v == 1 {
        '1'
    } else if v == 2 {
        '2'
    } else if v == 3 {
        '3'
    } else if v == 4 {
        '4'
    } else if v == 5 {
        '5'
    } else if v == 6 {
        '6'
    } else if v == 7 {
        '7'
    } else if v == 8 {
        '8'
    } else if v == 9 {
        '9'
    } else if v == 10 {
        'a'
    } else if v == 11 {
        'b'
    } else if v == 12 {
        'c'
    } else if v == 13 {
        'd'
    } else if v == 14 {
        'e'
    } else {
        'f'
    }
}

/// Appends the hex form of `n` to `out`.
fn push_hex(out: &mut Vec<char>, n: u32)
    ensures
        final(out)@ == old(out)@ + hex_chars(n as int),
    decreases n,
{
    if n < 16 {
        out.push(hex_digit_exec(n));
    } else {
        push_hex(out, n / 16);
        out.push(hex_digit_exec(n % 16));
    }
}

/// A hex digit, either case.
pub open spec fn is_hex_digit(c: char) -> bool {
    (48 <= c as int && c as int <= 57) || (97 <= c as int && c as int <= 102) || (65 <= c as int
        && c as int <= 70)
}

/// The value of a hex digit.
pub open spec fn hex_digit_val(c: char) -> int {
    if 48 <= c as int && c as int <= 57 {
        c as int - 48
    } else if 97 <= c as int && c as int <= 102 {
        c as int - 97 + 10
    } else {
        c as int - 65 + 10
    }
}

/// The value of a hex digit string, most significant digit first.
pub open spec fn hex_val(s: Seq<char>) -> int
    decreases s.len(),
{
    if s.len() == 0 {
        0
    } else {
        hex_val(s.drop_last()) * 16 + hex_digit_val(s.last())
    }
}

/// Text that looks like a hex-encoded reference: a `0x` prefix, at
/// least one hex digit and nothing else, and a non-zero value.
pub open spec fn is_hex_ref(t: Seq<char>) -> bool {
    &&& t.len() > 2
    &&& t[0] == '0'
    &&& t[1] == 'x'
    &&& (forall|k: int| 2 <= k < t.len() ==> is_hex_digit(#[trigger] t[k]))
    &&& hex_val(t.skip(2)) != 0
}

/// Sixteen to the `n`.
pub open spec fn pow16(n: nat) -> int
    decreases n,
{
    if n == 0 {
        1
    } else {
        16 * pow16((n - 1) as nat)
    }
}

/// A hex digit string's value is below sixteen to its length.
proof fn lemma_hex_val_upper(s: Seq<char>)
    requires
        forall|k: int| 0 <= k < s.len() ==> is_hex_digit(#[trigger] s[k]),
    ensures
        0 <= hex_val(s) < pow16(s.len()),
    decreases s.len(),
{
    if s.len() == 0 {
    } else {
        assert forall|k: int| 0 <= k < s.drop_last().len() implies is_hex_digit(
            #[trigger] s.drop_last()[k],
        ) by {
            assert(s.drop_last()[k] == s[k]);
        }
        lemma_hex_val_upper(s.drop_last());
        assert(0 <= hex_digit_val(s.last()) < 16);
        assert(hex_val(s.drop_last()) * 16 <= (pow16(s.drop_last().len()) - 1) * 16)
            by (nonlinear_arith)
            requires
                hex_val(s.drop_last()) <= pow16(s.drop_last().len()) - 1,
        ;
        assert(hex_val(s.drop_last()) * 16 >= 0) by (nonlinear_arith)
            requires
                hex_val(s.drop_last()) >= 0,
        ;
    }
}

/// Leading zeros do not change a hex string's value.
proof fn lemma_hex_val_leading_zero(s: Seq<char>)
    requires
        s.len() > 0,
        s[0] == '0',
    ensures
        hex_val(s) == hex_val(s.drop_first()),
    decreases s.len(),
{
    if s.len() == 1 {
        assert(s.drop_last() =~= Seq::<char>::empty());
        assert(s.drop_first() =~= Seq::<char>::empty());
        assert(s.last() == s[0]);
        assert(hex_val(s.drop_last()) == 0);
        assert(hex_digit_val('0') == 0);
        assert(hex_val(s) == hex_val(s.drop_last()) * 16 + hex_digit_val(s.last()));
    } else {
        assert(s.drop_last()[0] == '0');
        lemma_hex_val_leading_zero(s.drop_last());
        assert(s.drop_last().drop_first() =~= s.drop_first().drop_last());
        assert(s.drop_first().last() == s.last());
    }
}

/// A hex string with a non-zero leading digit reaches sixteen to one
/// below its length.
proof fn lemma_hex_val_lower(s: Seq<char>)
    requires
        s.len() > 0,
        forall|k: int| 0 <= k < s.len() ==> is_hex_digit(#[trigger] s[k]),
        s[0] != '0',
    ensures
        hex_val(s) >= pow16((s.len() - 1) as nat),
    decreases s.len(),
{
    if s.len() == 1 {
        assert(s.drop_last() =~= Seq::<char>::empty());
        assert(s.last() == s[0]);
        assert(is_hex_digit(s[0]));
        assert(hex_val(s.drop_last()) == 0);
        let c = s[0];
        assert(c as int != 48);
        assert(hex_digit_val(c) >= 1);
        assert(hex_val(s) == hex_val(s.drop_last()) * 16 + hex_digit_val(s.last()));
        assert(pow16((s.len() - 1) as nat) == 1);
    } else {
        assert forall|k: int| 0 <= k < s.drop_last().len() implies is_hex_digit(
            #[trigger] s.drop_last()[k],
        ) by {
            assert(s.drop_last()[k] == s[k]);
        }
        assert(s.drop_last()[0] == s[0]);
        lemma_hex_val_lower(s.drop_last());
        assert(hex_val(s.drop_last()) * 16 >= pow16((s.len() - 2) as nat) * 16)
            by (nonlinear_arith)
            requires
                hex_val(s.drop_last()) >= pow16((s.len() - 2) as nat),
        ;
        assert(pow16((s.len() - 1) as nat) == 16 * pow16((s.len() - 2) as nat));
        assert(hex_digit_val(s.last()) >= 0);
    }
}

/// Dropping a prefix of zero digits does not change a hex string's
/// value.
proof fn lemma_hex_val_skip_zeros(s: Seq<char>, k: int)
    requires
        0 <= k <= s.len(),
        forall|j: int| 0 <= j < k ==> (#[trigger] s[j]) as int == 48,
    ensures
        hex_val(s) == hex_val(s.skip(k)),
    decreases k,
{
    if k == 0 {
        assert(s.skip(0) =~= s);
    } else {
        assert(s[0] == '0') by {
            if s[0] != '0' {
                assert(s[0] as int != 48);
            }
        }
        lemma_hex_val_leading_zero(s);
        assert forall|j: int| 0 <= j < k - 1 implies (#[trigger] s.drop_first()[j]) as int
            == 48 by {
            assert(s[j + 1] as int == 48);
        }
        lemma_hex_val_skip_zeros(s.drop_first(), k - 1);
        assert(s.drop_first().skip(k - 1) =~= s.skip(k));
    }
}

/// Sixteen to the `n` grows with `n`.
proof fn lemma_pow16_mono(a: nat, b: nat)
    requires
        a <= b,
    ensures
        pow16(a) <= pow16(b),
        pow16(a) >= 1,
    decreases b,
{
    if a == b {
        if a > 0 {
            lemma_pow16_mono((a - 1) as nat, (a - 1) as nat);
        }
    } else {
        lemma_pow16_mono(a, (b - 1) as nat);
    }
}

/// The concrete powers of sixteen that bound an eight-digit value.
proof fn lemma_pow16_values()
    ensures
        pow16(7) == 0x1000_0000,
        pow16(8) == 0x1_0000_0000,
{
    assert(pow16(0) == 1);
    assert(pow16(1) == 16);
    assert(pow16(2) == 256);
    assert(pow16(3) == 0x1000);
    assert(pow16(4) == 0x1_0000);
    assert(pow16(5) == 0x10_0000);
    assert(pow16(6) == 0x100_0000);
    assert(pow16(7) == 0x1000_0000);
    assert(pow16(8) == 0x1_0000_0000);
}

/// The code point of a character.
fn char_val(c: char) -> (r: u32)
    ensures
        r == c as int,
{
    c as u32
}

/// Decides whether text is a hex-encoded reference whose value fits a
/// 32-bit hash, and computes that value.
fn hex_ref_value(t: &Vec<char>) -> (r: Option<u32>)
    ensures
        match r {
            Some(v) => is_hex_ref(t@) && hex_val(t@.skip(2)) == v,
            None => !(is_hex_ref(t@) && hex_val(t@.skip(2)) <= u32::MAX),
        },
{
    let n = t.len();
    if n <= 2 {
        return None;
    }
    if !(char_val(t[0]) == 48 && char_val(t[1]) == 120) {
        proof {
            if t@[0] == '0' && t@[1] == 'x' {
                assert(t@[0] as int == 48 && t@[1] as int == 120);
            }
        }
        return None;
    }
    proof {
        assert(t@[0] == '0') by {
            if t@[0] != '0' {
                assert(t@[0] as int != 48);
            }
        }
        assert(t@[1] == 'x') by {
            if t@[1] != 'x' {
                assert(t@[1] as int != 120);
            }
        }
    }
    // every remaining character must be a hex digit
    let mut i: usize = 2;
    while i < n
        invariant
            2 <= i <= n,
            n == t@.len(),
            forall|k: int| 2 <= k < i ==> is_hex_digit(#[trigger] t@[k]),
        decreases n - i,
    {
        let v = char_val(t[i]);
        let ok = (48 <= v && v <= 57) || (97 <= v && v <= 102) || (65 <= v && v <= 70);
        if !ok {
            proof {
                assert(!is_hex_digit(t@[i as int]));
            }
            return None;
        }
        i = i + 1;
    }
    // skip the leading zero digits
    let mut z: usize = 2;
    while z < n && char_val(t[z]) == 48
        invariant
            2 <= z <= n,
            n == t@.len(),
            forall|k: int| 2 <= k < z ==> ((#[trigger] t@[k]) as int) == 48,
        decreases n - z,
    {
        z = z + 1;
    }
    proof {
        let digits = t@.skip(2);
        assert forall|j: int| 0 <= j < z - 2 implies ((#[trigger] digits[j]) as int) == 48 by {
            assert(t@[j + 2] as int == 48);
        }
        lemma_hex_val_skip_zeros(digits, z - 2);
        assert(digits.skip(z - 2) =~= t@.skip(z as int));
    }
    if z == n {
        // all digits are zero, so the value is zero: not a reference
        proof {
            assert(t@.skip(n as int) =~= Seq::<char>::empty());
            assert(hex_val(t@.skip(2)) == 0);
        }
        return None;
    }
    let ghost sig = t@.skip(z as int);
    proof {
        assert forall|k: int| 0 <= k < sig.len() implies is_hex_digit(#[trigger] sig[k]) by {
            assert(is_hex_digit(t@[z + k]));
        }
        assert(sig[0] == t@[z as int]);
        assert(sig[0] != '0') by {
            if sig[0] == '0' {
                assert(t@[z as int] as int == 48);
            }
        }
    }
    if n - z > 8 {
        // more than eight significant digits cannot fit a 32-bit value
        proof {
            lemma_hex_val_lower(sig);
            lemma_pow16_mono(8, (sig.len() - 1) as nat);
            lemma_pow16_values();
        }
        return None;
    }
    let mut acc: u32 = 0;
    let mut j: usize = z;
    proof {
        assert(t@.subrange(z as int, z as int) =~= Seq::<char>::empty());
        assert(pow16(0) == 1);
    }
    while j < n
        invariant
            z <= j <= n,
            n == t@.len(),
            n - z <= 8,
            2 <= z,
            forall|k: int| 2 <= k < n ==> is_hex_digit(#[trigger] t@[k]),
            acc == hex_val(t@.subrange(z as int, j as int)),
            acc < pow16((j - z) as nat),
        decreases n - j,
    {
        let v = char_val(t[j]);
        let d: u32 = if 48 <= v && v <= 57 {
            v - 48
        } else if 97 <= v && v <= 102 {
            v - 97 + 10
        } else {
            v - 65 + 10
        };
        proof {
            assert(is_hex_digit(t@[j as int]));
            assert(d == hex_digit_val(t@[j as int]));
            assert(d < 16);
            lemma_pow16_mono((j - z) as nat, 7);
            lemma_pow16_values();
            assert(acc * 16 + d < pow16((j - z) as nat) * 16) by (nonlinear_arith)
                requires
                    acc < pow16((j - z) as nat),
                    d < 16,
                    acc >= 0,
                    pow16((j - z) as nat) >= 1,
            ;
            assert(pow16((j - z) as nat) * 16 == pow16((j - z + 1) as nat)) by {
                assert(pow16((j - z + 1) as nat) == 16 * pow16((j - z) as nat));
            }
            assert(pow16((j - z) as nat) * 16 <= pow16(7) * 16) by (nonlinear_arith)
                requires
                    pow16((j - z) as nat) <= pow16(7),
            ;
            let prefix = t@.subrange(z as int, j as int);
            let grown = t@.subrange(z as int, j + 1);
            assert(grown.drop_last() =~= prefix);
            assert(grown.last() == t@[j as int]);
            assert(hex_val(grown) == hex_val(prefix) * 16 + hex_digit_val(t@[j as int]));
        }
        acc = acc * 16 + d;
        j = j + 1;
    }
    proof {
        lemma_pow16_mono(1, (n - z) as nat);
        assert(t@.subrange(z as int, n as int) =~= sig);
        lemma_hex_val_lower(sig);
        assert(acc == hex_val(t@.skip(2)));
        assert(acc >= 1);
        assert(is_hex_ref(t@));
    }
    Some(acc)
}

/// Whether every character of the text is ASCII.
fn all_ascii_exec(t: &Vec<char>) -> (r: bool)
    ensures
        r == all_ascii(t@),
{
    let n = t.len();
    let mut i: usize = 0;
    while i < n
        invariant
            0 <= i <= n,
            n == t@.len(),
            forall|k: int| 0 <= k < i ==> ((#[trigger] t@[k]) as int) < 128,
        decreases n - i,
    {
        if char_val(t[i]) >= 128 {
            proof {
                assert(t@[i as int] as int >= 128);
            }
            return false;
        }
        i = i + 1;
    }
    true
}

/// Relies on `String`'s `FromIterator` implementation: collects the
/// characters into a string holding exactly them.
#[verifier::external_body]
fn string_from_chars(cs: &Vec<char>) -> (r: String)
    ensures
        r@ == cs@,
{
    cs.iter().collect()
}

/// The `id` attribute carrying an unknown tag hash in hex.
pub open spec fn attr_id(hash: u32) -> Seq<char> {
    seq![' ', 'i', 'd', '=', '"', '0', 'x'] + hex_chars(hash as int) + seq!['"']
}

/// The `str` attribute carrying a resolved hex-reference name.
pub open spec fn attr_str(value: Seq<char>) -> Seq<char> {
    seq![' ', 's', 't', 'r', '=', '"'] + escape(value) + seq!['"']
}

/// The `eng` attribute carrying a translated phrase.
pub open spec fn attr_eng(value: Seq<char>) -> Seq<char> {
    seq![' ', 'e', 'n', 'g', '=', '"'] + escape(value) + seq!['"']
}

/// The name a node's text points at, when the text is a hex-encoded
/// reference whose value fits a 32-bit hash and resolves through the
/// symbol tables.
pub open spec fn hex_ref_target(tags: Seq<(u32, Seq<char>)>, t: Seq<char>) -> Option<Seq<char>> {
    if is_hex_ref(t) && hex_val(t.skip(2)) <= u32::MAX {
        spec_resolve_hash(tags, hex_val(t.skip(2)) as u32)
    } else {
        None
    }
}

/// The annotation attributes of a node: the raw hash when its tag is
/// unknown; then either the resolved hex-reference name, or, for
/// non-ASCII text, its translation when one exists.
pub open spec fn node_attrs(n: NodeView, tv: TablesView) -> Seq<char> {
    let id_part = if spec_resolve_hash(tv.tags, n.hash) is None {
        attr_id(n.hash)
    } else {
        Seq::<char>::empty()
    };
    let text_part = match n.text {
        Option::Some(t) => match hex_ref_target(tv.tags, t) {
            Option::Some(nm) => attr_str(nm),
            Option::None => match spec_translate(tv.phrases, t) {
                Option::Some(tr) => if !all_ascii(t) {
                    attr_eng(tr)
                } else {
                    Seq::<char>::empty()
                },
                Option::None => Seq::<char>::empty(),
            },
        },
        Option::None => Seq::<char>::empty(),
    };
    id_part + text_part
}

/// The opening of a node's element: a pending line break and indent
/// when one is due, the tag with its annotation attributes, and the
/// (quote-normalized, escaped) text content.
pub open spec fn render_head(n: NodeView, tv: TablesView, depth: int, lb: bool) -> Seq<char> {
    (if lb {
        seq!['\n'] + tabs(depth)
    } else {
        Seq::<char>::empty()
    }) + seq!['<'] + n.tag + node_attrs(n, tv) + seq!['>'] + (match n.text {
        Option::Some(t) => escape(rewrite_quotes(t)),
        Option::None => Seq::<char>::empty(),
    })
}

/// Whether a line break is pending after a node's opening: text
/// content keeps the closing tag on the same line.
pub open spec fn head_lb(n: NodeView) -> bool {
    n.text is None
}

/// The closing of a node's element.
pub open spec fn render_close(n: NodeView, depth: int, lb: bool) -> Seq<char> {
    (if lb {
        seq!['\n'] + tabs(depth)
    } else {
        Seq::<char>::empty()
    }) + seq!['<', '/'] + n.tag + seq!['>']
}

/// A node's element: its opening, its children one level deeper, and
/// its closing. The second component is the pretty-printer's pending
/// line break, carried across siblings.
pub open spec fn render_node(n: NodeView, tv: TablesView, depth: int, lb: bool) -> (Seq<char>, bool)
    decreases n,
{
    let kids = render_forest(n.children, tv, depth + 1, head_lb(n));
    (render_head(n, tv, depth, lb) + kids.0 + render_close(n, depth, kids.1), true)
}

/// A forest's elements, in order, threading the pending line break.
pub open spec fn render_forest(ns: Seq<NodeView>, tv: TablesView, depth: int, lb: bool) -> (
    Seq<char>,
    bool,
)
    decreases ns,
{
    if ns.len() == 0 {
        (Seq::<char>::empty(), lb)
    } else {
        let h = render_node(ns[0], tv, depth, lb);
        let t = render_forest(ns.drop_first(), tv, depth, h.1);
        (h.0 + t.0, t.1)
    }
}

/// The whole markup document: a synthetic `root` element wrapping the
/// top-level siblings.
pub open spec fn render_doc(roots: Seq<NodeView>, tv: TablesView) -> Seq<char> {
    let body = render_forest(roots, tv, 1, true);
    seq!['<', 'r', 'o', 'o', 't', '>'] + body.0 + (if body.1 {
        seq!['\n']
    } else {
        Seq::<char>::empty()
    }) + seq!['<', '/', 'r', 'o', 'o', 't', '>']
}

/// Writes a node's annotation attributes.
fn write_attrs(out: &mut Vec<char>, n: &YaxNode, tables: &SymbolTables)
    ensures
        final(out)@ == old(out)@ + node_attrs(n@, tables@),
{
    let ghost nv = n@;
    let ghost tv = tables@;
    let unresolved = match tables.resolve_tag(n.tag_name_hash) {
        Some(_) => false,
        None => true,
    };
    if unresolved {
        out.push(' ');
        out.push('i');
        out.push('d');
        out.push('=');
        out.push('"');
        out.push('0');
        out.push('x');
        push_hex(out, n.tag_name_hash);
        out.push('"');
        proof {
            assert(out@ =~= old(out)@ + attr_id(nv.hash));
        }
    }
    let ghost after_id = out@;
    proof {
        assert(after_id == old(out)@ + (if spec_resolve_hash(tv.tags, nv.hash) is None {
            attr_id(nv.hash)
        } else {
            Seq::<char>::empty()
        })) by {
            if !unresolved {
                assert(after_id =~= old(out)@ + Seq::<char>::empty());
            }
        }
    }
    match &n.text {
        Some(t) => {
            proof {
                assert(nv.text == Some(t@));
            }
            let tchars = str_chars(t.as_str());
            let mut done: bool = false;
            match hex_ref_value(&tchars) {
                Some(v) => {
                    match tables.resolve_tag(v) {
                        Some(nm) => {
                            out.push(' ');
                            out.push('s');
                            out.push('t');
                            out.push('r');
                            out.push('=');
                            out.push('"');
                            let nmchars = str_chars(nm.as_str());
                            push_escaped(out, &nmchars);
                            out.push('"');
                            done = true;
                            proof {
                                assert(hex_ref_target(tv.tags, t@) == Some(nm@));
                                assert(out@ =~= after_id + attr_str(nm@));
                            }
                        },
                        None => {
                            proof {
                                assert(hex_ref_target(tv.tags, t@) is None);
                            }
                        },
                    }
                },
                None => {
                    proof {
                        assert(hex_ref_target(tv.tags, t@) is None);
                    }
                },
            }
            if !done {
                if !all_ascii_exec(&tchars) {
                    match tables.translate(t) {
                        Some(tr) => {
                            out.push(' ');
                            out.push('e');
                            out.push('n');
                            out.push('g');
                            out.push('=');
                            out.push('"');
                            let trchars = str_chars(tr.as_str());
                            push_escaped(out, &trchars);
                            out.push('"');
                            proof {
                                assert(out@ =~= after_id + attr_eng(tr@));
                            }
                        },
                        None => {
                            proof {
                                assert(out@ =~= after_id + Seq::<char>::empty());
                            }
                        },
                    }
                } else {
                    proof {
                        assert(out@ =~= after_id + Seq::<char>::empty());
                    }
                }
            }
            proof {
                assert(out@ == old(out)@ + node_attrs(nv, tv));
            }
        },
        None => {
            proof {
                assert(nv.text is None);
                assert(out@ =~= after_id + Seq::<char>::empty());
                assert(out@ == old(out)@ + node_attrs(nv, tv));
            }
        },
    }
}

/// Writes a node's opening: pending break, tag, attributes, text.
fn write_head(out: &mut Vec<char>, n: &YaxNode, tables: &SymbolTables, depth: usize, lb: bool)
    requires
        depth <= 256,
    ensures
        final(out)@ == old(out)@ + render_head(n@, tables@, depth as int, lb),
{
    let ghost nv = n@;
    let ghost tv = tables@;
    if lb {
        out.push('\n');
        push_tabs(out, depth);
        proof {
            assert(out@ =~= old(out)@ + (seq!['\n'] + tabs(depth as int)));
        }
    }
    let ghost after_break = out@;
    proof {
        assert(after_break == old(out)@ + (if lb {
            seq!['\n'] + tabs(depth as int)
        } else {
            Seq::<char>::empty()
        })) by {
            if !lb {
                assert(after_break =~= old(out)@ + Seq::<char>::empty());
            }
        }
    }
    out.push('<');
    push_str_chars(out, n.tag_name.as_str());
    let ghost after_tag = out@;
    proof {
        assert(after_tag =~= after_break + (seq!['<'] + nv.tag));
    }
    write_attrs(out, n, tables);
    out.push('>');
    let ghost after_open = out@;
    proof {
        assert(after_open =~= after_tag + (node_attrs(nv, tv) + seq!['>']));
    }
    match &n.text {
        Some(t) => {
            let tchars = str_chars(t.as_str());
            let rw = rewrite_quotes_exec(&tchars);
            push_escaped(out, &rw);
            proof {
                assert(nv.text == Some(t@));
                assert(out@ == after_open + escape(rewrite_quotes(t@)));
            }
        },
        None => {
            proof {
                assert(nv.text is None);
            }
        },
    }
    proof {
        assert(out@ =~= old(out)@ + render_head(nv, tv, depth as int, lb));
    }
}

/// Writes a node's closing tag, with its pending break.
fn write_close(out: &mut Vec<char>, n: &YaxNode, depth: usize, lb: bool)
    requires
        depth <= 256,
    ensures
        final(out)@ == old(out)@ + render_close(n@, depth as int, lb),
{
    let ghost nv = n@;
    if lb {
        out.push('\n');
        push_tabs(out, depth);
        proof {
            assert(out@ =~= old(out)@ + (seq!['\n'] + tabs(depth as int)));
        }
    }
    let ghost after_break = out@;
    proof {
        assert(after_break == old(out)@ + (if lb {
            seq!['\n'] + tabs(depth as int)
        } else {
            Seq::<char>::empty()
        })) by {
            if !lb {
                assert(after_break =~= old(out)@ + Seq::<char>::empty());
            }
        }
    }
    out.push('<');
    out.push('/');
    push_str_chars(out, n.tag_name.as_str());
    out.push('>');
    proof {
        assert(out@ =~= after_break + (seq!['<', '/'] + nv.tag + seq!['>']));
        assert(out@ =~= old(out)@ + render_close(nv, depth as int, lb));
    }
}

/// Writes one node's element at `depth`, with `lb` saying whether a
/// line break is pending.
fn write_node(out: &mut Vec<char>, n: &YaxNode, tables: &SymbolTables, depth: usize, lb: bool) -> (r:
    bool)
    requires
        1 <= depth <= 256,
        n@.ind as int == depth - 1,
        wf_forest(n@.children, depth as int),
    ensures
        final(out)@ == old(out)@ + render_node(n@, tables@, depth as int, lb).0,
        r == render_node(n@, tables@, depth as int, lb).1,
    decreases *n,
{
    let ghost nv = n@;
    let ghost tv = tables@;
    write_head(out, n, tables, depth, lb);
    let ghost after_head = out@;
    let mut lbcur: bool = true;
    match &n.text {
        Some(_) => {
            lbcur = false;
        },
        None => {},
    }
    proof {
        assert(lbcur == head_lb(nv));
    }
    let lb2 = write_forest(out, &n.children, tables, depth + 1, lbcur);
    proof {
        assert(nv.children == forest_view(n.children@));
        assert(out@ == after_head + render_forest(nv.children, tv, depth + 1, head_lb(nv)).0);
    }
    let ghost after_kids = out@;
    write_close(out, n, depth, lb2);
    proof {
        assert(lb2 == render_forest(nv.children, tv, depth + 1, head_lb(nv)).1);
        assert(out@ =~= old(out)@ + render_node(nv, tv, depth as int, lb).0);
    }
    true
}

/// Writes a forest of sibling elements at `depth`.
fn write_forest(
    out: &mut Vec<char>,
    nodes: &Vec<YaxNode>,
    tables: &SymbolTables,
    depth: usize,
    lb: bool,
) -> (r: bool)
    requires
        1 <= depth,
        wf_forest(forest_view(nodes@), depth - 1),
    ensures
        final(out)@ == old(out)@ + render_forest(forest_view(nodes@), tables@, depth as int, lb).0,
        r == render_forest(forest_view(nodes@), tables@, depth as int, lb).1,
    decreases *nodes,
{
    let ghost fv = forest_view(nodes@);
    let ghost tv = tables@;
    let m = nodes.len();
    let mut lbcur = lb;
    let mut k: usize = 0;
    proof {
        lemma_forest_view_len(nodes@);
        assert(fv.skip(0) =~= fv);
    }
    while k < m
        invariant
            0 <= k <= m,
            m == nodes@.len(),
            fv == forest_view(nodes@),
            tv == tables@,
            1 <= depth,
            fv.len() == m,
            wf_forest(fv.skip(k as int), depth - 1),
            out@ + render_forest(fv.skip(k as int), tv, depth as int, lbcur).0 == old(out)@
                + render_forest(fv, tv, depth as int, lb).0,
            render_forest(fv.skip(k as int), tv, depth as int, lbcur).1 == render_forest(
                fv,
                tv,
                depth as int,
                lb,
            ).1,
        decreases m - k,
    {
        proof {
            lemma_forest_view_index(nodes@, k as int);
            assert(fv.skip(k as int)[0] == fv[k as int]);
            assert(fv.skip(k as int).drop_first() =~= fv.skip(k + 1));
            assert(fv[k as int].ind == depth - 1);
            assert(wf_forest(fv[k as int].children, depth as int));
        }
        let ghost before = out@;
        let lbn = write_node(out, &nodes[k], tables, depth, lbcur);
        proof {
            let h = render_node(fv[k as int], tv, depth as int, lbcur);
            let t = render_forest(fv.skip(k + 1), tv, depth as int, h.1);
            assert(render_forest(fv.skip(k as int), tv, depth as int, lbcur).0 == h.0 + t.0);
            assert((before + h.0) + t.0 =~= before + (h.0 + t.0));
        }
        lbcur = lbn;
        k = k + 1;
    }
    proof {
        assert(fv.skip(m as int) =~= Seq::<NodeView>::empty());
        assert(render_forest(fv.skip(m as int), tv, depth as int, lbcur).0 =~= Seq::<char>::empty());
        assert(out@ =~= out@ + Seq::<char>::empty());
    }
    lbcur
}

/// The rendered document is pinned by the record stream: two
/// well-formed forests with the same records render the same document,
/// because the records determine the forest uniquely.
pub proof fn lemma_document_unique(rs1: Seq<NodeView>, rs2: Seq<NodeView>, tv: TablesView)
    requires
        wf_forest(rs1, 0),
        wf_forest(rs2, 0),
        flatten_forest(rs1) == flatten_forest(rs2),
    ensures
        render_doc(rs1, tv) == render_doc(rs2, tv),
{
    crate::yax::lemma_reconstruction_unique(rs1, rs2, 0);
}

/// Decodes a binary tree buffer and serializes it as a structured
/// markup document: a `root` element wrapping the reconstructed
/// top-level siblings, tags resolved through the symbol tables, text
/// from the trailing string table, and the annotation attributes of
/// this module. The document is pinned by the reconstructed forest,
/// which the records determine uniquely
/// (`crate::yax::lemma_reconstruction_unique`).
pub fn yax_to_xml(data: &Vec<u8>, tables: &SymbolTables) -> (r: Result<String, DecodeError>)
    ensures
        match r {
            Ok(s) => {
                &&& yax_ok(data@, tables@.tags)
                &&& exists|rs: Seq<NodeView>|
                    {
                        &&& #[trigger] flatten_forest(rs) == yax_records(data@, tables@.tags)
                        &&& wf_forest(rs, 0)
                        &&& s@ == render_doc(rs, tables@)
                    }
            },
            Err(e) => {
                &&& !yax_ok(data@, tables@.tags)
                &&& (e == DecodeError::OutOfBounds || e == DecodeError::LevelSkip)
                &&& (e == DecodeError::OutOfBounds <==> !yax_bounds_ok(data@))
                &&& (e == DecodeError::LevelSkip <==> (yax_bounds_ok(data@) && !levels_ok(
                    yax_records(data@, tables@.tags),
                )))
            },
        },
{
    let records = match parse_yax_records(data, tables) {
        Ok(r) => r,
        Err(e) => {
            return Err(e);
        },
    };
    let roots = match build_tree(&records) {
        Ok(r) => r,
        Err(e) => {
            return Err(e);
        },
    };
    let mut out: Vec<char> = Vec::new();
    out.push('<');
    out.push('r');
    out.push('o');
    out.push('o');
    out.push('t');
    out.push('>');
    proof {
        assert(out@ =~= seq!['<', 'r', 'o', 'o', 't', '>']);
    }
    let ghost open_part = out@;
    let lb2 = write_forest(&mut out, &roots, tables, 1, true);
    let ghost after_body = out@;
    if lb2 {
        out.push('\n');
    }
    out.push('<');
    out.push('/');
    out.push('r');
    out.push('o');
    out.push('o');
    out.push('t');
    out.push('>');
    let s = string_from_chars(&out);
    proof {
        let w = forest_view(roots@);
        let body = render_forest(w, tables@, 1, true);
        assert(after_body == open_part + body.0);
        assert(lb2 == body.1);
        assert(out@ =~= render_doc(w, tables@));
        assert(flatten_forest(w) == yax_records(data@, tables@.tags));
        assert(wf_forest(w, 0));
        assert(s@ == render_doc(w, tables@));
    }
    Ok(s)
}

} // verus!
