//! Immutable lookup tables used to annotate decoded output: a 32-bit-hash
//! to tag-name table and a source-language to target-language phrase
//! table. Both are built once, then queried read-only; lookups are exact,
//! with no fuzzy matching and no case normalization.

use vstd::prelude::*;

verus! {

/// First-match lookup in an association list of hash/name pairs.
pub open spec fn spec_resolve_hash(entries: Seq<(u32, Seq<char>)>, hash: u32) -> Option<Seq<char>>
    decreases entries.len(),
{
    if entries.len() == 0 {
        None
    } else if entries[0].0 == hash {
        Some(entries[0].1)
    } else {
        spec_resolve_hash(entries.drop_first(), hash)
    }
}

/// First-match lookup in an association list of phrase pairs.
pub open spec fn spec_translate(entries: Seq<(Seq<char>, Seq<char>)>, phrase: Seq<char>) -> Option<
    Seq<char>,
>
    decreases entries.len(),
{
    if entries.len() == 0 {
        None
    } else if entries[0].0 == phrase {
        Some(entries[0].1)
    } else {
        spec_translate(entries.drop_first(), phrase)
    }
}

/// The mathematical content of a `SymbolTables` value: its two
/// association lists, with strings abstracted to character sequences.
pub struct TablesView {
    pub tags: Seq<(u32, Seq<char>)>,
    pub phrases: Seq<(Seq<char>, Seq<char>)>,
}

/// The two lookup tables, loaded once at startup and passed by shared
/// reference into the decoders. The tables' construction and storage
/// format are the caller's concern; this type only holds and queries
/// their contents.
#[derive(Debug)]
pub struct SymbolTables {
    pub tag_names: Vec<(u32, String)>,
    pub translations: Vec<(String, String)>,
}

impl View for SymbolTables {
    type V = TablesView;

    open spec fn view(&self) -> TablesView {
        TablesView {
            tags: self.tag_names@.map_values(|e: (u32, String)| (e.0, e.1@)),
            phrases: self.translations@.map_values(|e: (String, String)| (e.0@, e.1@)),
        }
    }
}

impl SymbolTables {
    /// Builds the tables from their entry lists.
    pub fn new(tag_names: Vec<(u32, String)>, translations: Vec<(String, String)>) -> (r: Self)
        ensures
            r.tag_names == tag_names,
            r.translations == translations,
    {
        SymbolTables { tag_names, translations }
    }

    /// Exact lookup of a tag-name hash; `None` means the hash is unknown
    /// and the caller substitutes the `UNKNOWN` sentinel.
    pub fn resolve_tag(&self, hash: u32) -> (r: Option<&String>)
        ensures
            match r {
                Some(s) => spec_resolve_hash(self@.tags, hash) == Some(s@),
                None => spec_resolve_hash(self@.tags, hash) is None,
            },
    {
        let n = self.tag_names.len();
        let mut i: usize = 0;
        proof {
            assert(self@.tags.skip(0) =~= self@.tags);
        }
        while i < n
            invariant
                0 <= i <= n,
                n == self.tag_names@.len(),
                spec_resolve_hash(self@.tags, hash) == spec_resolve_hash(
                    self@.tags.skip(i as int),
                    hash,
                ),
            decreases n - i,
        {
            proof {
                assert(self@.tags.skip(i as int)[0] == self@.tags[i as int]);
                assert(self@.tags.skip(i as int).drop_first() =~= self@.tags.skip(i + 1));
            }
            if self.tag_names[i].0 == hash {
                return Some(&self.tag_names[i].1);
            }
            i = i + 1;
        }
        proof {
            assert(self@.tags.skip(n as int) =~= Seq::<(u32, Seq<char>)>::empty());
        }
        None
    }

    /// Exact lookup of a whole phrase (not of substrings); `None` means
    /// the phrase has no recorded translation.
    pub fn translate(&self, phrase: &String) -> (r: Option<&String>)
        ensures
            match r {
                Some(s) => spec_translate(self@.phrases, phrase@) == Some(s@),
                None => spec_translate(self@.phrases, phrase@) is None,
            },
    {
        let n = self.translations.len();
        let mut i: usize = 0;
        proof {
            assert(self@.phrases.skip(0) =~= self@.phrases);
        }
        while i < n
            invariant
                0 <= i <= n,
                n == self.translations@.len(),
                spec_translate(self@.phrases, phrase@) == spec_translate(
                    self@.phrases.skip(i as int),
                    phrase@,
                ),
            decreases n - i,
        {
            proof {
                assert(self@.phrases.skip(i as int)[0] == self@.phrases[i as int]);
                assert(self@.phrases.skip(i as int).drop_first() =~= self@.phrases.skip(i + 1));
            }
            if self.translations[i].0.eq(phrase) {
                return Some(&self.translations[i].1);
            }
            i = i + 1;
        }
        proof {
            assert(self@.phrases.skip(n as int) =~= Seq::<(Seq<char>, Seq<char>)>::empty());
        }
        None
    }
}

/// Resolves a tag-name hash against the hash-to-name table.
pub fn hash_to_string_map<'a>(tables: &'a SymbolTables, hash: u32) -> (r: Option<&'a String>)
    ensures
        match r {
            Some(s) => spec_resolve_hash(tables@.tags, hash) == Some(s@),
            None => spec_resolve_hash(tables@.tags, hash) is None,
        },
{
    tables.resolve_tag(hash)
}

/// The tables are immutable after construction, so resolution is stable:
/// any two lookups of the same hash against the same table agree. This is
/// immediate from the lookups' contracts, which pin each result to
/// `spec_resolve_hash`.
pub proof fn lemma_resolution_stable(
    t: TablesView,
    hash: u32,
    r1: Option<Seq<char>>,
    r2: Option<Seq<char>>,
)
    requires
        r1 == spec_resolve_hash(t.tags, hash),
        r2 == spec_resolve_hash(t.tags, hash),
    ensures
        r1 == r2,
{
}

} // verus!
