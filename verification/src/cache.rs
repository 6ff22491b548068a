//! The cache of lint results.
//!
//! An entry records, for one file, the fingerprint under which its findings
//! were made: the hash of the content, the hash of the configuration and
//! the version of every loaded rule.  The findings may be used again as
//! long as the fingerprint is the same.

use crate::diagnostic::Diagnostic;
use crate::hash::{hash_text, is_digest, text_hash};
use crate::order::{compare, Order};
use crate::table::{
    lemma_lookup_some, lemma_pair_lookup, lookup, opt_text, pair_lookup, pair_texts, SortedTable,
    Table,
};
use vstd::prelude::*;
use vstd::string::*;

verus! {

/// Two lists give every rule the same version: the same names, and under
/// each name the same text.  The order of the entries does not count.
pub open spec fn same_versions(
    a: Seq<(Seq<char>, Seq<char>)>,
    b: Seq<(Seq<char>, Seq<char>)>,
) -> bool {
    forall|name: Seq<char>| pair_lookup(a, name) == pair_lookup(b, name)
}

/// What the cache holds for one file.
#[derive(Debug)]
pub struct CacheEntry {
    pub content_hash: String,
    pub config_hash: String,
    /// The version of every rule under its name.
    pub rule_versions: Table<String>,
    pub diagnostics: Vec<Diagnostic>,
    /// When the entry was made, in seconds since the epoch.
    pub timestamp: u64,
}

impl CacheEntry {
    pub fn new(
        content_hash: String,
        config_hash: String,
        rule_versions: Table<String>,
        diagnostics: Vec<Diagnostic>,
        timestamp: u64,
    ) -> (e: CacheEntry)
        ensures
            e.content_hash == content_hash,
            e.config_hash == config_hash,
            e.rule_versions == rule_versions,
            e.diagnostics == diagnostics,
            e.timestamp == timestamp,
    {
        CacheEntry { content_hash, config_hash, rule_versions, diagnostics, timestamp }
    }

    /// The entry was made under this fingerprint.
    pub open spec fn matches(
        &self,
        content_hash: Seq<char>,
        config_hash: Seq<char>,
        rule_versions: Seq<(Seq<char>, Seq<char>)>,
    ) -> bool {
        &&& self.content_hash@ == content_hash
        &&& self.config_hash@ == config_hash
        &&& same_versions(pair_texts(self.rule_versions.pairs_spec()), rule_versions)
    }
}

/// An entry matches at most one fingerprint: where it matches two, they
/// have the same content hash, the same configuration hash and the same
/// rule versions.
pub proof fn lemma_one_fingerprint(
    entry: CacheEntry,
    content_hash: Seq<char>,
    config_hash: Seq<char>,
    rule_versions: Seq<(Seq<char>, Seq<char>)>,
    other_content_hash: Seq<char>,
    other_config_hash: Seq<char>,
    other_rule_versions: Seq<(Seq<char>, Seq<char>)>,
)
    requires
        entry.matches(content_hash, config_hash, rule_versions),
        entry.matches(other_content_hash, other_config_hash, other_rule_versions),
    ensures
        content_hash == other_content_hash,
        config_hash == other_config_hash,
        same_versions(rule_versions, other_rule_versions),
{
    let own = pair_texts(entry.rule_versions.pairs_spec());
    assert forall|name: Seq<char>| pair_lookup(rule_versions, name) == pair_lookup(
        other_rule_versions,
        name,
    ) by {
        assert(pair_lookup(own, name) == pair_lookup(rule_versions, name));
        assert(pair_lookup(own, name) == pair_lookup(other_rule_versions, name));
    }
}

/// Whether `b` gives the rule of every entry of `a` the version that `a`
/// gives it.
pub fn covers(a: &Table<String>, b: &Table<String>) -> (r: bool)
    ensures
        r == forall|i: int|
            0 <= i < a.pairs_spec().len() ==> opt_text(lookup(a.pairs_spec(), (#[trigger] a.pairs_spec()[i]).0@))
                == opt_text(lookup(b.pairs_spec(), a.pairs_spec()[i].0@)),
{
    let mut i: usize = 0;
    while i < a.len()
        invariant
            i <= a.pairs_spec().len(),
            forall|j: int|
                0 <= j < i ==> opt_text(lookup(a.pairs_spec(), (#[trigger] a.pairs_spec()[j]).0@))
                    == opt_text(lookup(b.pairs_spec(), a.pairs_spec()[j].0@)),
        decreases a.pairs_spec().len() - i,
    {
        let name = a.pairs()[i].0.as_str();
        let same = match (a.get(name), b.get(name)) {
            (Some(x), Some(y)) => compare(x.as_str(), y.as_str()) == Order::Equal,
            (None, None) => true,
            _ => false,
        };
        if !same {
            return false;
        }
        i += 1;
    }
    true
}

/// Whether two tables give every rule the same version.
pub fn versions_equal(a: &Table<String>, b: &Table<String>) -> (r: bool)
    ensures
        r == same_versions(pair_texts(a.pairs_spec()), pair_texts(b.pairs_spec())),
{
    let forth = covers(a, b);
    let back = covers(b, a);
    proof {
        if forth && back {
            assert forall|name: Seq<char>| pair_lookup(pair_texts(a.pairs_spec()), name)
                == pair_lookup(pair_texts(b.pairs_spec()), name) by {
                lemma_pair_lookup(a.pairs_spec(), name);
                lemma_pair_lookup(b.pairs_spec(), name);
                if lookup(a.pairs_spec(), name) is Some {
                    let i = lemma_lookup_some(a.pairs_spec(), name);
                    assert(a.pairs_spec()[i].0@ == name);
                } else if lookup(b.pairs_spec(), name) is Some {
                    let i = lemma_lookup_some(b.pairs_spec(), name);
                    assert(b.pairs_spec()[i].0@ == name);
                }
            }
        } else if !forth {
            let i = choose|i: int|
                0 <= i < a.pairs_spec().len() && opt_text(
                    lookup(a.pairs_spec(), (#[trigger] a.pairs_spec()[i]).0@),
                ) != opt_text(lookup(b.pairs_spec(), a.pairs_spec()[i].0@));
            lemma_pair_lookup(a.pairs_spec(), a.pairs_spec()[i].0@);
            lemma_pair_lookup(b.pairs_spec(), a.pairs_spec()[i].0@);
        } else {
            let i = choose|i: int|
                0 <= i < b.pairs_spec().len() && opt_text(
                    lookup(b.pairs_spec(), (#[trigger] b.pairs_spec()[i]).0@),
                ) != opt_text(lookup(a.pairs_spec(), b.pairs_spec()[i].0@));
            lemma_pair_lookup(a.pairs_spec(), b.pairs_spec()[i].0@);
            lemma_pair_lookup(b.pairs_spec(), b.pairs_spec()[i].0@);
        }
    }
    forth && back
}

/// The tag that opens a cache file of the present layout.
pub open spec fn version_tag() -> Seq<u8> {
    seq![
        0x74u8, 0x65u8, 0x78u8, 0x69u8, 0x64u8, 0x65u8, 0x2Du8, 0x63u8, 0x61u8, 0x63u8, 0x68u8,
        0x65u8, 0x2Fu8, 0x31u8, 0x0Au8,
    ]
}

/// A cache file: the version tag, then the serialized entries.
pub open spec fn framed(payload: Seq<u8>) -> Seq<u8> {
    version_tag() + payload
}

/// The serialized entries of a cache file; `None` where the file does not
/// open with the version tag.
pub open spec fn payload_of(file: Seq<u8>) -> Option<Seq<u8>> {
    if file.len() >= version_tag().len() && file.subrange(0, version_tag().len() as int)
        == version_tag() {
        Some(file.subrange(version_tag().len() as int, file.len() as int))
    } else {
        None
    }
}

/// The cache of lint results, keyed by file path.
#[derive(Debug)]
pub struct CacheManager {
    /// The directory under which the cache is kept.
    pub cache_dir: String,
    pub enabled: bool,
    /// The entries under the paths of their files, in the order of the
    /// paths.
    pub entries: SortedTable<CacheEntry>,
}

impl CacheManager {
    /// An empty cache, switched on.
    pub fn new(cache_dir: String) -> (cache: CacheManager)
        ensures
            cache.cache_dir == cache_dir,
            cache.enabled,
            cache.entries.pairs_spec().len() == 0,
            forall|path: Seq<char>| cache.entries.get_spec(path) is None,
    {
        CacheManager { cache_dir, enabled: true, entries: SortedTable::new() }
    }

    pub fn enable(&mut self)
        ensures
            final(self).enabled,
            final(self).entries == old(self).entries,
            final(self).cache_dir == old(self).cache_dir,
    {
        self.enabled = true;
    }

    pub fn disable(&mut self)
        ensures
            !final(self).enabled,
            final(self).entries == old(self).entries,
            final(self).cache_dir == old(self).cache_dir,
    {
        self.enabled = false;
    }

    pub fn is_enabled(&self) -> (b: bool)
        ensures
            b == self.enabled,
    {
        self.enabled
    }

    /// The hash of a file's content.
    pub fn hash_content(content: &str) -> (hash: String)
        ensures
            hash@ == text_hash(content@),
            is_digest(hash@),
    {
        hash_text(content)
    }

    /// The result for `path` may be used again under this fingerprint: the
    /// cache is switched on, it holds an entry for the path, and the entry
    /// was made under the same content hash, the same configuration hash
    /// and the same rule versions.
    pub open spec fn valid(
        &self,
        path: Seq<char>,
        content_hash: Seq<char>,
        config_hash: Seq<char>,
        rule_versions: Seq<(Seq<char>, Seq<char>)>,
    ) -> bool {
        self.enabled && match self.entries.get_spec(path) {
            Some(entry) => entry.matches(content_hash, config_hash, rule_versions),
            None => false,
        }
    }

    /// A result stays valid as long as the fingerprint stays: a cache that
    /// is on and holds an entry made under a fingerprint is valid for the
    /// entry's path under that fingerprint.
    pub proof fn lemma_unchanged_is_valid(
        &self,
        path: Seq<char>,
        entry: CacheEntry,
        content_hash: Seq<char>,
        config_hash: Seq<char>,
        rule_versions: Seq<(Seq<char>, Seq<char>)>,
    )
        requires
            self.enabled,
            self.entries.get_spec(path) == Some(entry),
            entry.matches(content_hash, config_hash, rule_versions),
        ensures
            self.valid(path, content_hash, config_hash, rule_versions),
    {
    }

    /// Any change of the fingerprint invalidates: where the entry for a
    /// path was made under one fingerprint, the cache is not valid for the
    /// path under a fingerprint with another content hash, another
    /// configuration hash, or rule versions that differ in a name or in a
    /// version.
    pub proof fn lemma_changed_is_invalid(
        &self,
        path: Seq<char>,
        entry: CacheEntry,
        content_hash: Seq<char>,
        config_hash: Seq<char>,
        rule_versions: Seq<(Seq<char>, Seq<char>)>,
        new_content_hash: Seq<char>,
        new_config_hash: Seq<char>,
        new_rule_versions: Seq<(Seq<char>, Seq<char>)>,
    )
        requires
            self.entries.get_spec(path) == Some(entry),
            entry.matches(content_hash, config_hash, rule_versions),
            new_content_hash != content_hash || new_config_hash != config_hash || !same_versions(
                rule_versions,
                new_rule_versions,
            ),
        ensures
            !self.valid(path, new_content_hash, new_config_hash, new_rule_versions),
    {
        if self.valid(path, new_content_hash, new_config_hash, new_rule_versions) {
            lemma_one_fingerprint(
                entry,
                content_hash,
                config_hash,
                rule_versions,
                new_content_hash,
                new_config_hash,
                new_rule_versions,
            );
        }
    }

    /// Whether the result for `path` may be used again.
    pub fn is_valid(
        &self,
        path: &str,
        content_hash: &str,
        config_hash: &str,
        rule_versions: &Table<String>,
    ) -> (b: bool)
        ensures
            b == self.valid(
                path@,
                content_hash@,
                config_hash@,
                pair_texts(rule_versions.pairs_spec()),
            ),
    {
        if !self.enabled {
            return false;
        }
        match self.entries.get(path) {
            Some(entry) => {
                compare(entry.content_hash.as_str(), content_hash) == Order::Equal && compare(
                    entry.config_hash.as_str(),
                    config_hash,
                ) == Order::Equal && versions_equal(&entry.rule_versions, rule_versions)
            },
            None => false,
        }
    }

    /// The entry for `path`.
    pub fn get(&self, path: &str) -> (r: Option<&CacheEntry>)
        ensures
            match r {
                Some(entry) => self.entries.get_spec(path@) == Some(*entry),
                None => self.entries.get_spec(path@) is None,
            },
    {
        self.entries.get(path)
    }

    /// Stores the entry for `path` in place of any earlier one.  Every
    /// other path keeps its entry.
    pub fn set(&mut self, path: String, entry: CacheEntry)
        ensures
            final(self).entries.get_spec(path@) == Some(entry),
            forall|other: Seq<char>|
                other != path@ ==> final(self).entries.get_spec(other) == old(
                    self,
                ).entries.get_spec(other),
            final(self).enabled == old(self).enabled,
            final(self).cache_dir == old(self).cache_dir,
    {
        let mut entries = SortedTable::new();
        core::mem::swap(&mut self.entries, &mut entries);
        self.entries = entries.with(path, entry);
    }

    /// Number of files with an entry.
    pub fn len(&self) -> (n: usize)
        ensures
            n == self.entries.pairs_spec().len(),
    {
        self.entries.len()
    }

    /// The version tag as bytes.
    pub fn tag() -> (t: Vec<u8>)
        ensures
            t@ == version_tag(),
    {
        let t: Vec<u8> = vec![
            0x74u8, 0x65u8, 0x78u8, 0x69u8, 0x64u8, 0x65u8, 0x2Du8, 0x63u8, 0x61u8, 0x63u8, 0x68u8,
            0x65u8, 0x2Fu8, 0x31u8, 0x0Au8,
        ];
        assert(t@ =~= version_tag());
        t
    }

    /// The bytes of a cache file with the given serialized entries.
    pub fn frame(payload: &[u8]) -> (file: Vec<u8>)
        ensures
            file@ == framed(payload@),
    {
        let mut file = Self::tag();
        let mut i: usize = 0;
        while i < payload.len()
            invariant
                i <= payload@.len(),
                file@ == version_tag() + payload@.take(i as int),
            decreases payload.len() - i,
        {
            file.push(payload[i]);
            assert(payload@.take(i + 1) =~= payload@.take(i as int).push(payload@[i as int]));
            assert(file@ =~= version_tag() + payload@.take(i + 1));
            i += 1;
        }
        assert(payload@.take(i as int) =~= payload@);
        file
    }

    /// The serialized entries of a cache file.  A file that does not open
    /// with the version tag has none: it counts as an empty cache.
    pub fn unframe(file: &[u8]) -> (payload: Option<Vec<u8>>)
        ensures
            match payload {
                Some(bytes) => payload_of(file@) == Some(bytes@),
                None => payload_of(file@) is None,
            },
    {
        let tag = Self::tag();
        if file.len() < tag.len() {
            return None;
        }
        let mut i: usize = 0;
        while i < tag.len()
            invariant
                i <= tag@.len(),
                tag@ == version_tag(),
                tag@.len() <= file@.len(),
                forall|j: int| 0 <= j < i ==> file@[j] == tag@[j],
            decreases tag.len() - i,
        {
            if file[i] != tag[i] {
                assert(file@.subrange(0, version_tag().len() as int)[i as int] != version_tag()[i as int]);
                return None;
            }
            i += 1;
        }
        assert(file@.subrange(0, version_tag().len() as int) =~= version_tag());
        let mut bytes: Vec<u8> = Vec::new();
        let mut k: usize = tag.len();
        while k < file.len()
            invariant
                tag@.len() <= k <= file@.len(),
                bytes@ == file@.subrange(tag@.len() as int, k as int),
            decreases file.len() - k,
        {
            bytes.push(file[k]);
            assert(file@.subrange(tag@.len() as int, k + 1) =~= file@.subrange(
                tag@.len() as int,
                k as int,
            ).push(file@[k as int]));
            k += 1;
        }
        Some(bytes)
    }
}

} // verus!
