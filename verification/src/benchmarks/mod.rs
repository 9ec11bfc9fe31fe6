//! A cache of pairwise distances and the two benchmarks that consume it.

use std::collections::BTreeMap;
use std::hash::DefaultHasher;
use std::hash::Hasher;
use vstd::prelude::*;
use vstd::std_specs::hash::DefaultHasherAdditionalSpecFns;
use vstd::utf8::encode_utf8;

pub mod distance_matrix;
pub mod triangle_inequality;

use crate::calculate;
use crate::calculate_is_symmetric;
use crate::calculate_spec;
use crate::compress::CompressionFailure;
use crate::compress::Distance;

verus! {

broadcast use vstd::laws_cmp::group_laws_cmp;

/// The key of an unordered pair of pages: the two fingerprints, smaller first.
pub type PairKey = (u64, u64);

/// What the cache holds: at most one distance for each key.
pub type Entries = Map<PairKey, Distance>;

/// The fingerprint of a text: the value of the default hasher of the standard
/// library after the bytes of the text and a closing byte.
pub open spec fn fingerprint(text: Seq<char>) -> u64 {
    DefaultHasher::spec_finish(seq![encode_utf8(text), seq![0xffu8]])
}

/// The key of the pair of `a` and `b`, whichever comes first.
pub open spec fn pair_key(a: Seq<char>, b: Seq<char>) -> PairKey {
    if fingerprint(a) <= fingerprint(b) {
        (fingerprint(a), fingerprint(b))
    } else {
        (fingerprint(b), fingerprint(a))
    }
}

/// What the cache keeps of a distance offered for a key: the entry that is
/// already there stays, and only a vacant key takes the new value.
pub open spec fn stored(entries: Entries, key: PairKey, distance: Distance) -> Entries {
    if entries.contains_key(key) {
        entries
    } else {
        entries.insert(key, distance)
    }
}

/// One query of the cache, as a function of what it holds: the answer and what
/// it holds afterwards. An entry answers without computing; a vacant key takes
/// the computed distance; a failure is handed on and leaves no entry.
pub open spec fn lookup_or_compute(entries: Entries, a: Seq<char>, b: Seq<char>) -> (
    Result<Distance, CompressionFailure>,
    Entries,
) {
    let key = pair_key(a, b);
    if entries.contains_key(key) {
        (Ok(entries[key]), entries)
    } else {
        match calculate_spec(a, b) {
            Ok(distance) => (Ok(distance), entries.insert(key, distance)),
            Err(failure) => (Err(failure), entries),
        }
    }
}

/// Distances between pages, remembered by the key of the pair.
pub struct Cache {
    cache: BTreeMap<PairKey, Distance>,
}

impl View for Cache {
    type V = Entries;

    closed spec fn view(&self) -> Entries {
        self.cache@
    }
}

impl Cache {
    /// An empty cache.
    pub fn new() -> (cache: Self)
        ensures
            cache@ == Entries::empty(),
    {
        Cache { cache: BTreeMap::new() }
    }

    /// The fingerprint of `s`.
    pub fn hash_string(s: &str) -> (hash: u64)
        ensures
            hash == fingerprint(s@),
    {
        let mut hasher = DefaultHasher::new();
        hasher.write(s.as_bytes());
        let end: [u8; 1] = [0xff];
        assert(end@ =~= seq![0xffu8]);
        hasher.write(end.as_slice());
        assert(hasher@ =~~= seq![encode_utf8(s@), seq![0xffu8]]);
        hasher.finish()
    }

    /// The key of the pair of two pages.
    pub fn key(page_a: &str, page_b: &str) -> (key: PairKey)
        ensures
            key == pair_key(page_a@, page_b@),
    {
        let hash_a = Self::hash_string(page_a);
        let hash_b = Self::hash_string(page_b);
        if hash_a <= hash_b {
            (hash_a, hash_b)
        } else {
            (hash_b, hash_a)
        }
    }

    /// The distance remembered for a key, if there is one. Nothing is computed.
    pub fn lookup(&self, key: PairKey) -> (found: Option<Distance>)
        ensures
            found == if self@.contains_key(key) {
                Some(self@[key])
            } else {
                None
            },
    {
        match self.cache.get(&key) {
            Some(cached_result) => Some(*cached_result),
            None => None,
        }
    }

    /// Offers a computed distance for a key and returns the distance the cache
    /// holds for it afterwards: the first one stored wins.
    pub fn store(&mut self, key: PairKey, distance: Distance) -> (kept: Distance)
        ensures
            final(self)@ == stored(old(self)@, key, distance),
            kept == final(self)@[key],
    {
        match self.cache.get(&key) {
            Some(first) => *first,
            None => {
                self.cache.insert(key, distance);
                distance
            },
        }
    }

    /// The distance between two pages, from the cache where it holds the pair,
    /// computed and remembered where it does not.
    pub fn calculate(&mut self, page_a: &str, page_b: &str) -> (distance: Result<
        Distance,
        CompressionFailure,
    >)
        ensures
            (distance, final(self)@) == lookup_or_compute(old(self)@, page_a@, page_b@),
    {
        let key = Self::key(page_a, page_b);
        match self.lookup(key) {
            Some(cached_result) => Ok(cached_result),
            None => match calculate(page_a, page_b) {
                Ok(result) => Ok(self.store(key, result)),
                Err(failure) => Err(failure),
            },
        }
    }
}

/// Whether `later` still holds every entry of `earlier`, each with its value.
pub open spec fn keeps(earlier: Entries, later: Entries) -> bool {
    forall|key: PairKey| #[trigger]
        earlier.contains_key(key) ==> later.contains_key(key) && later[key] == earlier[key]
}

/// Whether `entries` holds `distance` under `key`.
pub open spec fn holds(entries: Entries, key: PairKey, distance: Distance) -> bool {
    entries.contains_key(key) && entries[key] == distance
}

/// The two orders of a pair of pages have the same key.
pub proof fn pair_key_is_symmetric(a: Seq<char>, b: Seq<char>)
    ensures
        pair_key(a, b) == pair_key(b, a),
{
}

/// The first distance stored under a key wins: whatever is offered for the key
/// afterwards, and in whatever order, the cache keeps what it held.
pub proof fn first_writer_wins(entries: Entries, key: PairKey, first: Distance, second: Distance)
    ensures
        stored(stored(entries, key, first), key, second) == stored(entries, key, first),
        stored(entries, key, first)[key] == if entries.contains_key(key) {
            entries[key]
        } else {
            first
        },
        keeps(entries, stored(entries, key, first)),
{
}

/// A query that is asked again, in either order of the pair, is answered as it
/// was the first time and changes nothing in the cache.
pub proof fn query_is_repeatable(entries: Entries, a: Seq<char>, b: Seq<char>)
    ensures
        lookup_or_compute(lookup_or_compute(entries, a, b).1, a, b) == lookup_or_compute(
            entries,
            a,
            b,
        ),
        lookup_or_compute(lookup_or_compute(entries, a, b).1, b, a) == lookup_or_compute(
            entries,
            a,
            b,
        ),
{
    calculate_is_symmetric(a, b);
}

/// A query never removes or overwrites an entry, and the distance it answers
/// with is held under the key of the pair afterwards: the pair is computed at
/// most once, since a held key is answered from its entry.
pub proof fn query_keeps_entries(entries: Entries, a: Seq<char>, b: Seq<char>)
    ensures
        keeps(entries, lookup_or_compute(entries, a, b).1),
        match lookup_or_compute(entries, a, b).0 {
            Ok(distance) => holds(lookup_or_compute(entries, a, b).1, pair_key(a, b), distance),
            Err(_) => lookup_or_compute(entries, a, b).1 == entries,
        },
{
}

/// What the cache holds after a list of offers, each stored in its turn.
pub open spec fn stored_all(entries: Entries, offers: Seq<(PairKey, Distance)>) -> Entries
    decreases offers.len(),
{
    if offers.len() == 0 {
        entries
    } else {
        stored(stored_all(entries, offers.drop_last()), offers.last().0, offers.last().1)
    }
}

/// In whatever order offers reach the cache, it keeps every entry it held.
pub proof fn offers_keep_entries(entries: Entries, offers: Seq<(PairKey, Distance)>)
    ensures
        keeps(entries, stored_all(entries, offers)),
    decreases offers.len(),
{
    if offers.len() > 0 {
        offers_keep_entries(entries, offers.drop_last());
    }
}

/// In whatever order offers reach the cache, a key that was vacant holds the
/// first distance that was offered for it, whatever was offered for it later.
pub proof fn first_offer_wins(entries: Entries, offers: Seq<(PairKey, Distance)>, first: int)
    requires
        0 <= first < offers.len(),
        !entries.contains_key(offers[first].0),
        forall|earlier: int| 0 <= earlier < first ==> offers[earlier].0 != offers[first].0,
    ensures
        holds(stored_all(entries, offers), offers[first].0, offers[first].1),
    decreases offers.len(),
{
    if first == offers.len() - 1 {
        lemma_vacant_until_offered(entries, offers.drop_last(), offers[first].0);
    } else {
        first_offer_wins(entries, offers.drop_last(), first);
    }
}

/// A key that the cache did not hold and that no offer names is still vacant
/// after the offers.
proof fn lemma_vacant_until_offered(
    entries: Entries,
    offers: Seq<(PairKey, Distance)>,
    key: PairKey,
)
    requires
        !entries.contains_key(key),
        forall|k: int| 0 <= k < offers.len() ==> offers[k].0 != key,
    ensures
        !stored_all(entries, offers).contains_key(key),
    decreases offers.len(),
{
    if offers.len() > 0 {
        lemma_vacant_until_offered(entries, offers.drop_last(), key);
    }
}

} // verus!
