//! The in-memory maps of a replica, kept in a lock-free hash trie whose hash
//! function is the identity on sixty-four-bit keys.
//!
//! The trie itself is not verified. Its operations are reached through the
//! small trusted functions of this module, each of which states what the
//! operation does to the entries that the map holds. A map is mutated only
//! through an exclusive reference, so those statements describe every
//! execution that the rules of borrowing admit.

use std::hash::{BuildHasher, Hasher};
use std::sync::Arc;
use vstd::prelude::*;

verus! {

/// A hasher for keys that are already uniformly distributed: the digest of a
/// key that was written whole is the key. Of bytes that were written one by
/// one the digest is the last eight, read as one machine word. A hasher that
/// was fed fewer than eight bytes yields zero.
#[derive(Clone, Default)]
pub struct TrivialHasher {
    current_bytes: Vec<u8>,
    whole: Option<u64>,
}

impl Hasher for TrivialHasher {
    fn write(&mut self, bytes: &[u8])
        ensures
            final(self)@.bytes == old(self)@.bytes + bytes@,
            final(self)@.key == (if bytes@.len() == 0 {
                old(self)@.key
            } else {
                None::<u64>
            }),
    {
        self.current_bytes.extend_from_slice(bytes);
        if bytes.len() > 0 {
            self.whole = None;
        }
    }

    fn finish(&self) -> (digest: u64)
        ensures
            digest_of(self@, digest),
    {
        match self.whole {
            Some(key) => key,
            None => {
                let n: usize = self.current_bytes.len();
                if n < 8 {
                    return 0;
                }
                let tail: [u8; 8] = [
                    self.current_bytes[n - 8],
                    self.current_bytes[n - 7],
                    self.current_bytes[n - 6],
                    self.current_bytes[n - 5],
                    self.current_bytes[n - 4],
                    self.current_bytes[n - 3],
                    self.current_bytes[n - 2],
                    self.current_bytes[n - 1],
                ];
                assert(tail@ =~= self@.bytes.subrange(n - 8, n as int));
                native_word(tail)
            },
        }
    }

    fn write_u64(&mut self, i: u64)
        ensures
            final(self)@.key == Some(i),
            final(self)@.bytes.take(old(self)@.bytes.len() as int) == old(self)@.bytes,
            in_machine_order(final(self)@.bytes.skip(old(self)@.bytes.len() as int), i),
    {
        let bytes: [u8; 8] = native_bytes(i);
        self.current_bytes.extend_from_slice(bytes.as_slice());
        self.whole = Some(i);
        assert(self@.bytes.take(old(self)@.bytes.len() as int) =~= old(self)@.bytes);
        assert(self@.bytes.skip(old(self)@.bytes.len() as int) =~= bytes@);
    }
}

/// Builds [`TrivialHasher`]s.
#[derive(Clone, Default, Debug)]
pub struct TrivialHasherBuilder;

impl BuildHasher for TrivialHasherBuilder {
    type Hasher = TrivialHasher;

    fn build_hasher(&self) -> (hasher: TrivialHasher)
        ensures
            hasher@ == (Fed { bytes: Seq::<u8>::empty(), key: None::<u64> }),
    {
        TrivialHasher { current_bytes: Vec::new(), whole: None }
    }
}

/// Trusted: `u64::from_ne_bytes`. The word is made of the eight bytes in the
/// byte order of the machine, which is one of two: the first byte is the
/// least significant, or it is the most significant.
#[verifier::external_body]
fn native_word(bytes: [u8; 8]) -> (word: u64)
    ensures
        in_machine_order(bytes@, word),
{
    u64::from_ne_bytes(bytes)
}

/// Trusted: `u64::to_ne_bytes`. The eight bytes make the word in the byte
/// order of the machine, which is one of two.
#[verifier::external_body]
fn native_bytes(word: u64) -> (bytes: [u8; 8])
    ensures
        in_machine_order(bytes@, word),
{
    word.to_ne_bytes()
}

/// What a hasher was fed: the bytes, in order, and the key that was written
/// whole, if nothing was written after it.
pub struct Fed {
    pub bytes: Seq<u8>,
    pub key: Option<u64>,
}

impl View for TrivialHasher {
    type V = Fed;

    closed spec fn view(&self) -> Fed {
        Fed { bytes: self.current_bytes@, key: self.whole }
    }
}

/// The word whose least significant byte is the first of eight bytes.
pub open spec fn word_from_low(b: Seq<u8>) -> u64 {
    (b[0] as u64) | ((b[1] as u64) << 8) | ((b[2] as u64) << 16) | ((b[3] as u64) << 24) | ((
    b[4] as u64) << 32) | ((b[5] as u64) << 40) | ((b[6] as u64) << 48) | ((b[7] as u64) << 56)
}

/// The word whose most significant byte is the first of eight bytes.
pub open spec fn word_from_high(b: Seq<u8>) -> u64 {
    ((b[0] as u64) << 56) | ((b[1] as u64) << 48) | ((b[2] as u64) << 40) | ((b[3] as u64) << 32)
        | ((b[4] as u64) << 24) | ((b[5] as u64) << 16) | ((b[6] as u64) << 8) | (b[7] as u64)
}

/// The eight bytes make the word in one of the two byte orders that a
/// machine can have.
pub open spec fn in_machine_order(bytes: Seq<u8>, word: u64) -> bool {
    bytes.len() == 8 && (word == word_from_low(bytes) || word == word_from_high(bytes))
}

/// `digest` is a digest of what was fed: the key that was written whole;
/// else zero where fewer than eight bytes were written; else the word that
/// the last eight bytes make in the byte order of the machine.
pub open spec fn digest_of(fed: Fed, digest: u64) -> bool {
    match fed.key {
        Some(key) => digest == key,
        None => if fed.bytes.len() < 8 {
            digest == 0
        } else {
            in_machine_order(
                fed.bytes.subrange(fed.bytes.len() - 8, fed.bytes.len() as int),
                digest,
            )
        },
    }
}

#[verifier::external_type_specification]
#[verifier::external_body]
#[verifier::reject_recursive_types(K)]
#[verifier::reject_recursive_types(V)]
#[verifier::reject_recursive_types(H)]
pub struct ExLockfreeMap<K, V, H>(lockfree::map::Map<K, V, H>);

/// The entries of a map of values: each key with the text stored under it.
pub uninterp spec fn value_entries(
    m: lockfree::map::Map<u64, Arc<String>, TrivialHasherBuilder>,
) -> Map<u64, Seq<char>>;

/// The entries of a map of key lists: each key with the list stored under it.
pub uninterp spec fn list_entries(
    m: lockfree::map::Map<u64, Arc<Vec<u64>>, TrivialHasherBuilder>,
) -> Map<u64, Seq<u64>>;

/// Trusted: `lockfree::map::Map::with_hasher`. A map that was just made holds
/// no entry.
#[verifier::external_body]
fn values_new() -> (m: lockfree::map::Map<u64, Arc<String>, TrivialHasherBuilder>)
    ensures
        value_entries(m) =~= Map::empty(),
{
    lockfree::map::Map::with_hasher(TrivialHasherBuilder)
}

/// Trusted: `lockfree::map::Map::insert`. The entry is stored whether or not
/// the key was present; what was stored under the key before is handed back.
#[verifier::external_body]
fn values_insert(
    m: &mut lockfree::map::Map<u64, Arc<String>, TrivialHasherBuilder>,
    key: u64,
    value: Arc<String>,
) -> (previous: Option<Arc<String>>)
    ensures
        value_entries(*final(m)) == value_entries(*old(m)).insert(key, value@),
        (previous is Some) == value_entries(*old(m)).contains_key(key),
        previous matches Some(p) ==> p@ == value_entries(*old(m))[key],
{
    m.insert(key, value).map(|removed| removed.val().clone())
}

/// Trusted: `lockfree::map::Map::get`. The value stored under the key, if the
/// map holds the key.
#[verifier::external_body]
fn values_get(
    m: &lockfree::map::Map<u64, Arc<String>, TrivialHasherBuilder>,
    key: u64,
) -> (found: Option<Arc<String>>)
    ensures
        (found is Some) == value_entries(*m).contains_key(key),
        found matches Some(v) ==> v@ == value_entries(*m)[key],
{
    m.get(&key).map(|guard| guard.val().clone())
}

/// Trusted: `lockfree::map::Map::iter`. Walking a map that nobody else holds
/// yields every key of it once; nothing is claimed of the order.
#[verifier::external_body]
fn values_keys(m: &lockfree::map::Map<u64, Arc<String>, TrivialHasherBuilder>) -> (keys: Vec<u64>)
    ensures
        keys@.no_duplicates(),
        keys@.to_set() == value_entries(*m).dom(),
{
    m.iter().map(|guard| *guard.key()).collect()
}

/// Trusted: `lockfree::map::Map::with_hasher`, for a map of key lists.
#[verifier::external_body]
fn lists_new() -> (m: lockfree::map::Map<u64, Arc<Vec<u64>>, TrivialHasherBuilder>)
    ensures
        list_entries(m) =~= Map::empty(),
{
    lockfree::map::Map::with_hasher(TrivialHasherBuilder)
}

/// Trusted: `lockfree::map::Map::insert`, for a map of key lists.
#[verifier::external_body]
fn lists_insert(
    m: &mut lockfree::map::Map<u64, Arc<Vec<u64>>, TrivialHasherBuilder>,
    key: u64,
    value: Arc<Vec<u64>>,
) -> (previous: Option<Arc<Vec<u64>>>)
    ensures
        list_entries(*final(m)) == list_entries(*old(m)).insert(key, value@),
        (previous is Some) == list_entries(*old(m)).contains_key(key),
        previous matches Some(p) ==> p@ == list_entries(*old(m))[key],
{
    m.insert(key, value).map(|removed| removed.val().clone())
}

/// Trusted: `lockfree::map::Map::get`, for a map of key lists.
#[verifier::external_body]
fn lists_get(
    m: &lockfree::map::Map<u64, Arc<Vec<u64>>, TrivialHasherBuilder>,
    key: u64,
) -> (found: Option<Arc<Vec<u64>>>)
    ensures
        (found is Some) == list_entries(*m).contains_key(key),
        found matches Some(v) ==> v@ == list_entries(*m)[key],
{
    m.get(&key).map(|guard| guard.val().clone())
}

/// Trusted: `lockfree::map::Map::iter`, for a map of key lists.
#[verifier::external_body]
fn lists_keys(m: &lockfree::map::Map<u64, Arc<Vec<u64>>, TrivialHasherBuilder>) -> (keys: Vec<u64>)
    ensures
        keys@.no_duplicates(),
        keys@.to_set() == list_entries(*m).dom(),
{
    m.iter().map(|guard| *guard.key()).collect()
}

/// A map from sixty-four-bit keys to shared values.
#[verifier::reject_recursive_types(V)]
pub struct LockFreeMap<V> {
    inner: lockfree::map::Map<u64, Arc<V>, TrivialHasherBuilder>,
}

impl View for LockFreeMap<String> {
    type V = Map<u64, Seq<char>>;

    closed spec fn view(&self) -> Map<u64, Seq<char>> {
        value_entries(self.inner)
    }
}

impl View for LockFreeMap<Vec<u64>> {
    type V = Map<u64, Seq<u64>>;

    closed spec fn view(&self) -> Map<u64, Seq<u64>> {
        list_entries(self.inner)
    }
}

impl LockFreeMap<String> {
    /// An empty map.
    pub fn new() -> (m: Self)
        ensures
            m@ =~= Map::empty(),
    {
        LockFreeMap { inner: values_new() }
    }

    /// Stores `val` under `key`, replacing what was there, and returns what
    /// was there.
    pub fn insert(&mut self, key: u64, val: Arc<String>) -> (previous: Option<Arc<String>>)
        ensures
            final(self)@ == old(self)@.insert(key, val@),
            (previous is Some) == old(self)@.contains_key(key),
            previous matches Some(p) ==> p@ == old(self)@[key],
    {
        values_insert(&mut self.inner, key, val)
    }

    /// Stores `val` under `key` unless the map holds the key, and tells
    /// whether it did. What the map holds under a key is never replaced.
    pub fn insert_new(&mut self, key: u64, val: Arc<String>) -> (stored: bool)
        ensures
            stored == !old(self)@.contains_key(key),
            final(self)@ == (if old(self)@.contains_key(key) {
                old(self)@
            } else {
                old(self)@.insert(key, val@)
            }),
    {
        if self.get(key).is_some() {
            false
        } else {
            self.insert(key, val);
            true
        }
    }

    /// The value under `key`, if there is one.
    pub fn get(&self, key: u64) -> (found: Option<Arc<String>>)
        ensures
            (found is Some) == self@.contains_key(key),
            found matches Some(v) ==> v@ == self@[key],
    {
        values_get(&self.inner, key)
    }

    /// Every key of the map, once, in no particular order.
    pub fn keys(&self) -> (keys: Vec<u64>)
        ensures
            keys@.no_duplicates(),
            keys@.to_set() == self@.dom(),
            self@.dom().finite(),
            keys@.len() == self@.dom().len(),
    {
        let keys = values_keys(&self.inner);
        proof {
            keys@.unique_seq_to_set();
        }
        keys
    }
}

impl LockFreeMap<Vec<u64>> {
    /// An empty map.
    pub fn new() -> (m: Self)
        ensures
            m@ =~= Map::empty(),
    {
        LockFreeMap { inner: lists_new() }
    }

    /// Stores `val` under `key`, replacing what was there, and returns what
    /// was there.
    pub fn insert(&mut self, key: u64, val: Arc<Vec<u64>>) -> (previous: Option<Arc<Vec<u64>>>)
        ensures
            final(self)@ == old(self)@.insert(key, val@),
            (previous is Some) == old(self)@.contains_key(key),
            previous matches Some(p) ==> p@ == old(self)@[key],
    {
        lists_insert(&mut self.inner, key, val)
    }

    /// The list under `key`, if there is one.
    pub fn get(&self, key: u64) -> (found: Option<Arc<Vec<u64>>>)
        ensures
            (found is Some) == self@.contains_key(key),
            found matches Some(v) ==> v@ == self@[key],
    {
        lists_get(&self.inner, key)
    }

    /// Every key of the map, once, in no particular order.
    pub fn keys(&self) -> (keys: Vec<u64>)
        ensures
            keys@.no_duplicates(),
            keys@.to_set() == self@.dom(),
            self@.dom().finite(),
            keys@.len() == self@.dom().len(),
    {
        let keys = lists_keys(&self.inner);
        proof {
            keys@.unique_seq_to_set();
        }
        keys
    }
}

} // verus!
