use dashmap::DashMap;
use vstd::prelude::*;

use crate::keyed::{ascii_lower, to_ascii_lowercase, StrMap};
use crate::raft::state_machine::opt_str;

verus! {

#[verifier::external_type_specification]
#[verifier::external_body]
#[verifier::reject_recursive_types(K)]
#[verifier::reject_recursive_types(V)]
#[verifier::reject_recursive_types(S)]
pub struct ExDashMap<K, V, S>(DashMap<K, V, S>);

/// What a `DashMap` of byte strings holds, by the contents of its keys.
pub uninterp spec fn dashmap_bytes(m: DashMap<String, Vec<u8>>) -> Map<Seq<char>, Seq<u8>>;

/// `DashMap::new`: a map that holds nothing.
#[verifier::external_body]
fn bytes_map_new() -> (r: DashMap<String, Vec<u8>>)
    ensures
        dashmap_bytes(r).is_empty(),
{
    DashMap::new()
}

/// `DashMap::insert`: `key` now holds `value`, whatever it held before.
#[verifier::external_body]
fn bytes_map_insert(m: &mut DashMap<String, Vec<u8>>, key: String, value: Vec<u8>)
    ensures
        dashmap_bytes(*final(m)) == dashmap_bytes(*old(m)).insert(key@, value@),
{
    m.insert(key, value);
}

/// `DashMap::get`, the value copied out: what `key` holds, if anything.
#[verifier::external_body]
fn bytes_map_get(m: &DashMap<String, Vec<u8>>, key: &str) -> (r: Option<Vec<u8>>)
    ensures
        match r {
            Some(v) => dashmap_bytes(*m).contains_key(key@) && v@ == dashmap_bytes(*m)[key@],
            None => !dashmap_bytes(*m).contains_key(key@),
        },
{
    match m.get(key) {
        Some(entry) => Some(entry.value().clone()),
        None => None,
    }
}

/// `DashMap::remove`: `key` no longer holds anything.
#[verifier::external_body]
fn bytes_map_remove(m: &mut DashMap<String, Vec<u8>>, key: &str)
    ensures
        dashmap_bytes(*final(m)) == dashmap_bytes(*old(m)).remove(key@),
{
    m.remove(key);
}

/// The chunks of an upload, as values; a chunk not yet received is `None`.
pub open spec fn slots_view(v: Seq<Option<String>>) -> Seq<Option<Seq<char>>> {
    Seq::new(v.len(), |i: int| opt_str(v[i]))
}

/// An upload of `total` chunks, none received yet.
pub open spec fn no_slots(total: nat) -> Seq<Option<Seq<char>>> {
    Seq::new(total, |i: int| None::<Seq<char>>)
}

/// The upload that a chunk of a `total`-chunk upload joins: the one under
/// way for the user if it has that many chunks, else a fresh one.
pub open spec fn slots_before(uploads: Map<Seq<char>, Seq<Option<Seq<char>>>>, key: Seq<char>, total: nat) -> Seq<Option<Seq<char>>> {
    if uploads.contains_key(key) && uploads[key].len() == total {
        uploads[key]
    } else {
        no_slots(total)
    }
}

/// The upload with chunk `n` (counted from 1) received, if `n` is in range.
pub open spec fn slots_after(
    uploads: Map<Seq<char>, Seq<Option<Seq<char>>>>,
    key: Seq<char>,
    chunk: Seq<char>,
    n: nat,
    total: nat,
) -> Seq<Option<Seq<char>>> {
    let s = slots_before(uploads, key, total);
    if 1 <= n <= total {
        s.update(n - 1, Some(chunk))
    } else {
        s
    }
}

/// Every chunk has arrived.
pub open spec fn all_arrived(s: Seq<Option<Seq<char>>>) -> bool {
    forall|i: int| 0 <= i < s.len() ==> (#[trigger] s[i]) is Some
}

/// The chunks joined in order.
pub open spec fn joined(s: Seq<Option<Seq<char>>>) -> Seq<char>
    decreases s.len(),
{
    if s.len() == 0 {
        Seq::empty()
    } else {
        joined(s.drop_last()) + match s.last() {
            Some(c) => c,
            None => Seq::empty(),
        }
    }
}

/// The store as values: each user's bundle, and each user's upload under
/// way, all keyed by lowercased nickname.
#[verifier::ext_equal]
pub struct StoreView {
    pub bundles: Map<Seq<char>, Seq<u8>>,
    pub uploads: Map<Seq<char>, Seq<Option<Seq<char>>>>,
}

/// Uploads under way, as values.
pub open spec fn uploads_view(m: Map<Seq<char>, Vec<Option<String>>>) -> Map<Seq<char>, Seq<Option<Seq<char>>>> {
    Map::new(|k: Seq<char>| m.contains_key(k), |k: Seq<char>| slots_view(m[k]@))
}

/// In-memory store mapping nicknames to their serialized pre-key bundles,
/// with the uploads of bundles sent in chunks. Nicknames match in any case.
#[derive(Debug)]
pub struct PreKeyBundleStore {
    bundles: DashMap<String, Vec<u8>>,
    /// The chunks of each upload under way, by lowercased nickname.
    chunk_buffer: StrMap<Vec<Option<String>>>,
}

impl View for PreKeyBundleStore {
    type V = StoreView;

    closed spec fn view(&self) -> StoreView {
        StoreView { bundles: dashmap_bytes(self.bundles), uploads: uploads_view(self.chunk_buffer@) }
    }
}

fn no_chunks(total: usize) -> (r: Vec<Option<String>>)
    ensures
        slots_view(r@) == no_slots(total as nat),
{
    let mut r: Vec<Option<String>> = Vec::new();
    let mut i: usize = 0;
    while i < total
        invariant
            i <= total,
            r@.len() == i,
            forall|j: int| 0 <= j < i ==> r@[j] is None,
        decreases total - i,
    {
        r.push(None);
        i = i + 1;
    }
    assert(slots_view(r@) =~= no_slots(total as nat));
    r
}

impl PreKeyBundleStore {
    /// Create an empty store.
    pub fn new() -> (r: Self)
        ensures
            r@.bundles == Map::<Seq<char>, Seq<u8>>::empty(),
            r@.uploads == Map::<Seq<char>, Seq<Option<Seq<char>>>>::empty(),
    {
        let r = PreKeyBundleStore { bundles: bytes_map_new(), chunk_buffer: StrMap::new() };
        assert(r@.bundles =~= Map::<Seq<char>, Seq<u8>>::empty());
        assert(r@.uploads =~= Map::<Seq<char>, Seq<Option<Seq<char>>>>::empty());
        r
    }

    /// Accumulate one chunk of a chunked bundle upload.
    ///
    /// `n` is 1-based and `total` is the declared number of chunks; a chunk
    /// with another total than the upload under way starts a new upload, and
    /// a chunk number out of range is ignored. Once all `total` chunks have
    /// arrived they are returned joined in order and the upload is over;
    /// until then the result is `None`.
    pub fn add_bundle_chunk(&mut self, nick: &str, chunk: &str, n: usize, total: usize) -> (r: Option<String>)
        ensures
            ({
                let key = ascii_lower(nick@);
                let s = slots_after(old(self)@.uploads, key, chunk@, n as nat, total as nat);
                &&& final(self)@.bundles == old(self)@.bundles
                &&& all_arrived(s) ==> r is Some && r->0@ == joined(s) && final(self)@.uploads == old(self)@.uploads.remove(key)
                &&& !all_arrived(s) ==> r is None && final(self)@.uploads == old(self)@.uploads.insert(key, s)
            }),
    {
        let key = to_ascii_lowercase(nick);
        let ghost before = old(self)@.uploads;
        let mut slots = match self.chunk_buffer.remove(key.as_str()) {
            Some(s) => s,
            None => no_chunks(total),
        };
        if slots.len() != total {
            slots = no_chunks(total);
        }
        assert(slots_view(slots@) == slots_before(before, key@, total as nat));
        if n >= 1 && n <= total {
            let ghost s0 = slots@;
            slots.set(n - 1, Some(chunk.to_owned()));
            assert(slots_view(slots@) =~= slots_view(s0).update(n - 1, Some(chunk@)));
        }
        let ghost s = slots_view(slots@);
        let mut i: usize = 0;
        let mut complete = true;
        let mut joined_text = String::new();
        while i < slots.len()
            invariant
                i <= slots@.len(),
                s == slots_view(slots@),
                complete == all_arrived(s.take(i as int)),
                complete ==> joined_text@ == joined(s.take(i as int)),
            decreases slots@.len() - i,
        {
            proof {
                assert(s.take(i + 1).drop_last() =~= s.take(i as int));
                assert(s.take(i + 1).last() == s[i as int]);
                if !all_arrived(s.take(i as int)) {
                    let j = choose|j: int| 0 <= j < s.take(i as int).len() && !(s.take(i as int)[j] is Some);
                    assert(s.take(i + 1)[j] == s.take(i as int)[j]);
                }
            }
            match &slots[i] {
                Some(c) => {
                    if complete {
                        joined_text.append(c.as_str());
                    }
                },
                None => {
                    complete = false;
                },
            }
            i = i + 1;
        }
        assert(s.take(s.len() as int) =~= s);
        proof {
            lemma_uploads_remove(self.chunk_buffer@, key@);
        }
        if complete {
            assert(self@.uploads =~= before.remove(key@));
            Some(joined_text)
        } else {
            proof {
                lemma_uploads_insert(self.chunk_buffer@, key@, slots);
            }
            self.chunk_buffer.insert(key, slots);
            assert(self@.uploads =~= before.insert(key@, s));
            None
        }
    }

    /// Store or replace a user's serialized pre-key bundle.
    pub fn store_bundle(&mut self, nick: &str, bundle_data: Vec<u8>)
        ensures
            final(self)@.bundles == old(self)@.bundles.insert(ascii_lower(nick@), bundle_data@),
            final(self)@.uploads == old(self)@.uploads,
    {
        let key = to_ascii_lowercase(nick);
        bytes_map_insert(&mut self.bundles, key, bundle_data);
    }

    /// A user's serialized pre-key bundle, if one is stored.
    pub fn get_bundle(&self, nick: &str) -> (r: Option<Vec<u8>>)
        ensures
            match r {
                Some(v) => self@.bundles.contains_key(ascii_lower(nick@)) && v@ == self@.bundles[ascii_lower(nick@)],
                None => !self@.bundles.contains_key(ascii_lower(nick@)),
            },
    {
        let key = to_ascii_lowercase(nick);
        bytes_map_get(&self.bundles, key.as_str())
    }

    /// Remove a user's pre-key bundle (on disconnect or nick change).
    pub fn remove_bundle(&mut self, nick: &str)
        ensures
            final(self)@.bundles == old(self)@.bundles.remove(ascii_lower(nick@)),
            final(self)@.uploads == old(self)@.uploads,
    {
        let key = to_ascii_lowercase(nick);
        bytes_map_remove(&mut self.bundles, key.as_str());
    }
}

impl Default for PreKeyBundleStore {
    fn default() -> (r: Self)
        ensures
            r@.bundles == Map::<Seq<char>, Seq<u8>>::empty(),
            r@.uploads == Map::<Seq<char>, Seq<Option<Seq<char>>>>::empty(),
    {
        Self::new()
    }
}

proof fn lemma_uploads_insert(m: Map<Seq<char>, Vec<Option<String>>>, k: Seq<char>, v: Vec<Option<String>>)
    ensures
        uploads_view(m.insert(k, v)) == uploads_view(m).insert(k, slots_view(v@)),
{
    assert(uploads_view(m.insert(k, v)) =~= uploads_view(m).insert(k, slots_view(v@)));
}

proof fn lemma_uploads_remove(m: Map<Seq<char>, Vec<Option<String>>>, k: Seq<char>)
    ensures
        uploads_view(m.remove(k)) == uploads_view(m).remove(k),
{
    assert(uploads_view(m.remove(k)) =~= uploads_view(m).remove(k));
}

/// A bundle stored under a nickname is got back under any casing of it,
/// and is gone once removed under any casing of it.
pub proof fn lemma_bundle_found_in_any_case(
    bundles: Map<Seq<char>, Seq<u8>>,
    stored_as: Seq<char>,
    asked_as: Seq<char>,
    data: Seq<u8>,
)
    requires
        ascii_lower(stored_as) == ascii_lower(asked_as),
    ensures
        bundles.insert(ascii_lower(stored_as), data).contains_key(ascii_lower(asked_as)),
        bundles.insert(ascii_lower(stored_as), data)[ascii_lower(asked_as)] == data,
        !bundles.insert(ascii_lower(stored_as), data).remove(ascii_lower(asked_as)).contains_key(ascii_lower(asked_as)),
{
}

} // verus!
