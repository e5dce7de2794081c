//! The store: the one owner of the map from keys to sequences. Commands are
//! applied to it one at a time, each as a single step.

use crate::codec::{
    entries_view, Command, GetResponse, ListAllResponse, Reply, STATUS_NOT_FOUND, STATUS_OK,
};
use crate::model::{
    after_set, empty_store, is_listing_of, is_reply_to, lookup, next_state, well_formed,
};
use dashmap::DashMap;
use vstd::prelude::*;

verus! {

/// `dashmap::DashMap`, declared so that it can stand in a field and in
/// signatures. Nothing inside it is visible to the verifier: what it holds is
/// named by `map_contents`.
#[verifier::external_type_specification]
#[verifier::external_body]
#[verifier::reject_recursive_types(K)]
#[verifier::reject_recursive_types(V)]
#[verifier::reject_recursive_types(S)]
pub struct ExDashMap<K, V, S>(DashMap<K, V, S>);

/// What a `DashMap` from keys to vectors of values holds: each key that is in
/// it, with the elements of that key's vector in order.
///
/// The functions below are the only ones that touch the map, and those that
/// change it take it by `&mut`, though `DashMap` itself changes through `&`:
/// with one owner and no reference into the map kept between calls, the map
/// behaves as an ordinary map, and no call waits on a lock held elsewhere.
pub uninterp spec fn map_contents(m: DashMap<u8, Vec<u32>>) -> Map<u8, Seq<u32>>;

/// `DashMap::new`: the map it makes holds nothing.
#[verifier::external_body]
fn map_new() -> (m: DashMap<u8, Vec<u32>>)
    ensures
        map_contents(m) == empty_store(),
{
    DashMap::new()
}

/// `DashMap::insert`: afterwards `key` holds `values` and every other key
/// holds what it held; the result is what `key` held before, if it was there.
/// Hashing and comparing `u8` keys does not panic, so the call does not
/// unwind.
#[verifier::external_body]
fn map_insert(m: &mut DashMap<u8, Vec<u32>>, key: u8, values: Vec<u32>) -> (previous: Option<
    Vec<u32>,
>)
    ensures
        map_contents(*final(m)) == map_contents(*old(m)).insert(key, values@),
        match previous {
            Some(before) => map_contents(*old(m)).contains_key(key) && before@ == map_contents(
                *old(m),
            )[key],
            None => !map_contents(*old(m)).contains_key(key),
        },
    no_unwind
{
    m.insert(key, values)
}

/// `DashMap::remove`: afterwards `key` is not in the map and every other key
/// holds what it held; the result is `key` with what it held, if it was there.
/// The call does not unwind.
#[verifier::external_body]
fn map_remove(m: &mut DashMap<u8, Vec<u32>>, key: u8) -> (removed: Option<(u8, Vec<u32>)>)
    ensures
        map_contents(*final(m)) == map_contents(*old(m)).remove(key),
        match removed {
            Some(pair) => map_contents(*old(m)).contains_key(key) && pair.0 == key && pair.1@
                == map_contents(*old(m))[key],
            None => !map_contents(*old(m)).contains_key(key),
        },
    no_unwind
{
    m.remove(&key)
}

/// `DashMap::get`, with the vector it points at copied out: the elements held
/// under `key`, if it is in the map.
#[verifier::external_body]
fn map_get(m: &DashMap<u8, Vec<u32>>, key: u8) -> (found: Option<Vec<u32>>)
    ensures
        match found {
            Some(values) => map_contents(*m).contains_key(key) && values@ == map_contents(*m)[key],
            None => !map_contents(*m).contains_key(key),
        },
{
    m.get(&key).map(|held| held.value().clone())
}

/// `DashMap::clear`: afterwards the map holds nothing. The call does not
/// unwind.
#[verifier::external_body]
fn map_clear(m: &mut DashMap<u8, Vec<u32>>)
    ensures
        map_contents(*final(m)) == empty_store(),
    no_unwind
{
    m.clear()
}

/// `DashMap::iter`, with each key and vector copied out: every key of the map
/// once, with what it holds. The order is that in which the map's shards and
/// their buckets are walked, of which nothing is claimed.
#[verifier::external_body]
fn map_entries(m: &DashMap<u8, Vec<u32>>) -> (entries: Vec<(u8, Vec<u32>)>)
    ensures
        is_listing_of(entries_view(entries@), map_contents(*m)),
{
    m.iter().map(|entry| (*entry.key(), entry.value().clone())).collect()
}

/// The key-value store. It starts empty and changes only through the methods
/// below.
pub struct Store {
    map: DashMap<u8, Vec<u32>>,
}

impl View for Store {
    type V = Map<u8, Seq<u32>>;

    closed spec fn view(&self) -> Map<u8, Seq<u32>> {
        map_contents(self.map)
    }
}

impl Store {
    #[verifier::type_invariant]
    spec fn no_empty_sequence(self) -> bool {
        well_formed(map_contents(self.map))
    }

    /// Makes an empty store.
    pub fn new() -> (store: Store)
        ensures
            store@ == empty_store(),
            well_formed(store@),
    {
        Store { map: map_new() }
    }

    /// Appends `value` to the sequence of `key`, which starts empty if the
    /// key was absent. Always answers `STATUS_OK`.
    pub fn set(&mut self, key: u8, value: u32) -> (status: u8)
        ensures
            final(self)@ == after_set(old(self)@, key, value),
            status == STATUS_OK,
            well_formed(final(self)@),
    {
        proof {
            use_type_invariant(&*self);
        }
        let mut values = match map_remove(&mut self.map, key) {
            Some(pair) => pair.1,
            None => Vec::new(),
        };
        values.push(value);
        map_insert(&mut self.map, key, values);
        proof {
            assert(map_contents(self.map) =~= after_set(old(self)@, key, value));
            use_type_invariant(&*self);
        }
        STATUS_OK
    }

    /// Reads the sequence of `key`: a copy of all its values in the order in
    /// which they were set, or `NotFound` if the key is absent. The store is
    /// not changed.
    pub fn get(&self, key: u8) -> (response: GetResponse)
        ensures
            response@ == lookup(self@, key),
            well_formed(self@),
    {
        proof {
            use_type_invariant(self);
        }
        match map_get(&self.map, key) {
            Some(values) => GetResponse::Found(values),
            None => GetResponse::NotFound,
        }
    }

    /// Removes `key` with its whole sequence and answers `STATUS_OK`, or
    /// answers `STATUS_NOT_FOUND` and leaves the store as it is if the key is
    /// absent.
    pub fn delete_by_key(&mut self, key: u8) -> (status: u8)
        ensures
            final(self)@ == old(self)@.remove(key),
            old(self)@.contains_key(key) ==> status == STATUS_OK,
            !old(self)@.contains_key(key) ==> status == STATUS_NOT_FOUND && final(self)@ == old(
                self,
            )@,
            well_formed(final(self)@),
    {
        proof {
            use_type_invariant(&*self);
        }
        let removed = map_remove(&mut self.map, key);
        proof {
            use_type_invariant(&*self);
            if removed is None {
                assert(map_contents(self.map) =~= old(self)@);
            }
        }
        match removed {
            Some(_) => STATUS_OK,
            None => STATUS_NOT_FOUND,
        }
    }

    /// Removes every key. Always answers `STATUS_OK`.
    pub fn delete_all(&mut self) -> (status: u8)
        ensures
            final(self)@ == empty_store(),
            status == STATUS_OK,
            well_formed(final(self)@),
    {
        map_clear(&mut self.map);
        STATUS_OK
    }

    /// Lists every key that is present, each once and with a copy of its
    /// sequence. The order of the entries is that in which the underlying map
    /// is walked and is not specified. The store is not changed.
    pub fn list_all(&self) -> (response: ListAllResponse)
        ensures
            is_listing_of(response@, self@),
            well_formed(self@),
    {
        proof {
            use_type_invariant(self);
        }
        ListAllResponse { entries: map_entries(&self.map) }
    }

    /// Applies one command as a single step and gives the reply to it.
    pub fn apply(&mut self, command: Command) -> (reply: Reply)
        ensures
            final(self)@ == next_state(old(self)@, command),
            is_reply_to(old(self)@, command, reply@),
            well_formed(final(self)@),
    {
        proof {
            use_type_invariant(&*self);
        }
        match command {
            Command::SetValue { key, value } => Reply::Status(self.set(key, value)),
            Command::Get { key } => Reply::Get(self.get(key)),
            Command::DeleteByKey { key } => Reply::Status(self.delete_by_key(key)),
            Command::DeleteAll => Reply::Status(self.delete_all()),
            Command::ListAll => Reply::ListAll(self.list_all()),
        }
    }
}

} // verus!
