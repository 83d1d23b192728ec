//! The storage under the swap store: the in-memory key-value store of
//! `cosmwasm_std`, scanned through `cw_storage_plus`. What these do is stated
//! here as contracts that the verifier takes on trust; the functions of the
//! swap store are proved from them.

use crate::listing::{after, is_least};
use cosmwasm_std::MemoryStorage;
use vstd::prelude::*;
use vstd::set_lib::lemma_len_subset;
use vstd::utf8::{decode_utf8, valid_utf8};

verus! {

/// `cosmwasm_std::MemoryStorage`, a map from byte keys to byte values that is
/// kept in key order. Nothing of its inside is visible here.
#[verifier::external_type_specification]
#[verifier::external_body]
pub struct ExMemoryStorage(cosmwasm_std::MemoryStorage);

/// What a storage holds: the value under each key that has one.
pub uninterp spec fn storage_entries(storage: MemoryStorage) -> Map<Seq<u8>, Seq<u8>>;

/// The keys of `entries` that begin with `prefix`, each without the prefix.
pub open spec fn keys_under(entries: Map<Seq<u8>, Seq<u8>>, prefix: Seq<u8>) -> Set<Seq<u8>> {
    Set::new(|key: Seq<u8>| entries.contains_key(prefix + key))
}

/// Among finitely many entries, finitely many keys begin with a prefix.
pub proof fn lemma_keys_under_finite(entries: Map<Seq<u8>, Seq<u8>>, prefix: Seq<u8>)
    requires
        entries.dom().finite(),
    ensures
        keys_under(entries, prefix).finite(),
{
    let strip = |key: Seq<u8>| key.skip(prefix.len() as int);
    let stripped = entries.dom().map(strip);
    entries.dom().lemma_map_finite(strip);
    assert forall|key: Seq<u8>| keys_under(entries, prefix).contains(key) implies stripped.contains(
        key,
    ) by {
        assert(entries.dom().contains(prefix + key));
        assert(strip(prefix + key) =~= key);
    }
    lemma_len_subset(keys_under(entries, prefix), stripped);
}

/// The bytes of a bound, where there is one.
pub open spec fn bound_bytes(bound: Option<&[u8]>) -> Option<Seq<u8>> {
    match bound {
        Some(bytes) => Some(bytes@),
        None => None,
    }
}

/// `Storage::get` of `cosmwasm_std` on a `MemoryStorage`: a copy of the value
/// under `key`, or `None` where the storage has no such key.
#[verifier::external_body]
pub(crate) fn storage_get(storage: &MemoryStorage, key: &[u8]) -> (value: Option<Vec<u8>>)
    ensures
        value is Some <==> storage_entries(*storage).contains_key(key@),
        value matches Some(bytes) ==> bytes@ == storage_entries(*storage)[key@],
{
    cosmwasm_std::Storage::get(storage, key)
}

/// `Storage::set` of `cosmwasm_std` on a `MemoryStorage`: puts `value` under
/// `key`, in place of what was there, and touches no other key; the storage
/// holds finitely many keys. The outside function panics on an empty value,
/// which `requires` leaves out.
#[verifier::external_body]
pub(crate) fn storage_set(storage: &mut MemoryStorage, key: &[u8], value: &[u8])
    requires
        value@.len() > 0,
    ensures
        storage_entries(*final(storage)) == storage_entries(*old(storage)).insert(key@, value@),
        storage_entries(*final(storage)).dom().finite(),
{
    cosmwasm_std::Storage::set(storage, key, value)
}

/// `Storage::remove` of `cosmwasm_std` on a `MemoryStorage`: takes `key` and
/// its value out, touches no other key, and does nothing where the key is
/// not there; the storage holds finitely many keys.
#[verifier::external_body]
pub(crate) fn storage_remove(storage: &mut MemoryStorage, key: &[u8])
    ensures
        storage_entries(*final(storage)) == storage_entries(*old(storage)).remove(key@),
        storage_entries(*final(storage)).dom().finite(),
{
    cosmwasm_std::Storage::remove(storage, key)
}

/// The first item of `range_with_prefix` of `cw_storage_plus`, ascending, with
/// an exclusive lower bound and no upper bound: among the keys that begin with
/// `prefix`, each taken without the prefix, the first in byte order that comes
/// strictly after `start` (the first of all where there is no `start`), or
/// `None` where there is none. The outside function finds the end of the
/// prefix's range by adding one to its last byte, so the contract is for a
/// prefix that ends in a byte below 255.
#[verifier::external_body]
pub(crate) fn first_key_after(storage: &MemoryStorage, prefix: &[u8], start: Option<&[u8]>) -> (found:
    Option<Vec<u8>>)
    requires
        prefix@.len() > 0,
        prefix@.last() < 255,
    ensures
        found matches Some(key) ==> is_least(
            after(keys_under(storage_entries(*storage), prefix@), bound_bytes(start)),
            key@,
        ),
        found is None ==> forall|key: Seq<u8>|
            !after(keys_under(storage_entries(*storage), prefix@), bound_bytes(start)).contains(
                key,
            ),
{
    let lower = start.map(|bound| cw_storage_plus::RawBound::Exclusive(bound.to_vec()));
    cw_storage_plus::range_with_prefix(storage, prefix, lower, None, cosmwasm_std::Order::Ascending)
        .next()
        .map(|(key, _)| key)
}

/// `String::from_utf8` of std: the text that `bytes` encode, or `None` where
/// they are not valid UTF-8.
#[verifier::external_body]
pub(crate) fn string_from_utf8(bytes: Vec<u8>) -> (text: Option<String>)
    ensures
        text is Some <==> valid_utf8(bytes@),
        text matches Some(decoded) ==> decoded@ == decode_utf8(bytes@),
{
    String::from_utf8(bytes).ok()
}

} // verus!
