//! The swap store: each swap, in its serialized form, under its identifier,
//! in a namespace of its own within the storage; and the listing of the
//! identifiers, page by page, in ascending order.

use crate::listing::{lemma_page_of_nothing, lemma_page_step, page};
use crate::storage::{
    first_key_after, keys_under, lemma_keys_under_finite, storage_entries, storage_get,
    storage_remove, storage_set, string_from_utf8,
};
use cosmwasm_std::MemoryStorage;
use vstd::prelude::*;
use vstd::utf8::{
    decode_utf8_encode_utf8, encode_utf8, encode_utf8_decode_utf8, encode_utf8_valid_utf8,
    is_ascii_chars, is_ascii_chars_encode_utf8, valid_utf8,
};

verus! {

/// Why the store refused a call.
#[derive(Clone, Copy, Debug, PartialEq, Eq, Structural)]
pub enum StorageError {
    /// A key in the namespace of the swaps is not valid UTF-8, so it names no
    /// identifier.
    InvalidKey,
    /// The serialized swap to save is empty; the storage keeps no empty value.
    EmptyValue,
}

/// The namespace of the swaps in the storage.
pub const NAMESPACE: &'static str = "atomic_swap";

/// A namespace as it stands at the front of each of its keys: its length in
/// two bytes, the high one first, and then the namespace itself.
pub open spec fn length_prefixed(namespace: Seq<u8>) -> Seq<u8> {
    seq![(namespace.len() / 256) as u8, (namespace.len() % 256) as u8] + namespace
}

/// The bytes that every key of a swap begins with.
pub open spec fn swap_prefix() -> Seq<u8> {
    length_prefixed(encode_utf8(NAMESPACE@))
}

/// The key under which the swap with identifier `id` is stored: the prefix
/// of the swaps and then the identifier in UTF-8.
pub open spec fn swap_key(id: Seq<char>) -> Seq<u8> {
    swap_prefix() + encode_utf8(id)
}

/// The swaps among `entries`: the serialized swap under each identifier that
/// has one.
pub open spec fn swaps_in(entries: Map<Seq<u8>, Seq<u8>>) -> Map<Seq<char>, Seq<u8>> {
    Map::new(
        |id: Seq<char>| entries.contains_key(swap_key(id)),
        |id: Seq<char>| entries[swap_key(id)],
    )
}

/// The swaps that `storage` holds.
pub open spec fn stored_swaps(storage: MemoryStorage) -> Map<Seq<char>, Seq<u8>> {
    swaps_in(storage_entries(storage))
}

/// The keys of the swaps that `storage` holds, each without the prefix: the
/// identifiers, as bytes.
pub open spec fn stored_ids(storage: MemoryStorage) -> Set<Seq<u8>> {
    keys_under(storage_entries(storage), swap_prefix())
}

/// The bytes of the identifier that a listing starts after, where there is
/// one.
pub open spec fn start_bytes(start: Option<&str>) -> Option<Seq<u8>> {
    match start {
        Some(id) => Some(encode_utf8(id@)),
        None => None,
    }
}

/// The prefix of the swaps, byte by byte.
pub proof fn lemma_swap_prefix_bytes()
    ensures
        swap_prefix() == seq![
            0u8, 11u8, 0x61u8, 0x74u8, 0x6fu8, 0x6du8, 0x69u8, 0x63u8, 0x5fu8, 0x73u8, 0x77u8,
            0x61u8, 0x70u8,
        ],
{
    reveal_strlit("atomic_swap");
    let name = NAMESPACE@;
    assert(is_ascii_chars(name));
    is_ascii_chars_encode_utf8(name);
    assert(swap_prefix() =~= seq![
        0u8, 11u8, 0x61u8, 0x74u8, 0x6fu8, 0x6du8, 0x69u8, 0x63u8, 0x5fu8, 0x73u8, 0x77u8,
        0x61u8, 0x70u8,
    ]);
}

/// Two identifiers have the same key only if they are the same.
pub proof fn lemma_swap_key_injective(a: Seq<char>, b: Seq<char>)
    requires
        swap_key(a) == swap_key(b),
    ensures
        a == b,
{
    let prefix = swap_prefix();
    assert(encode_utf8(a) =~= swap_key(a).skip(prefix.len() as int));
    assert(encode_utf8(b) =~= swap_key(b).skip(prefix.len() as int));
    encode_utf8_decode_utf8(a);
    encode_utf8_decode_utf8(b);
}

/// Storing under the key of an identifier changes the swap of that
/// identifier and of no other.
pub proof fn lemma_swaps_after_insert(entries: Map<Seq<u8>, Seq<u8>>, id: Seq<char>, data: Seq<u8>)
    ensures
        swaps_in(entries.insert(swap_key(id), data)) == swaps_in(entries).insert(id, data),
{
    let left = swaps_in(entries.insert(swap_key(id), data));
    let right = swaps_in(entries).insert(id, data);
    assert forall|other: Seq<char>| left.contains_key(other) <==> right.contains_key(other) by {
        if swap_key(other) == swap_key(id) {
            lemma_swap_key_injective(other, id);
        }
    }
    assert forall|other: Seq<char>| left.contains_key(other) implies left[other]
        == right[other] by {
        if swap_key(other) == swap_key(id) {
            lemma_swap_key_injective(other, id);
        }
    }
    assert(left =~= right);
}

/// Removing the key of an identifier takes the swap of that identifier out
/// and no other.
pub proof fn lemma_swaps_after_remove(entries: Map<Seq<u8>, Seq<u8>>, id: Seq<char>)
    ensures
        swaps_in(entries.remove(swap_key(id))) == swaps_in(entries).remove(id),
{
    let left = swaps_in(entries.remove(swap_key(id)));
    let right = swaps_in(entries).remove(id);
    assert forall|other: Seq<char>| left.contains_key(other) <==> right.contains_key(other) by {
        if swap_key(other) == swap_key(id) {
            lemma_swap_key_injective(other, id);
        }
    }
    assert(left =~= right);
}

/// Round trip: after a swap was saved under an identifier, looking the
/// identifier up finds that swap.
pub proof fn lemma_get_after_save(entries: Map<Seq<u8>, Seq<u8>>, id: Seq<char>, data: Seq<u8>)
    ensures
        swaps_in(entries.insert(swap_key(id), data)).contains_key(id),
        swaps_in(entries.insert(swap_key(id), data))[id] == data,
{
}

/// After an identifier was removed, looking it up finds nothing; and removing
/// an identifier that has no swap leaves the store as it was.
pub proof fn lemma_get_after_remove(entries: Map<Seq<u8>, Seq<u8>>, id: Seq<char>)
    ensures
        !swaps_in(entries.remove(swap_key(id))).contains_key(id),
        !swaps_in(entries).contains_key(id) ==> entries.remove(swap_key(id)) == entries,
{
    if !swaps_in(entries).contains_key(id) {
        assert(entries.remove(swap_key(id)) =~= entries);
    }
}

/// The namespace with its length in front.
fn length_prefixed_bytes(namespace: &[u8]) -> (prefix: Vec<u8>)
    requires
        namespace@.len() <= 0xFFFF,
    ensures
        prefix@ == length_prefixed(namespace@),
{
    let len = namespace.len();
    let mut prefix: Vec<u8> = Vec::new();
    prefix.push((len / 256) as u8);
    prefix.push((len % 256) as u8);
    prefix.extend_from_slice(namespace);
    prefix
}

/// The bytes that every key of a swap begins with.
pub fn storage_prefix() -> (prefix: Vec<u8>)
    ensures
        prefix@ == swap_prefix(),
{
    proof {
        lemma_swap_prefix_bytes();
        assert(swap_prefix().len() == 13);
    }
    length_prefixed_bytes(NAMESPACE.as_bytes())
}

/// The key under which the swap with identifier `id` is stored.
pub fn storage_key(id: &str) -> (key: Vec<u8>)
    ensures
        key@ == swap_key(id@),
{
    let mut key = storage_prefix();
    key.extend_from_slice(id.as_bytes());
    key
}

/// The serialized swap stored under `id`, or `None` where there is none.
pub fn get(storage: &MemoryStorage, id: &str) -> (found: Option<Vec<u8>>)
    ensures
        found is Some <==> stored_swaps(*storage).contains_key(id@),
        found matches Some(data) ==> data@ == stored_swaps(*storage)[id@],
{
    let key = storage_key(id);
    storage_get(storage, key.as_slice())
}

/// Stores the serialized swap `data` under `id`, in place of what was stored
/// there. No other identifier and nothing outside the namespace of the swaps
/// changes. An empty `data` is refused and leaves the storage as it was.
pub fn save(storage: &mut MemoryStorage, id: &str, data: &[u8]) -> (saved: Result<
    (),
    StorageError,
>)
    ensures
        saved is Err <==> data@.len() == 0,
        saved matches Err(error) ==> error == StorageError::EmptyValue && *final(storage) == *old(
            storage,
        ),
        saved is Ok ==> storage_entries(*final(storage)) == storage_entries(*old(storage)).insert(
            swap_key(id@),
            data@,
        ),
        saved is Ok ==> stored_swaps(*final(storage)) == stored_swaps(*old(storage)).insert(
            id@,
            data@,
        ),
        saved is Ok ==> stored_ids(*final(storage)).finite(),
{
    if data.len() == 0 {
        return Err(StorageError::EmptyValue);
    }
    let key = storage_key(id);
    storage_set(storage, key.as_slice(), data);
    proof {
        lemma_swaps_after_insert(storage_entries(*old(storage)), id@, data@);
        lemma_keys_under_finite(storage_entries(*storage), swap_prefix());
    }
    Ok(())
}

/// Takes the swap stored under `id` out of the store. No other identifier
/// and nothing outside the namespace of the swaps changes; where `id` has no
/// swap, nothing changes at all.
pub fn remove(storage: &mut MemoryStorage, id: &str)
    ensures
        storage_entries(*final(storage)) == storage_entries(*old(storage)).remove(swap_key(id@)),
        stored_swaps(*final(storage)) == stored_swaps(*old(storage)).remove(id@),
        !stored_swaps(*final(storage)).contains_key(id@),
        stored_ids(*final(storage)).finite(),
{
    let key = storage_key(id);
    storage_remove(storage, key.as_slice());
    proof {
        lemma_swaps_after_remove(storage_entries(*old(storage)), id@);
        lemma_keys_under_finite(storage_entries(*storage), swap_prefix());
    }
}

/// The keys that a listing of `storage` from `start` with `limit` covers:
/// the first `limit` stored identifiers, as bytes, that come strictly after
/// `start` in ascending byte order.
pub open spec fn listed_keys(storage: MemoryStorage, start: Option<&str>, limit: usize) -> Seq<
    Seq<u8>,
> {
    page(stored_ids(storage), start_bytes(start), limit as nat)
}

/// The identifiers of the stored swaps, in ascending byte order: those that
/// come strictly after `start` (all where there is no `start`), and of these
/// the first `limit`, or all where there are fewer. To go on after a page,
/// pass its last identifier as the next `start`.
///
/// The call fails where one of the keys that it covers is not valid UTF-8,
/// and only there.
pub fn all_swap_ids(storage: &MemoryStorage, start: Option<&str>, limit: usize) -> (listed: Result<
    Vec<String>,
    StorageError,
>)
    ensures
        listed is Ok <==> forall|i: int|
            0 <= i < listed_keys(*storage, start, limit).len() ==> valid_utf8(
                #[trigger] listed_keys(*storage, start, limit)[i],
            ),
        listed matches Err(error) ==> error == StorageError::InvalidKey,
        listed matches Ok(ids) ==> {
            &&& ids@.len() == listed_keys(*storage, start, limit).len()
            &&& ids@.len() <= limit
            &&& forall|i: int|
                0 <= i < ids@.len() ==> encode_utf8((#[trigger] ids@[i])@) == listed_keys(
                    *storage,
                    start,
                    limit,
                )[i]
        },
        limit == 0 ==> (listed matches Ok(ids) && ids@.len() == 0),
{
    let prefix = storage_prefix();
    let mut ids: Vec<String> = Vec::new();
    let ghost keys = stored_ids(*storage);
    let ghost wanted = listed_keys(*storage, start, limit);
    let ghost mut cursor = start_bytes(start);
    proof {
        lemma_swap_prefix_bytes();
    }
    while ids.len() < limit
        invariant
            prefix@ == swap_prefix(),
            prefix@.len() == 13,
            prefix@.last() < 255,
            keys == stored_ids(*storage),
            wanted == listed_keys(*storage, start, limit),
            ids@.len() <= limit,
            ids@.len() <= wanted.len(),
            forall|i: int| 0 <= i < ids@.len() ==> encode_utf8((#[trigger] ids@[i])@) == wanted[i],
            cursor == if ids@.len() == 0 {
                start_bytes(start)
            } else {
                Some(encode_utf8(ids@[ids@.len() - 1]@))
            },
            wanted == wanted.take(ids@.len() as int) + page(
                keys,
                cursor,
                (limit - ids@.len()) as nat,
            ),
        ensures
            ids@.len() == wanted.len(),
        decreases limit - ids@.len(),
    {
        let found = if ids.len() == 0 {
            let bound: Option<&[u8]> = match start {
                Some(id) => Some(id.as_bytes()),
                None => None,
            };
            first_key_after(storage, prefix.as_slice(), bound)
        } else {
            let last = &ids[ids.len() - 1];
            first_key_after(storage, prefix.as_slice(), Some(last.as_str().as_bytes()))
        };
        let ghost taken = ids@.len();
        let ghost room = (limit - taken) as nat;
        match found {
            None => {
                proof {
                    lemma_page_of_nothing(keys, cursor, room);
                    assert(wanted =~= wanted.take(taken as int));
                }
                break ;
            },
            Some(key) => {
                let ghost key_bytes = key@;
                proof {
                    lemma_page_step(keys, cursor, room, key_bytes);
                    assert(wanted[taken as int] == key_bytes);
                }
                match string_from_utf8(key) {
                    None => {
                        return Err(StorageError::InvalidKey);
                    },
                    Some(id) => {
                        proof {
                            decode_utf8_encode_utf8(key_bytes);
                            let rest = page(keys, Some(key_bytes), (room - 1) as nat);
                            assert(wanted =~= wanted.take((taken + 1) as int) + rest);
                        }
                        ids.push(id);
                        proof {
                            cursor = Some(key_bytes);
                        }
                    },
                }
            },
        }
    }
    proof {
        assert forall|i: int| 0 <= i < wanted.len() implies valid_utf8(#[trigger] wanted[i]) by {
            encode_utf8_valid_utf8(ids@[i]@);
        }
    }
    Ok(ids)
}

} // verus!
