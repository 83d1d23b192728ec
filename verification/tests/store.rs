use atomic_swap::{get, remove, save, storage_key, storage_prefix, StorageError, NAMESPACE};
use cosmwasm_std::storage_keys::{namespace_with_key, to_length_prefixed};
use cosmwasm_std::{MemoryStorage, Order, Storage};

const SWAP_JSON: &[u8] = br#"{"hash":"K7gNU3sdo+OL0wNhqoVWhr3g6s1xYv72ol/pe/Unols=","recipient":"bob","source":"alice","expires":{"at_height":123456},"balance":{"native":[{"denom":"uatom","amount":"100"}]}}"#;

fn raw_entries(storage: &MemoryStorage) -> Vec<(Vec<u8>, Vec<u8>)> {
    storage.range(None, None, Order::Ascending).collect()
}

#[test]
fn the_namespace_is_atomic_swap() {
    assert_eq!(NAMESPACE, "atomic_swap");
}

#[test]
fn the_prefix_is_the_namespace_behind_its_length() {
    assert_eq!(storage_prefix(), b"\x00\x0batomic_swap".to_vec());
    assert_eq!(storage_prefix(), to_length_prefixed(b"atomic_swap"));
}

#[test]
fn a_key_is_the_prefix_and_the_identifier() {
    assert_eq!(storage_key("swap1"), b"\x00\x0batomic_swapswap1".to_vec());
    assert_eq!(storage_key(""), b"\x00\x0batomic_swap".to_vec());
    assert_eq!(storage_key("é"), b"\x00\x0batomic_swap\xc3\xa9".to_vec());
}

#[test]
fn a_key_is_the_key_of_a_cw_storage_plus_map() {
    let map: cw_storage_plus::Map<&str, u64> = cw_storage_plus::Map::new("atomic_swap");
    for id in ["swap1", "", "a", "äöü", "swap with spaces", "\u{10348}"] {
        assert_eq!(storage_key(id), map.key(id).to_vec());
        assert_eq!(storage_key(id), namespace_with_key(&[b"atomic_swap"], id.as_bytes()));
    }
}

#[test]
fn get_finds_nothing_in_an_empty_storage() {
    let storage = MemoryStorage::new();
    assert_eq!(get(&storage, "swap1"), None);
}

#[test]
fn get_returns_what_save_stored() {
    let mut storage = MemoryStorage::new();
    assert_eq!(save(&mut storage, "swap1", SWAP_JSON), Ok(()));
    assert_eq!(get(&storage, "swap1"), Some(SWAP_JSON.to_vec()));
}

#[test]
fn get_returns_the_value_and_not_the_key() {
    let mut storage = MemoryStorage::new();
    save(&mut storage, "swap1", b"value").unwrap();
    let found = get(&storage, "swap1").unwrap();
    assert_eq!(found, b"value".to_vec());
    assert_ne!(found, storage_key("swap1"));
}

#[test]
fn save_round_trips_for_many_identifiers_and_values() {
    let mut storage = MemoryStorage::new();
    let ids = ["", "a", "swap1", "swap10", "Ünïcödé", "with\0zero", "\u{10348}"];
    for (at, id) in ids.iter().enumerate() {
        let data = vec![at as u8 + 1; at + 1];
        assert_eq!(save(&mut storage, id, &data), Ok(()));
        assert_eq!(get(&storage, id), Some(data));
    }
    for (at, id) in ids.iter().enumerate() {
        assert_eq!(get(&storage, id), Some(vec![at as u8 + 1; at + 1]));
    }
}

#[test]
fn save_replaces_what_was_stored() {
    let mut storage = MemoryStorage::new();
    save(&mut storage, "swap1", b"first").unwrap();
    save(&mut storage, "swap1", b"second").unwrap();
    assert_eq!(get(&storage, "swap1"), Some(b"second".to_vec()));
    assert_eq!(raw_entries(&storage).len(), 1);
}

#[test]
fn save_writes_one_entry_under_the_key() {
    let mut storage = MemoryStorage::new();
    save(&mut storage, "swap1", b"data").unwrap();
    assert_eq!(
        raw_entries(&storage),
        vec![(b"\x00\x0batomic_swapswap1".to_vec(), b"data".to_vec())]
    );
}

#[test]
fn save_leaves_other_identifiers_alone() {
    let mut storage = MemoryStorage::new();
    save(&mut storage, "swap1", b"one").unwrap();
    save(&mut storage, "swap2", b"two").unwrap();
    save(&mut storage, "swap", b"prefix").unwrap();
    assert_eq!(get(&storage, "swap1"), Some(b"one".to_vec()));
    assert_eq!(get(&storage, "swap2"), Some(b"two".to_vec()));
    assert_eq!(get(&storage, "swap"), Some(b"prefix".to_vec()));
    assert_eq!(get(&storage, "swap3"), None);
}

#[test]
fn save_leaves_other_namespaces_alone() {
    let mut storage = MemoryStorage::new();
    storage.set(b"config", b"settings");
    storage.set(b"\x00\x0batomic_swaqswap1", b"neighbour");
    save(&mut storage, "swap1", b"one").unwrap();
    remove(&mut storage, "swap1");
    assert_eq!(
        raw_entries(&storage),
        vec![
            (b"\x00\x0batomic_swaqswap1".to_vec(), b"neighbour".to_vec()),
            (b"config".to_vec(), b"settings".to_vec()),
        ]
    );
}

#[test]
fn save_refuses_an_empty_value() {
    let mut storage = MemoryStorage::new();
    save(&mut storage, "swap1", b"kept").unwrap();
    assert_eq!(save(&mut storage, "swap1", b""), Err(StorageError::EmptyValue));
    assert_eq!(save(&mut storage, "swap2", b""), Err(StorageError::EmptyValue));
    assert_eq!(get(&storage, "swap1"), Some(b"kept".to_vec()));
    assert_eq!(get(&storage, "swap2"), None);
}

#[test]
fn save_accepts_a_value_of_one_byte() {
    let mut storage = MemoryStorage::new();
    assert_eq!(save(&mut storage, "swap1", b"0"), Ok(()));
    assert_eq!(get(&storage, "swap1"), Some(b"0".to_vec()));
}

#[test]
fn get_finds_nothing_after_remove() {
    let mut storage = MemoryStorage::new();
    save(&mut storage, "swap1", SWAP_JSON).unwrap();
    remove(&mut storage, "swap1");
    assert_eq!(get(&storage, "swap1"), None);
    assert!(raw_entries(&storage).is_empty());
}

#[test]
fn remove_of_an_absent_identifier_changes_nothing() {
    let mut storage = MemoryStorage::new();
    remove(&mut storage, "swap1");
    assert!(raw_entries(&storage).is_empty());
    save(&mut storage, "swap2", b"two").unwrap();
    let before = raw_entries(&storage);
    remove(&mut storage, "swap1");
    remove(&mut storage, "swap");
    remove(&mut storage, "swap22");
    assert_eq!(raw_entries(&storage), before);
}

#[test]
fn remove_twice_is_remove_once() {
    let mut storage = MemoryStorage::new();
    save(&mut storage, "swap1", b"one").unwrap();
    save(&mut storage, "swap2", b"two").unwrap();
    remove(&mut storage, "swap1");
    let once = raw_entries(&storage);
    remove(&mut storage, "swap1");
    assert_eq!(raw_entries(&storage), once);
    assert_eq!(get(&storage, "swap2"), Some(b"two".to_vec()));
}

#[test]
fn a_removed_identifier_can_be_saved_again() {
    let mut storage = MemoryStorage::new();
    save(&mut storage, "swap1", b"one").unwrap();
    remove(&mut storage, "swap1");
    save(&mut storage, "swap1", b"again").unwrap();
    assert_eq!(get(&storage, "swap1"), Some(b"again".to_vec()));
}

#[test]
fn a_cw_storage_plus_map_reads_what_save_stored() {
    let map: cw_storage_plus::Map<&str, u64> = cw_storage_plus::Map::new(NAMESPACE);
    let mut storage = MemoryStorage::new();
    save(&mut storage, "answer", b"42").unwrap();
    assert_eq!(map.may_load(&storage, "answer").unwrap(), Some(42));
    assert_eq!(map.may_load(&storage, "question").unwrap(), None);
}

#[test]
fn get_reads_what_a_cw_storage_plus_map_stored() {
    let map: cw_storage_plus::Map<&str, u64> = cw_storage_plus::Map::new(NAMESPACE);
    let mut storage = MemoryStorage::new();
    map.save(&mut storage, "answer", &42).unwrap();
    assert_eq!(get(&storage, "answer"), Some(b"42".to_vec()));
    map.remove(&mut storage, "answer");
    assert_eq!(get(&storage, "answer"), None);
}
