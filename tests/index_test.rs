use lrucacherust::index::{hash_key, KeyIndex, HASH_SEED};

#[test]
fn hash_of_empty_key_is_seed() {
    assert_eq!(hash_key(&String::new()), HASH_SEED);
    assert_eq!(HASH_SEED, 0xcbf29ce484222325);
}

#[test]
fn hash_matches_fnv1a_on_ascii() {
    assert_eq!(hash_key(&"a".to_string()), 0xaf63dc4c8601ec8c);
    assert_eq!(hash_key(&"foobar".to_string()), 0x85944171f73967e8);
}

#[test]
fn hash_separates_close_keys() {
    assert_ne!(hash_key(&"ab".to_string()), hash_key(&"ba".to_string()));
}

#[test]
fn index_insert_lookup_remove() {
    let mut ix = KeyIndex::new();
    assert_eq!(ix.lookup(&"k".to_string()), None);
    ix.insert("k".to_string(), 7);
    ix.insert("j".to_string(), 3);
    assert_eq!(ix.lookup(&"k".to_string()), Some(7));
    assert_eq!(ix.lookup(&"j".to_string()), Some(3));
    ix.remove(&"k".to_string());
    assert_eq!(ix.lookup(&"k".to_string()), None);
    assert_eq!(ix.lookup(&"j".to_string()), Some(3));
}
