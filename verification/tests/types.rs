use casserole::store::json::JSONMemorySHA1;
use casserole::{Casserole, Encode, Store};

use std::collections::{BTreeMap, HashMap};
use std::convert::Infallible;
use std::sync::Arc;

/// A word, folded by breaking it off into the store.
#[derive(Debug, Clone, PartialEq, Eq)]
struct Word(String);

/// The folded form of a word.
struct WordFolded(String);

impl Encode for WordFolded {
    fn encode(&self) -> Vec<u8> {
        serde_json::to_vec(&self.0).unwrap()
    }

    fn decode(bytes: &[u8]) -> Option<Self> {
        serde_json::from_slice(bytes).ok().map(WordFolded)
    }
}

impl Casserole<JSONMemorySHA1> for Word {
    type Target = WordFolded;

    fn casserole(&self, _store: &mut JSONMemorySHA1) -> Result<WordFolded, Infallible> {
        Ok(WordFolded(self.0.clone()))
    }

    fn decasserole(target: &WordFolded, _store: &mut JSONMemorySHA1) -> Result<Self, Infallible> {
        Ok(Word(target.0.clone()))
    }
}

fn roundtrip<T: Casserole<JSONMemorySHA1>>(value: &T, store: &mut JSONMemorySHA1) -> T {
    let folded = value.casserole(store).unwrap();
    T::decasserole(&folded, store).unwrap()
}

#[test]
fn plain_values_fold_to_themselves_and_store_nothing() {
    let mut store = JSONMemorySHA1::new();
    assert_eq!(42u32.casserole(&mut store).unwrap(), 42);
    assert_eq!((-7i64).casserole(&mut store).unwrap(), -7);
    assert!(true.casserole(&mut store).unwrap());
    assert_eq!("text".to_string().casserole(&mut store).unwrap(), "text");
    assert!(store.items().is_empty());
}

#[test]
fn box_arc_option_result_and_tuples_roundtrip() {
    let mut store = JSONMemorySHA1::new();
    let v: (Box<u32>, Option<String>, Result<bool, i64>) =
        (Box::new(5), Some("five".to_string()), Err(-5));
    assert_eq!(roundtrip(&v, &mut store), v);
    let w: (Arc<u8>, Option<u16>, Result<usize, ()>, (i8, i16)) =
        (Arc::new(1), None, Ok(3), (-4, 5));
    assert_eq!(roundtrip(&w, &mut store), w);
    let four: (u64, i32, isize, ()) = (1, -2, 3, ());
    assert_eq!(roundtrip(&four, &mut store), four);
}

#[test]
fn a_btree_map_folds_to_store_keys_and_restores() {
    let mut store = JSONMemorySHA1::new();
    let mut map = BTreeMap::new();
    map.insert(1u32, Word("one".to_string()));
    map.insert(2u32, Word("two".to_string()));
    let folded = map.casserole(&mut store).unwrap();
    assert_eq!(folded.as_map().len(), 2);
    assert_eq!(store.items().len(), 2);
    for (k, key) in folded.as_map() {
        let bytes = store.get(key).unwrap().unwrap();
        let expected = serde_json::to_vec(&map[k].0).unwrap();
        assert_eq!(bytes, expected);
    }
    let restored: BTreeMap<u32, Word> = Casserole::decasserole(&folded, &mut store).unwrap();
    assert_eq!(restored, map);
}

#[test]
fn equal_map_values_are_stored_once() {
    let mut store = JSONMemorySHA1::new();
    let mut map = BTreeMap::new();
    map.insert(1u32, Word("same".to_string()));
    map.insert(2u32, Word("same".to_string()));
    map.insert(3u32, Word("other".to_string()));
    let folded = map.casserole(&mut store).unwrap();
    assert_eq!(store.items().len(), 2);
    assert_eq!(folded.as_map()[&1], folded.as_map()[&2]);
    assert_ne!(folded.as_map()[&1], folded.as_map()[&3]);
}

#[test]
fn a_hash_map_folds_to_a_sorted_map_and_restores() {
    let mut store = JSONMemorySHA1::new();
    let mut map = HashMap::new();
    map.insert(30u64, Word("c".to_string()));
    map.insert(10u64, Word("a".to_string()));
    map.insert(20u64, Word("b".to_string()));
    let folded = map.casserole(&mut store).unwrap();
    let keys: Vec<u64> = folded.as_map().keys().cloned().collect();
    assert_eq!(keys, vec![10, 20, 30]);
    let restored: HashMap<u64, Word> = Casserole::decasserole(&folded, &mut store).unwrap();
    assert_eq!(restored, map);
}

#[test]
fn an_empty_map_folds_to_an_empty_map() {
    let mut store = JSONMemorySHA1::new();
    let map: BTreeMap<u32, Word> = BTreeMap::new();
    let folded = map.casserole(&mut store).unwrap();
    assert!(folded.as_map().is_empty());
    assert!(store.items().is_empty());
    let restored: BTreeMap<u32, Word> = Casserole::decasserole(&folded, &mut store).unwrap();
    assert!(restored.is_empty());
}

#[test]
fn a_stored_value_is_put_under_its_content_key() {
    let mut store = JSONMemorySHA1::new();
    let key = casserole::casserole_stored(&Word("w".to_string()), &mut store).unwrap();
    assert_eq!(key, casserole::digest::content_key_of(b"\"w\""));
    let back: Word = casserole::decasserole_stored(&key, &mut store).unwrap();
    assert_eq!(back, Word("w".to_string()));
}

#[test]
fn a_map_of_maps_roundtrips() {
    let mut store = JSONMemorySHA1::new();
    let inner: BTreeMap<u64, u64> = vec![(1, 10), (2, 20)].into_iter().collect();
    let mut map: BTreeMap<u64, BTreeMap<u64, u64>> = BTreeMap::new();
    map.insert(1, inner.clone());
    map.insert(2, inner.clone());
    map.insert(3, BTreeMap::new());
    let folded = map.casserole(&mut store).unwrap();
    assert_eq!(folded.as_map().len(), 3);
    // the two equal inner maps fold to the same store key
    assert_eq!(folded.as_map()[&1], folded.as_map()[&2]);
    assert_ne!(folded.as_map()[&1], folded.as_map()[&3]);
    // 10 and 20, and the two folded inner maps
    assert_eq!(store.items().len(), 4);
    let restored: BTreeMap<u64, BTreeMap<u64, u64>> =
        Casserole::decasserole(&folded, &mut store).unwrap();
    assert_eq!(restored, map);
}

#[test]
fn a_stored_map_is_read_back() {
    let mut store = JSONMemorySHA1::new();
    let inner: BTreeMap<u64, u64> = vec![(5, 50)].into_iter().collect();
    let key = casserole::casserole_stored(&inner, &mut store).unwrap();
    let back: BTreeMap<u64, u64> = casserole::decasserole_stored(&key, &mut store).unwrap();
    assert_eq!(back, inner);
}

#[test]
fn a_folded_map_is_written_as_json_and_read_back() {
    let mut store = JSONMemorySHA1::new();
    let map: BTreeMap<u32, u32> = vec![(1, 7)].into_iter().collect();
    let folded = map.casserole(&mut store).unwrap();
    let k = casserole::digest::content_key_of(b"7");
    assert_eq!(store.items().len(), 1);
    assert_eq!(store.get(&k).unwrap(), Some(b"7".to_vec()));
    let text = folded.encode();
    let quoted_key = serde_json::to_string(&k).unwrap();
    assert_eq!(text, format!("{{\"map\":{{\"1\":{}}}}}", quoted_key).into_bytes());
    let back = casserole::StoredValuesBTreeMap::<JSONMemorySHA1, u32>::decode(&text).unwrap();
    assert_eq!(back.as_map(), folded.as_map());
}

#[test]
fn a_folded_map_of_several_entries_reads_back() {
    let mut store = JSONMemorySHA1::new();
    let map: BTreeMap<u64, String> = vec![
        (3, "c,d".to_string()),
        (10, "a:b".to_string()),
        (200, "\"q\"".to_string()),
    ]
    .into_iter()
    .collect();
    let folded = map.casserole(&mut store).unwrap();
    let text = folded.encode();
    let back = casserole::StoredValuesBTreeMap::<JSONMemorySHA1, u64>::decode(&text).unwrap();
    assert_eq!(back.as_map(), folded.as_map());
    let empty: BTreeMap<u64, String> = BTreeMap::new();
    let folded_empty = empty.casserole(&mut store).unwrap();
    assert_eq!(folded_empty.encode(), b"{\"map\":{}}".to_vec());
    let back_empty =
        casserole::StoredValuesBTreeMap::<JSONMemorySHA1, u64>::decode(b"{\"map\":{}}").unwrap();
    assert!(back_empty.as_map().is_empty());
}

#[test]
fn malformed_folded_maps_are_refused() {
    type Folded = casserole::StoredValuesBTreeMap<JSONMemorySHA1, u64>;
    assert!(Folded::decode(b"{\"map\":{\"1\":\"k\",}}").is_none());
    assert!(Folded::decode(b"{\"map\":{\"1\"}}").is_none());
    assert!(Folded::decode(b"{\"map\":{1:\"k\"}}").is_none());
    assert!(Folded::decode(b"{\"map\":{\"2\":\"k\",\"1\":\"j\"}}").is_none());
    assert!(Folded::decode(b"{\"mop\":{}}").is_none());
    assert!(Folded::decode(b"{\"map\":{}").is_none());
    assert!(Folded::decode(b"").is_none());
}

#[test]
fn a_hash_map_folds_the_same_whatever_the_order_of_insertion() {
    let mut first: HashMap<u64, u64> = HashMap::new();
    let mut second: HashMap<u64, u64> = HashMap::new();
    for k in 0..20u64 {
        first.insert(k, k * 7);
        second.insert(19 - k, (19 - k) * 7);
    }
    let mut store1 = JSONMemorySHA1::new();
    let mut store2 = JSONMemorySHA1::new();
    let folded1 = first.casserole(&mut store1).unwrap();
    let folded2 = second.casserole(&mut store2).unwrap();
    assert_eq!(folded1.as_map(), folded2.as_map());
    for (k, key) in folded1.as_map() {
        let text = format!("{}", k * 7);
        assert_eq!(key, &casserole::digest::content_key_of(text.as_bytes()));
    }
    let mut items1 = store1.items();
    let mut items2 = store2.items();
    items1.sort();
    items2.sort();
    assert_eq!(items1, items2);
}
