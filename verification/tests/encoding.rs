use casserole::encoding::bytes_equal;
use casserole::store::json::JSONMemorySHA1;
use casserole::{Casserole, Encode, Store, StoredValuesBTreeMap};

use std::collections::BTreeMap;

#[test]
fn integers_encode_as_their_json_digits() {
    assert_eq!(42u32.encode(), b"42".to_vec());
    assert_eq!(0u8.encode(), b"0".to_vec());
    assert_eq!(u64::MAX.encode(), b"18446744073709551615".to_vec());
    assert_eq!((-17i32).encode(), b"-17".to_vec());
    assert_eq!(i64::MIN.encode(), b"-9223372036854775808".to_vec());
}

#[test]
fn integers_decode_only_their_canonical_text() {
    assert_eq!(u32::decode(b"42"), Some(42));
    assert_eq!(i16::decode(b"-300"), Some(-300));
    assert_eq!(u32::decode(b" 42"), None);
    assert_eq!(u32::decode(b"042"), None);
    assert_eq!(u8::decode(b"256"), None);
    assert_eq!(i8::decode(b"-129"), None);
    assert_eq!(u64::decode(b"x"), None);
}

#[test]
fn literals_encode_as_json_literals() {
    assert_eq!(true.encode(), b"true".to_vec());
    assert_eq!(false.encode(), b"false".to_vec());
    assert_eq!(().encode(), b"null".to_vec());
    assert_eq!(bool::decode(b"false"), Some(false));
    assert_eq!(bool::decode(b"TRUE"), None);
    assert_eq!(<()>::decode(b"null"), Some(()));
}

#[test]
fn strings_encode_as_json_strings() {
    assert_eq!("a\"b".to_string().encode(), b"\"a\\\"b\"".to_vec());
    assert_eq!(String::decode(b"\"a\\\"b\""), Some("a\"b".to_string()));
    assert_eq!(String::decode(b"\"\\u0061\""), None);
    assert_eq!(Box::new(7u16).encode(), b"7".to_vec());
    assert_eq!(Box::<u16>::decode(b"7"), Some(Box::new(7)));
}

#[test]
fn bytes_equal_compares_contents() {
    assert!(bytes_equal(b"abc", b"abc"));
    assert!(!bytes_equal(b"abc", b"abd"));
    assert!(!bytes_equal(b"abc", b"ab"));
    assert!(bytes_equal(b"", b""));
}

#[test]
fn a_map_of_strings_stores_each_value_as_json() {
    let mut store = JSONMemorySHA1::new();
    let mut map: BTreeMap<u32, String> = BTreeMap::new();
    map.insert(1, "one".to_string());
    map.insert(2, "two".to_string());
    let folded = map.casserole(&mut store).unwrap();
    let key = &folded.as_map()[&1];
    assert_eq!(store.get(key).unwrap(), Some(b"\"one\"".to_vec()));
    let restored: BTreeMap<u32, String> = Casserole::decasserole(&folded, &mut store).unwrap();
    assert_eq!(restored, map);
}

#[test]
fn a_map_of_numbers_roundtrips() {
    let mut store = JSONMemorySHA1::new();
    let map: BTreeMap<u64, u64> = vec![(1, 10), (2, 10), (3, 30)].into_iter().collect();
    let folded = map.casserole(&mut store).unwrap();
    assert_eq!(store.items().len(), 2);
    let restored: BTreeMap<u64, u64> = Casserole::decasserole(&folded, &mut store).unwrap();
    assert_eq!(restored, map);
}

#[test]
fn options_encode_as_enum_variants() {
    assert_eq!(None::<u32>.encode(), b"\"None\"".to_vec());
    assert_eq!(Some(5u32).encode(), b"{\"Some\":5}".to_vec());
    assert_eq!(Option::<u32>::decode(b"\"None\""), Some(None));
    assert_eq!(Option::<u32>::decode(b"{\"Some\":5}"), Some(Some(5)));
    assert_eq!(Option::<u32>::decode(b"5"), None);
    assert_eq!(Option::<u32>::decode(b"null"), None);
    assert_eq!(Option::<u32>::decode(b"{\"Some\":five}"), None);
    let nested: Option<Option<u8>> = Some(None);
    assert_eq!(nested.encode(), b"{\"Some\":\"None\"}".to_vec());
    assert_eq!(Option::<Option<u8>>::decode(&nested.encode()), Some(nested));
    assert_eq!(Option::<Option<u8>>::decode(b"\"None\""), Some(None));
    assert_eq!(std::sync::Arc::new(3i8).encode(), b"3".to_vec());
}

#[test]
fn a_map_of_optional_numbers_roundtrips() {
    let mut store = JSONMemorySHA1::new();
    let map: BTreeMap<i32, Option<u8>> = vec![(-1, None), (0, Some(0)), (1, Some(200))]
        .into_iter()
        .collect();
    let folded = map.casserole(&mut store).unwrap();
    assert_eq!(store.get(&folded.as_map()[&-1]).unwrap(), Some(b"\"None\"".to_vec()));
    assert_eq!(store.get(&folded.as_map()[&1]).unwrap(), Some(b"{\"Some\":200}".to_vec()));
    let restored: BTreeMap<i32, Option<u8>> = Casserole::decasserole(&folded, &mut store).unwrap();
    assert_eq!(restored, map);
}

#[test]
fn strings_escape_quotes_backslashes_and_controls() {
    assert_eq!("a\\b".to_string().encode(), b"\"a\\\\b\"".to_vec());
    assert_eq!("\n\t\r\u{8}\u{c}".to_string().encode(), b"\"\\n\\t\\r\\b\\f\"".to_vec());
    assert_eq!("\u{1}\u{1f}".to_string().encode(), b"\"\\u0001\\u001f\"".to_vec());
    assert_eq!("é/\u{7f}".to_string().encode(), "\"é/\u{7f}\"".as_bytes().to_vec());
    assert_eq!(String::decode(b"\"\\u001f\""), Some("\u{1f}".to_string()));
}

#[test]
fn tuples_encode_as_json_arrays() {
    assert_eq!((1u32, "a".to_string()).encode(), b"[1,\"a\"]".to_vec());
    assert_eq!(<(u32, String)>::decode(b"[1,\"a\"]"), Some((1, "a".to_string())));
    assert_eq!((1u8, -2i16, true).encode(), b"[1,-2,true]".to_vec());
    assert_eq!(<(u8, i16, bool)>::decode(b"[1,-2,true]"), Some((1, -2, true)));
    assert_eq!((1u8, 2u8, 3u8, ()).encode(), b"[1,2,3,null]".to_vec());
    assert_eq!(<(u8, u8, u8, ())>::decode(b"[1,2,3,null]"), Some((1, 2, 3, ())));
    // a comma inside a string is not taken as the one between the parts
    let v = ("a,b".to_string(), "c".to_string());
    assert_eq!(<(String, String)>::decode(&v.encode()), Some(v));
    assert_eq!(<(u32, u32)>::decode(b"[1,2"), None);
    assert_eq!(<(u32, u32)>::decode(b"[1;2]"), None);
    assert_eq!(<(u32, u32)>::decode(b"[1,2,3]"), None);
}

#[test]
fn results_encode_as_one_entry_objects() {
    let ok: Result<u32, String> = Ok(7);
    let err: Result<u32, String> = Err("no".to_string());
    assert_eq!(ok.encode(), b"{\"Ok\":7}".to_vec());
    assert_eq!(err.encode(), b"{\"Err\":\"no\"}".to_vec());
    assert_eq!(<Result<u32, String>>::decode(b"{\"Ok\":7}"), Some(Ok(7)));
    assert_eq!(<Result<u32, String>>::decode(b"{\"Err\":\"no\"}"), Some(Err("no".to_string())));
    assert_eq!(<Result<u32, String>>::decode(b"{\"Ok\":\"no\"}"), None);
    assert_eq!(<Result<u32, String>>::decode(b"7"), None);
}

#[test]
fn folded_maps_encode_as_serde_writes_them() {
    let mut store = JSONMemorySHA1::new();
    let empty: BTreeMap<u32, u32> = BTreeMap::new();
    let folded = empty.casserole(&mut store).unwrap();
    assert_eq!(folded.encode(), b"{\"map\":{}}".to_vec());
    assert!(store.items().is_empty());

    let m: BTreeMap<u32, u32> = [(1, 7), (20, 7), (3, 8)].into_iter().collect();
    let folded = m.casserole(&mut store).unwrap();
    let mut other = JSONMemorySHA1::new();
    let k7 = serde_json::to_string(&other.put(b"7").unwrap()).unwrap();
    let k8 = serde_json::to_string(&other.put(b"8").unwrap()).unwrap();
    let expected = format!("{{\"map\":{{\"1\":{},\"3\":{},\"20\":{}}}}}", k7, k8, k7);
    assert_eq!(String::from_utf8(folded.encode()).unwrap(), expected);

    let back = StoredValuesBTreeMap::<JSONMemorySHA1, u32>::decode(expected.as_bytes()).unwrap();
    assert_eq!(back.as_map(), folded.as_map());
    assert!(StoredValuesBTreeMap::<JSONMemorySHA1, u32>::decode(b"{\"map\":{\"1\":}}").is_none());
    // keys out of order are not what the map writes
    let shuffled = format!("{{\"map\":{{\"3\":{},\"1\":{}}}}}", k8, k7);
    assert!(StoredValuesBTreeMap::<JSONMemorySHA1, u32>::decode(shuffled.as_bytes()).is_none());

    // string keys are written as they are
    let s: BTreeMap<String, u32> = [("a,b".to_string(), 7)].into_iter().collect();
    let folded = s.casserole(&mut store).unwrap();
    let bytes = folded.encode();
    assert_eq!(String::from_utf8(bytes.clone()).unwrap(), format!("{{\"map\":{{\"a,b\":{}}}}}", k7));
    let back = StoredValuesBTreeMap::<JSONMemorySHA1, String>::decode(&bytes).unwrap();
    assert_eq!(back.as_map(), folded.as_map());
}
