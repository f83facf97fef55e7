use casserole::digest::content_key_of;
use casserole::store::json::JSONMemorySHA1;
use casserole::Store;

#[test]
fn content_key_of_empty_input_is_ascii85_of_its_sha1() {
    // SHA-1 of the empty input is da39a3ee5e6b4b0d3255bfef95601890afd80709.
    assert_eq!(content_key_of(b""), "<~g,Yqr?>E1C10)*XQ!bGjYLj'd~>");
}

#[test]
fn content_key_of_hello() {
    // SHA-1 of "hello" is aaf4c61ddcc5e8a2dabede0f3b482cd9aea9434d.
    assert_eq!(content_key_of(b"hello"), "<~Wq=:Ogr8KOg:lDS4%LpUY,Oc_~>");
}

#[test]
fn put_returns_the_content_key() {
    let mut store = JSONMemorySHA1::new();
    let key = store.put(b"hello").unwrap();
    assert_eq!(key, content_key_of(b"hello"));
}

#[test]
fn get_gives_back_what_put_wrote() {
    let mut store = JSONMemorySHA1::new();
    let key = store.put(b"{\"x\":1}").unwrap();
    assert_eq!(store.get(&key).unwrap(), Some(b"{\"x\":1}".to_vec()));
}

#[test]
fn get_of_an_unknown_key_is_none() {
    let mut store = JSONMemorySHA1::new();
    store.put(b"a").unwrap();
    assert_eq!(store.get(&"<~unknown~>".to_string()).unwrap(), None);
}

#[test]
fn putting_equal_bytes_twice_stores_them_once() {
    let mut store = JSONMemorySHA1::new();
    let first = store.put(b"same").unwrap();
    let second = store.put(b"same").unwrap();
    assert_eq!(first, second);
    assert_eq!(store.items().len(), 1);
}

#[test]
fn new_store_is_empty() {
    let store = JSONMemorySHA1::new();
    assert!(store.items().is_empty());
}

#[test]
fn items_lists_every_entry_in_the_order_first_stored() {
    let mut store = JSONMemorySHA1::new();
    let ka = store.put(b"a").unwrap();
    let kb = store.put(b"b").unwrap();
    store.put(b"a").unwrap();
    let items = store.items();
    assert_eq!(items, vec![(ka, b"a".to_vec()), (kb, b"b".to_vec())]);
}

#[test]
fn get_leaves_the_store_as_it_was() {
    let mut store = JSONMemorySHA1::new();
    let key = store.put(b"x").unwrap();
    let before = store.items();
    store.get(&key).unwrap();
    assert_eq!(store.items(), before);
}

#[test]
fn a_put_value_is_read_back_after_later_puts_and_gets() {
    let mut store = JSONMemorySHA1::new();
    let key = store.put(b"7").unwrap();
    let other = store.put(b"8").unwrap();
    assert_eq!(store.get(&other).unwrap(), Some(b"8".to_vec()));
    store.put(b"7").unwrap();
    store.put(b"\"seven\"").unwrap();
    assert_eq!(store.get(&key).unwrap(), Some(b"7".to_vec()));
    assert_eq!(store.items().len(), 3);
}

#[test]
fn puts_in_either_order_leave_the_same_entries() {
    let mut first = JSONMemorySHA1::new();
    first.put(b"1").unwrap();
    first.put(b"2").unwrap();
    let mut second = JSONMemorySHA1::new();
    second.put(b"2").unwrap();
    second.put(b"1").unwrap();
    let mut a = first.items();
    let mut b = second.items();
    a.sort();
    b.sort();
    assert_eq!(a, b);
}
