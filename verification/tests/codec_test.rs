use todo::codec::{decode_item, encode_item};
use todo::error::Error;
use todo::models::Item;
use todo::storage::Storage;

#[test]
fn round_trip_all_absent() {
    let mut it: Item = Default::default();
    it.id = "a1".to_string();
    it.title = "title".to_string();
    it.completed = false;
    it.added = 7;
    it.modified = 9;

    let bytes = encode_item(&it);
    let back = decode_item(&bytes).unwrap();
    assert_eq!(back, it);

    let bytes_again = encode_item(&back);
    assert_eq!(bytes_again, bytes);
}

#[test]
fn round_trip_all_present() {
    let mut it: Item = Default::default();
    it.id = "idé".to_string();
    it.parent = Some("päront".to_string());
    it.children = Some(vec!["α".to_string(), "β2".to_string(), "".to_string()]);
    it.title = "tïtle ✓".to_string();
    it.description = Some("déscription".to_string());
    it.link = Some("https://example.test/ü".to_string());
    it.completed = true;
    it.added = u64::MAX;
    it.modified = 0;

    let bytes = encode_item(&it);
    let back = decode_item(&bytes).unwrap();
    assert_eq!(back, it);

    let bytes_again = encode_item(&back);
    assert_eq!(bytes_again, bytes);
}

#[test]
fn encoding_lays_fields_out_in_order() {
    let mut it: Item = Default::default();
    it.id = "A".to_string();

    let mut expected: Vec<u8> = Vec::new();
    expected.extend([1, 0, 0, 0, 0, 0, 0, 0]); // id length
    expected.push(b'A'); // id bytes
    expected.push(0); // no parent
    expected.push(0); // no children
    expected.extend([0, 0, 0, 0, 0, 0, 0, 0]); // empty title
    expected.push(0); // no description
    expected.push(0); // no link
    expected.push(0); // not completed
    expected.extend([0, 0, 0, 0, 0, 0, 0, 0]); // added
    expected.extend([0, 0, 0, 0, 0, 0, 0, 0]); // modified

    assert_eq!(encode_item(&it), expected);
}

#[test]
fn empty_bytes_are_refused() {
    assert!(decode_item(&Vec::new()).is_none());
}

#[test]
fn garbage_bytes_are_refused() {
    assert!(decode_item(&vec![7u8, 1, 2, 3]).is_none());
}

#[test]
fn truncated_record_is_refused() {
    let mut it: Item = Default::default();
    it.id = "a".to_string();
    let mut bytes = encode_item(&it);
    bytes.pop();
    assert!(decode_item(&bytes).is_none());
}

#[test]
fn trailing_bytes_are_refused() {
    let mut it: Item = Default::default();
    it.id = "a".to_string();
    let mut bytes = encode_item(&it);
    bytes.push(0);
    assert!(decode_item(&bytes).is_none());
}

#[test]
fn load_entry_restores_record() {
    let mut it: Item = Default::default();
    it.id = "k".to_string();
    it.title = "persisted".to_string();
    it.children = Some(vec!["c".to_string()]);
    let bytes = encode_item(&it);

    let mut db = Storage::new();
    db.load_entry("k".to_string(), bytes).unwrap();
    let back = db.get_item("k").unwrap().unwrap();
    assert_eq!(back, it);
}

#[test]
fn load_entry_rejects_corrupt_bytes() {
    let mut db = Storage::new();
    let err = db.load_entry("bad".to_string(), vec![9u8, 9, 9]).unwrap_err();
    assert_eq!(err, Error::DecodeError("bad".to_string()));
    assert!(db.get_item("bad").unwrap().is_none());
}
