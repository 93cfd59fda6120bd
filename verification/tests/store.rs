use bytes::Bytes;
use objstore::backends::memory::{Ident, MemoryBackend};
use objstore::error::Error;
use objstore::label::DefaultLabel;
use objstore::object::DefaultObject;
use objstore::storage::{StorageBackend, StorageBackendSearch};

fn obj(data: &[u8]) -> DefaultObject {
    DefaultObject::new(Bytes::from(data.to_vec())).unwrap()
}

fn label(k: &str, v: &str) -> DefaultLabel {
    DefaultLabel::new(String::from(k), String::from(v))
}

#[test]
fn greeting_scenario() {
    let mut b = MemoryBackend::open("memory").unwrap();
    let h1 = b.put(obj(b"hello"), vec![label("type", "greeting")]).unwrap();

    let got = b.get(h1.clone()).unwrap().unwrap();
    assert_eq!(got.content().as_slice(), b"hello");

    let found = b.find_by_metadata(vec![label("type", "greeting")]).unwrap().unwrap();
    assert_eq!(found.len(), 1);
    assert_eq!(found[0].to_text(), h1.to_text());

    let removed = b.delete(h1.clone()).unwrap().unwrap();
    assert_eq!(removed.content().as_slice(), b"hello");

    assert!(b.get(h1.clone()).unwrap().is_none());
    assert!(b.find_by_metadata(vec![label("type", "greeting")]).unwrap().is_none());
}

#[test]
fn new_ident_is_decimal_fnv1a() {
    let b = MemoryBackend::open("memory").unwrap();
    let id = b.new_ident(&obj(b"hello")).unwrap();
    assert_eq!(id.to_text(), "11831194018420276491");
    let empty = b.new_ident(&obj(b"")).unwrap();
    assert_eq!(empty.to_text(), "14695981039346656037");
    let one = b.new_ident(&obj(b"a")).unwrap();
    assert_eq!(one.to_text(), "12638187200555641996");
}

#[test]
fn put_is_idempotent_on_identical_content() {
    let mut b = MemoryBackend::open("memory").unwrap();
    let first = b.put(obj(b"same bytes"), vec![label("a", "1")]).unwrap();
    let second = b.put(obj(b"same bytes"), vec![label("b", "2")]).unwrap();
    assert_eq!(first.to_text(), second.to_text());
    // a single object remains, retrievable byte for byte
    let got = b.get(second).unwrap().unwrap();
    assert_eq!(got.content().as_slice(), b"same bytes");
}

#[test]
fn get_returns_payload_byte_for_byte() {
    let mut b = MemoryBackend::open("memory").unwrap();
    let payload: Vec<u8> = vec![0, 255, 128, 61, 10, 0];
    let id = b.put(obj(&payload), vec![]).unwrap();
    let got = b.get(id).unwrap().unwrap();
    assert_eq!(got.content().as_slice(), payload.as_slice());
}

#[test]
fn get_absent_is_none_not_error() {
    let b = MemoryBackend::open("memory").unwrap();
    let id = b.new_ident(&obj(b"never stored")).unwrap();
    assert!(b.get(id).unwrap().is_none());
}

#[test]
fn delete_absent_fails_with_not_found() {
    let mut b = MemoryBackend::open("memory").unwrap();
    let id = b.new_ident(&obj(b"missing")).unwrap();
    let text = id.to_text();
    match b.delete(id) {
        Err(Error::ObjectNotFound(t)) => assert_eq!(t, text),
        other => panic!("expected ObjectNotFound, got {:?}", other.map(|_| ())),
    }
}

#[test]
fn second_delete_fails_with_not_found() {
    let mut b = MemoryBackend::open("memory").unwrap();
    let id = b.put(obj(b"short lived"), vec![label("k", "v")]).unwrap();
    assert!(b.delete(id.clone()).unwrap().is_some());
    assert!(matches!(b.delete(id), Err(Error::ObjectNotFound(_))));
}

#[test]
fn find_returns_union_not_intersection() {
    let mut b = MemoryBackend::open("memory").unwrap();
    let ia = b.put(obj(b"object a"), vec![label("colour", "red")]).unwrap();
    let ib = b.put(obj(b"object b"), vec![label("shape", "disc")]).unwrap();

    let found = b
        .find_by_metadata(vec![label("colour", "red"), label("shape", "disc")])
        .unwrap()
        .unwrap();
    assert_eq!(found.len(), 2);
    let mut texts: Vec<String> = found.iter().map(|i| i.to_text()).collect();
    texts.sort();
    let mut expect = vec![ia.to_text(), ib.to_text()];
    expect.sort();
    assert_eq!(texts, expect);
}

#[test]
fn find_result_is_sorted_and_deduplicated() {
    let mut b = MemoryBackend::open("memory").unwrap();
    let both = vec![label("x", "1"), label("y", "2")];
    let ia = b.put(obj(b"first"), both.clone()).unwrap();
    let ib = b.put(obj(b"second"), both.clone()).unwrap();

    // each object carries both labels; the union still lists each
    // identity once, in ascending text order
    let found = b.find_by_metadata(both).unwrap().unwrap();
    assert_eq!(found.len(), 2);
    assert!(found[0].to_text() < found[1].to_text());
    let mut texts: Vec<String> = found.iter().map(|i| i.to_text()).collect();
    texts.sort();
    let mut expect = vec![ia.to_text(), ib.to_text()];
    expect.sort();
    assert_eq!(texts, expect);
}

#[test]
fn find_with_no_match_is_none() {
    let mut b = MemoryBackend::open("memory").unwrap();
    b.put(obj(b"something"), vec![label("k", "v")]).unwrap();
    assert!(b.find_by_metadata(vec![label("k", "other")]).unwrap().is_none());
    assert!(b.find_by_metadata(vec![]).unwrap().is_none());
}

#[test]
fn delete_retracts_every_recorded_label() {
    let mut b = MemoryBackend::open("memory").unwrap();
    let labels = vec![label("type", "note"), label("lang", "en")];
    let id = b.put(obj(b"a note"), labels).unwrap();
    b.delete(id).unwrap();
    assert!(b.find_by_metadata(vec![label("type", "note")]).unwrap().is_none());
    assert!(b.find_by_metadata(vec![label("lang", "en")]).unwrap().is_none());
}

#[test]
fn delete_keeps_other_objects_entries() {
    let mut b = MemoryBackend::open("memory").unwrap();
    let keep = b.put(obj(b"keep me"), vec![label("t", "x")]).unwrap();
    let drop = b.put(obj(b"drop me"), vec![label("t", "x")]).unwrap();
    b.delete(drop).unwrap();
    let found = b.find_by_metadata(vec![label("t", "x")]).unwrap().unwrap();
    assert_eq!(found.len(), 1);
    assert_eq!(found[0].to_text(), keep.to_text());
}

#[test]
fn relabel_reconciles_indexes() {
    let mut b = MemoryBackend::open("memory").unwrap();
    b.put(obj(b"mutable tags"), vec![label("old", "tag")]).unwrap();
    let id = b.put(obj(b"mutable tags"), vec![label("new", "tag")]).unwrap();
    // the old label set's entries are retracted, the new set's inserted
    assert!(b.find_by_metadata(vec![label("old", "tag")]).unwrap().is_none());
    let found = b.find_by_metadata(vec![label("new", "tag")]).unwrap().unwrap();
    assert_eq!(found.len(), 1);
    assert_eq!(found[0].to_text(), id.to_text());
}

#[test]
fn sync_always_succeeds() {
    let b = MemoryBackend::open("memory").unwrap();
    assert!(b.sync().is_ok());
}

#[test]
fn ident_bytes_round_trip() {
    let b = MemoryBackend::open("memory").unwrap();
    let id = b.new_ident(&obj(b"round trip")).unwrap();
    let text = id.to_text();
    let raw = id.try_into().unwrap();
    let back = Ident::try_from(raw).unwrap();
    assert_eq!(back.to_text(), text);
}

#[test]
fn ident_rejects_invalid_utf8() {
    let r = Ident::try_from(Bytes::from(vec![0xc3, 0x28]));
    assert!(matches!(r, Err(Error::Utf8)));
}

#[test]
fn backend_works_through_the_trait() {
    let mut b = <MemoryBackend as StorageBackend>::open("anywhere").unwrap();
    let id = StorageBackend::put(&mut b, obj(b"via trait"), vec![label("k", "v")]).unwrap();
    let got = StorageBackend::get(&b, id).unwrap().unwrap();
    assert_eq!(got.content().as_slice(), b"via trait");
    let found = StorageBackendSearch::find_by_metadata(&b, vec![label("k", "v")]).unwrap();
    assert_eq!(found.unwrap().len(), 1);
}

#[test]
fn empty_payload_is_storable() {
    let mut b = MemoryBackend::open("memory").unwrap();
    let id = b.put(obj(b""), vec![label("size", "zero")]).unwrap();
    let got = b.get(id.clone()).unwrap().unwrap();
    assert_eq!(got.content().as_slice(), b"");
    assert_eq!(b.delete(id).unwrap().unwrap().content().as_slice(), b"");
}

#[test]
fn label_value_may_contain_equals() {
    let mut b = MemoryBackend::open("memory").unwrap();
    let l = DefaultLabel::parse_str("query=a=b").unwrap();
    let id = b.put(obj(b"tagged"), vec![l]).unwrap();
    let found = b
        .find_by_metadata(vec![DefaultLabel::new(String::from("query"), String::from("a=b"))])
        .unwrap()
        .unwrap();
    assert_eq!(found.len(), 1);
    assert_eq!(found[0].to_text(), id.to_text());
}
