use bytes::Bytes;
use objstore::error::Error;
use objstore::label::DefaultLabel;
use objstore::object::DefaultObject;

#[test]
fn parse_splits_at_equals() {
    let l = DefaultLabel::parse_str("k=v").unwrap();
    assert_eq!(l.0, "k");
    assert_eq!(l.1, "v");
}

#[test]
fn parse_splits_at_first_equals_only() {
    let l = DefaultLabel::parse_str("key=a=b=c").unwrap();
    assert_eq!(l.0, "key");
    assert_eq!(l.1, "a=b=c");
}

#[test]
fn parse_empty_key_and_value() {
    let l = DefaultLabel::parse_str("=").unwrap();
    assert_eq!(l.0, "");
    assert_eq!(l.1, "");
}

#[test]
fn parse_without_equals_fails() {
    let r = DefaultLabel::parse_str("no separator here");
    assert!(matches!(r, Err(Error::InvalidLabelString)));
}

#[test]
fn parse_empty_text_fails() {
    let r = DefaultLabel::parse_str("");
    assert!(matches!(r, Err(Error::InvalidLabelString)));
}

#[test]
fn parse_string_matches_parse_str() {
    let l = DefaultLabel::parse_string(String::from("type=greeting")).unwrap();
    assert_eq!(l.0, "type");
    assert_eq!(l.1, "greeting");
}

#[test]
fn parse_handles_multibyte_text() {
    let l = DefaultLabel::parse_str("clé=välue").unwrap();
    assert_eq!(l.0, "clé");
    assert_eq!(l.1, "välue");
}

#[test]
fn forward_round_trip() {
    let l = DefaultLabel::parse_str("k=v").unwrap();
    let b = l.to_bytes_ltr().unwrap();
    assert_eq!(&b[..], b"k=v");
    let back = DefaultLabel::from_bytes(b).unwrap();
    assert_eq!(back.0, "k");
    assert_eq!(back.1, "v");
}

#[test]
fn reverse_text_swaps_roles() {
    let l = DefaultLabel::parse_str("k=v").unwrap();
    let b = l.to_bytes_rtl().unwrap();
    assert_eq!(&b[..], b"v=k");
}

#[test]
fn from_bytes_rtl_swaps_roles() {
    let l = DefaultLabel::from_bytes_rtl(Bytes::from(b"v=k".to_vec())).unwrap();
    assert_eq!(l.0, "k");
    assert_eq!(l.1, "v");
}

#[test]
fn from_bytes_rejects_invalid_utf8() {
    let r = DefaultLabel::from_bytes(Bytes::from(vec![0xff, 0xfe, b'=']));
    assert!(matches!(r, Err(Error::Utf8)));
}

#[test]
fn from_bytes_without_equals_fails() {
    let r = DefaultLabel::from_bytes(Bytes::from(b"plain".to_vec()));
    assert!(matches!(r, Err(Error::InvalidLabelString)));
}

#[test]
fn label_new_keeps_fields() {
    let l = DefaultLabel::new(String::from("colour"), String::from("red"));
    assert_eq!(l.0, "colour");
    assert_eq!(l.1, "red");
}

#[test]
fn label_to_ivec_both_directions() {
    let l = DefaultLabel::new(String::from("a"), String::from("b"));
    let fwd = l.to_ivec_ltr().unwrap();
    let rev = l.to_ivec_rtl().unwrap();
    let fwd_obj = DefaultObject::from_ivec(fwd).unwrap();
    let rev_obj = DefaultObject::from_ivec(rev).unwrap();
    assert_eq!(fwd_obj.content().as_slice(), b"a=b");
    assert_eq!(rev_obj.content().as_slice(), b"b=a");
}

#[test]
fn object_keeps_bytes() {
    let o = DefaultObject::new(Bytes::from(vec![0u8, 159, 146, 150])).unwrap();
    assert_eq!(o.content().as_slice(), &[0u8, 159, 146, 150]);
}

#[test]
fn object_ivec_round_trip() {
    let o = DefaultObject::new(Bytes::from(b"payload".to_vec())).unwrap();
    let iv = o.to_ivec().unwrap();
    let back = DefaultObject::from_ivec(iv).unwrap();
    assert_eq!(back.content(), o.content());
}
