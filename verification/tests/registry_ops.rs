use godata::registry::{decode_value, make_key, make_value};

#[test]
fn record_encoding_round_trip() {
    assert_eq!(make_key("proj", "col"), "proj/col");
    let value = make_value("local", "/store/col/proj");
    assert_eq!(value, "local:/store/col/proj");
    let parts = decode_value(&value).unwrap();
    assert_eq!(parts.0, "local");
    assert_eq!(parts.1, "/store/col/proj");
}

#[test]
fn corrupt_values_do_not_decode() {
    assert!(decode_value("no separator").is_none());
    assert!(decode_value("a:b:c").is_none());
    assert!(decode_value("").is_none());
    let empty_fields = decode_value(":").unwrap();
    assert_eq!(empty_fields.0, "");
    assert_eq!(empty_fields.1, "");
}
