use treblo::hex::{from_hex_string, to_hex_string};

#[test]
fn test_to_hex_string() {
    assert_eq!(to_hex_string(&[]), "");
    assert_eq!(to_hex_string(&[0x00, 0xff]), "00ff");
    assert_eq!(to_hex_string(&[0xfe, 0xdc, 0xba, 0x98, 0x76]), "fedcba9876");
}

#[test]
fn test_from_hex_string() {
    assert_eq!(from_hex_string(""), Some(vec![]));
    assert_eq!(from_hex_string("00ff"), Some(vec![0x00, 0xff]));
    assert_eq!(from_hex_string("fedcba9876"), Some(vec![0xfe, 0xdc, 0xba, 0x98, 0x76]));
    assert_eq!(from_hex_string("FEDCBA9876"), Some(vec![0xfe, 0xdc, 0xba, 0x98, 0x76]));
    assert_eq!(from_hex_string("fedcba987"), None);
    assert_eq!(from_hex_string("x"), None);
}

#[test]
fn test_hex_round_trip() {
    let bytes = vec![0u8, 1, 2, 0x7f, 0x80, 0xfe, 0xff];
    let s = to_hex_string(bytes.as_slice());
    assert_eq!(from_hex_string(s.as_str()), Some(bytes));
}
