use gmp::gstring::GString;

#[test]
fn round_trip_ascii() {
    let g = GString::from_raw(vec![b'1', b'2', b'3', 0]);
    assert_eq!(g.to_str().unwrap(), "123");
}

#[test]
fn round_trip_empty_text() {
    let g = GString::from_raw(vec![0]);
    assert_eq!(g.to_str().unwrap(), "");
}

#[test]
fn scan_stops_at_first_terminator() {
    let g = GString::from_raw(vec![b'a', b'b', 0, b'x', b'y', 0]);
    assert_eq!(g.to_str().unwrap(), "ab");
}

#[test]
fn multibyte_text_round_trip() {
    let mut raw = "nombre entier: 2⁶⁴".as_bytes().to_vec();
    raw.push(0);
    let g = GString::from_raw(raw);
    assert_eq!(g.to_str().unwrap(), "nombre entier: 2⁶⁴");
}

#[test]
fn ownership_is_given_up_once() {
    let g = GString::from_raw(vec![b'h', b'i', 0]);
    // consuming the handle is the one way to finalize it; the bytes keep
    // the terminator that was scanned for
    let bytes = g.into_bytes();
    assert_eq!(bytes, vec![b'h', b'i', 0]);
}

#[test]
fn malformed_text_is_reported() {
    let g = GString::from_raw(vec![0xff, 0xfe, 0]);
    assert!(g.to_str().is_err());
}
