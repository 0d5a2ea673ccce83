//! Domain-name tests: case-insensitive comparison with case-preserving
//! display, wire round trips, and compression-pointer handling.

use dnscore::binary::BinDecoder;
use dnscore::binary::BinEncoder;
use dnscore::error::DecodeError;
use dnscore::name::Name;

fn name(text: &str) -> Name {
    Name::parse(&text.as_bytes().to_vec(), &Name::root()).expect("bad name")
}

#[test]
fn case_insensitive_equal_and_hash() {
    let upper = name("A.ISI.EDU.");
    let lower = name("a.isi.edu.");
    assert!(upper == lower);
    assert_eq!(upper.case_hash(), lower.case_hash());
    let other = name("b.isi.edu.");
    assert!(upper != other);
}

#[test]
fn case_preserved_in_display() {
    let upper = name("A.ISI.EDU.");
    let lower = name("a.isi.edu.");
    assert_eq!(upper.to_text(), b"A.ISI.EDU.".to_vec());
    assert_eq!(lower.to_text(), b"a.isi.edu.".to_vec());
}

#[test]
fn relative_names_qualify_against_origin() {
    let origin = name("isi.edu.");
    let n = Name::parse(&b"venera".to_vec(), &origin).expect("bad name");
    assert_eq!(n.to_text(), b"venera.isi.edu.".to_vec());
    assert_eq!(n.label_count(), 3);
}

#[test]
fn escaped_dot_stays_in_label() {
    let n = name("action\\.domains.isi.edu.");
    assert_eq!(n.label_count(), 3);
    assert_eq!(n.to_text(), b"action\\.domains.isi.edu.".to_vec());
}

#[test]
fn numeric_escape_is_a_byte() {
    let n = name("a\\065b.");
    // \065 is 'A'; case is preserved in display
    assert_eq!(n.to_text(), b"aAb.".to_vec());
}

#[test]
fn name_wire_round_trip() {
    let n = name("venera.isi.edu.");
    let mut e = BinEncoder::new();
    n.emit(&mut e).expect("emit failed");
    let bytes = e.into_bytes();
    assert_eq!(bytes, b"\x06venera\x03isi\x03edu\x00".to_vec());
    let mut d = BinDecoder::new(bytes);
    let back = Name::read(&mut d).expect("read failed");
    assert!(back == n);
    assert_eq!(back.to_text(), b"venera.isi.edu.".to_vec());
}

#[test]
fn root_name_round_trip() {
    let root = name(".");
    assert_eq!(root.label_count(), 0);
    assert_eq!(root.to_text(), b".".to_vec());
    let mut e = BinEncoder::new();
    root.emit(&mut e).expect("emit failed");
    let bytes = e.into_bytes();
    assert_eq!(bytes, vec![0u8]);
}

#[test]
fn compression_pointer_backwards_is_followed() {
    // "isi.edu." at offset 0; at offset 9 the name "a" + pointer to 0
    let mut buffer = b"\x03isi\x03edu\x00".to_vec();
    buffer.push(1);
    buffer.push(b'a');
    buffer.push(0xC0);
    buffer.push(0x00);
    let mut d = BinDecoder::new(buffer);
    d.seek(9);
    let n = Name::read(&mut d).expect("read failed");
    assert_eq!(n.to_text(), b"a.isi.edu.".to_vec());
    // the cursor resumes right after the pointer
    assert_eq!(d.offset(), 13);
}

#[test]
fn compression_pointer_cycle_is_rejected() {
    // a pointer to itself can never make progress
    let buffer = vec![0xC0u8, 0x00];
    let mut d = BinDecoder::new(buffer);
    let r = Name::read(&mut d);
    assert_eq!(r.unwrap_err(), DecodeError::MalformedName);
}

#[test]
fn forward_pointer_is_rejected() {
    let buffer = vec![0xC0u8, 0x02, 0x01, b'a', 0x00];
    let mut d = BinDecoder::new(buffer);
    let r = Name::read(&mut d);
    assert_eq!(r.unwrap_err(), DecodeError::MalformedName);
}

#[test]
fn reserved_length_byte_is_rejected() {
    // 0x40..0xC0 is neither a label length nor a pointer
    let buffer = vec![0x50u8, b'a', 0x00];
    let mut d = BinDecoder::new(buffer);
    assert_eq!(Name::read(&mut d).unwrap_err(), DecodeError::MalformedName);
}

#[test]
fn oversized_label_is_rejected() {
    let long = "a".repeat(64);
    let text = format!("{}.", long);
    assert!(Name::parse(&text.as_bytes().to_vec(), &Name::root()).is_err());
}

#[test]
fn oversized_name_is_rejected() {
    // five 63-byte labels encode past the 255-byte cap
    let label = "a".repeat(63);
    let text = format!("{0}.{0}.{0}.{0}.{0}.", label);
    assert!(Name::parse(&text.as_bytes().to_vec(), &Name::root()).is_err());
}

#[test]
fn truncated_wire_name_is_rejected() {
    let buffer = b"\x06vene".to_vec();
    let mut d = BinDecoder::new(buffer);
    assert_eq!(Name::read(&mut d).unwrap_err(), DecodeError::Truncated);
}
