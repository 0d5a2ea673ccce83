//! A-record codec tests: binary round trips over a data set, text parsing
//! of dotted-quad literals, and the binary round trip of every record type.

use dnscore::binary::BinDecoder;
use dnscore::binary::BinEncoder;
use dnscore::lexer::Token;
use dnscore::name::Name;
use dnscore::rdata::a;
use dnscore::rdata::a::Ipv4;
use dnscore::rdata::emit_rdata;
use dnscore::rdata::ipv6_to_text;
use dnscore::rdata::read_rdata;
use dnscore::rdata::Ipv6;
use dnscore::rdata::RData;
use dnscore::rtype::RecordType;

fn get_data() -> Vec<(Ipv4, Vec<u8>)> {
    vec![
        (Ipv4(0, 0, 0, 0), vec![0, 0, 0, 0]), // base case
        (Ipv4(1, 0, 0, 0), vec![1, 0, 0, 0]),
        (Ipv4(0, 1, 0, 0), vec![0, 1, 0, 0]),
        (Ipv4(0, 0, 1, 0), vec![0, 0, 1, 0]),
        (Ipv4(0, 0, 0, 1), vec![0, 0, 0, 1]),
        (Ipv4(127, 0, 0, 1), vec![127, 0, 0, 1]),
        (Ipv4(192, 168, 64, 32), vec![192, 168, 64, 32]),
    ]
}

fn test_read_data_set(data: Vec<(Ipv4, Vec<u8>)>) {
    for (expect, bytes) in data {
        let mut decoder = BinDecoder::new(bytes);
        let got = a::read(&mut decoder).expect("read failed");
        assert_eq!(got, expect);
    }
}

fn test_emit_data_set(data: Vec<(Ipv4, Vec<u8>)>) {
    for (value, expect) in data {
        let mut encoder = BinEncoder::new();
        a::emit(&mut encoder, &value).expect("emit failed");
        assert_eq!(encoder.into_bytes(), expect);
    }
}

#[test]
fn test_parse() {
    test_read_data_set(get_data());
}

#[test]
fn test_write_to() {
    test_emit_data_set(get_data());
}

#[test]
fn a_text_round_trip() {
    let tokens = vec![Token::CharData(b"192.168.64.32".to_vec())];
    let v = a::parse(&tokens).expect("parse failed");
    assert_eq!(v, Ipv4(192, 168, 64, 32));
    assert_eq!(a::to_text(&v), b"192.168.64.32".to_vec());
}

#[test]
fn a_parse_rejects_bad_literals() {
    for bad in ["999.1.2.3", "1.2.3", "1.2.3.4.5", "01.2.3.4", "a.b.c.d", "1..2.3"] {
        let tokens = vec![Token::CharData(bad.as_bytes().to_vec())];
        assert!(a::parse(&tokens).is_err(), "accepted: {}", bad);
    }
}

#[test]
fn a_read_truncated() {
    let mut decoder = BinDecoder::new(vec![1, 2, 3]);
    assert!(a::read(&mut decoder).is_err());
}

#[test]
fn aaaa_text_round_trip() {
    let tokens = vec![Token::CharData(b"4321:0:1:2:3:4:567:89ab".to_vec())];
    let origin = Name::root();
    let rd = dnscore::rdata::parse_rdata(RecordType::AAAA, &tokens, &origin)
        .expect("parse failed");
    match &rd {
        RData::AAAA(x) => {
            assert_eq!(*x, Ipv6(0x4321, 0, 1, 2, 3, 4, 0x567, 0x89ab));
            assert_eq!(ipv6_to_text(x), b"4321:0:1:2:3:4:567:89ab".to_vec());
        },
        _ => panic!("not an AAAA rdata"),
    }
}

fn wire_round_trip(rtype: RecordType, rd: RData) {
    let mut encoder = BinEncoder::new();
    emit_rdata(&mut encoder, &rd).expect("emit failed");
    let bytes = encoder.into_bytes();
    let first = bytes.clone();
    let mut decoder = BinDecoder::new(bytes);
    let rd2 = read_rdata(&mut decoder, rtype, first.len() as u16).expect("decode failed");
    let mut encoder2 = BinEncoder::new();
    emit_rdata(&mut encoder2, &rd2).expect("re-emit failed");
    assert_eq!(encoder2.into_bytes(), first);
}

fn name(text: &str) -> Name {
    Name::parse(&text.as_bytes().to_vec(), &Name::root()).expect("bad name")
}

#[test]
fn round_trip_every_type() {
    wire_round_trip(RecordType::A, RData::A(Ipv4(26, 3, 0, 103)));
    wire_round_trip(RecordType::AAAA, RData::AAAA(Ipv6(0x4321, 0, 1, 2, 3, 4, 0x567, 0x89ab)));
    wire_round_trip(RecordType::NS, RData::NS(name("venera.isi.edu.")));
    wire_round_trip(RecordType::CNAME, RData::CNAME(name("a.isi.edu.")));
    wire_round_trip(RecordType::PTR, RData::PTR(name("a.isi.edu.")));
    wire_round_trip(
        RecordType::MX,
        RData::MX { preference: 10, exchange: name("mail.isi.edu.") },
    );
    wire_round_trip(
        RecordType::SOA,
        RData::SOA {
            mname: name("venera.isi.edu."),
            rname: name("action.domains.isi.edu."),
            serial: 20,
            refresh: 7200,
            retry: 600,
            expire: 3600000,
            minimum: 60,
        },
    );
    wire_round_trip(
        RecordType::SRV,
        RData::SRV { priority: 1, weight: 2, port: 3, target: name("short.isi.edu.") },
    );
    wire_round_trip(
        RecordType::TXT,
        RData::TXT(vec![b"I am a different".to_vec(), b"txt record".to_vec(), Vec::new()]),
    );
    wire_round_trip(RecordType::Unknown(999), RData::Unknown(vec![1, 2, 3, 4, 5]));
}

#[test]
fn emit_rejects_malformed_rdata() {
    let mut encoder = BinEncoder::new();
    // an empty TXT has no character-string to carry
    assert!(emit_rdata(&mut encoder, &RData::TXT(Vec::new())).is_err());
    // a character-string longer than 255 bytes cannot be length-prefixed
    assert!(emit_rdata(&mut encoder, &RData::TXT(vec![vec![7u8; 300]])).is_err());
    // 300 strings of 255 bytes overflow the 16-bit RDLENGTH
    let oversized: Vec<Vec<u8>> = (0..300).map(|_| vec![7u8; 255]).collect();
    assert!(emit_rdata(&mut encoder, &RData::TXT(oversized)).is_err());
    assert_eq!(encoder.into_bytes(), Vec::<u8>::new());
}
