//! Zone parsing and authority lookup: the scenarios a nameserver core must
//! get right — default TTLs inherited from the SOA minimum, explicit TTL
//! overrides, SRV field order, quoted against unquoted TXT, CNAME
//! inclusion, atomic zone loads, SOA uniqueness, and DNSSEC filtering.

use dnscore::authority::Authority;
use dnscore::authority::ZoneType;
use dnscore::error::LookupError;
use dnscore::error::ParseError;
use dnscore::name::Name;
use dnscore::rdata::a::Ipv4;
use dnscore::rdata::Ipv6;
use dnscore::rdata::RData;
use dnscore::record::Record;
use dnscore::record::RecordClass;
use dnscore::rtype::RecordType;

fn name(text: &str) -> Name {
    Name::parse(&text.as_bytes().to_vec(), &Name::root()).expect("bad name")
}

fn zone_text() -> Vec<u8> {
    let mut text = String::new();
    text.push_str("@ IN SOA venera.isi.edu. action\\.domains.isi.edu. (\n");
    text.push_str(" 20 ; SERIAL\n");
    text.push_str(" 7200 ; REFRESH\n");
    text.push_str(" 600 ; RETRY\n");
    text.push_str(" 3600000 ; EXPIRE\n");
    text.push_str(" 60 ) ; MINIMUM\n");
    text.push_str(" NS a.isi.edu.\n");
    text.push_str("a A 26.3.0.103\n");
    text.push_str("short 70 A 26.3.0.104\n");
    text.push_str("b AAAA 4321:0:1:2:3:4:567:89ab\n");
    text.push_str("_ldap._tcp.service SRV 1 2 3 short\n");
    text.push_str("txt TXT \"I am a different\" \"txt record\"\n");
    text.push_str("words TXT multi word record\n");
    text.push_str("mx MX 10 mail\n");
    text.push_str("ptr PTR a\n");
    text.push_str("cname CNAME a\n");
    text.into_bytes()
}

fn loaded_authority() -> Authority {
    let mut authority = Authority::new(name("isi.edu."), ZoneType::Primary, true, false);
    authority.load_zone(&zone_text()).expect("zone load failed");
    authority
}

fn lookup_plain(authority: &Authority, qname: &str, qtype: RecordType) -> Vec<Record> {
    authority.lookup(&name(qname), qtype, false, &Vec::new())
}

#[test]
fn default_ttl_comes_from_soa_minimum() {
    let authority = loaded_authority();
    let answers = lookup_plain(&authority, "a.isi.edu.", RecordType::A);
    assert_eq!(answers.len(), 1);
    assert_eq!(answers[0].ttl(), 60);
    match answers[0].rdata() {
        RData::A(addr) => assert_eq!(*addr, Ipv4(26, 3, 0, 103)),
        _ => panic!("not an A record"),
    }
}

#[test]
fn explicit_ttl_overrides_default() {
    let authority = loaded_authority();
    let answers = lookup_plain(&authority, "short.isi.edu.", RecordType::A);
    assert_eq!(answers.len(), 1);
    assert_eq!(answers[0].ttl(), 70);
    match answers[0].rdata() {
        RData::A(addr) => assert_eq!(*addr, Ipv4(26, 3, 0, 104)),
        _ => panic!("not an A record"),
    }
}

#[test]
fn lookup_is_case_insensitive() {
    let authority = loaded_authority();
    let answers = lookup_plain(&authority, "A.ISI.EDU.", RecordType::A);
    assert_eq!(answers.len(), 1);
}

#[test]
fn aaaa_record_loads() {
    let authority = loaded_authority();
    let answers = lookup_plain(&authority, "b.isi.edu.", RecordType::AAAA);
    assert_eq!(answers.len(), 1);
    match answers[0].rdata() {
        RData::AAAA(x) => assert_eq!(*x, Ipv6(0x4321, 0, 1, 2, 3, 4, 0x567, 0x89ab)),
        _ => panic!("not a AAAA record"),
    }
}

#[test]
fn srv_fields_and_qualified_target() {
    let authority = loaded_authority();
    let answers = lookup_plain(&authority, "_ldap._tcp.service.isi.edu.", RecordType::SRV);
    assert_eq!(answers.len(), 1);
    match answers[0].rdata() {
        RData::SRV { priority, weight, port, target } => {
            assert_eq!(*priority, 1);
            assert_eq!(*weight, 2);
            assert_eq!(*port, 3);
            assert!(*target == name("short.isi.edu."));
        },
        _ => panic!("not an SRV record"),
    }
}

#[test]
fn quoted_txt_keeps_strings_whole() {
    let authority = loaded_authority();
    let answers = lookup_plain(&authority, "txt.isi.edu.", RecordType::TXT);
    assert_eq!(answers.len(), 1);
    match answers[0].rdata() {
        RData::TXT(ss) => {
            assert_eq!(ss.len(), 2);
            assert_eq!(ss[0], b"I am a different".to_vec());
            assert_eq!(ss[1], b"txt record".to_vec());
        },
        _ => panic!("not a TXT record"),
    }
}

#[test]
fn unquoted_txt_splits_on_whitespace() {
    let authority = loaded_authority();
    let answers = lookup_plain(&authority, "words.isi.edu.", RecordType::TXT);
    assert_eq!(answers.len(), 1);
    match answers[0].rdata() {
        RData::TXT(ss) => {
            assert_eq!(ss.len(), 3);
            assert_eq!(ss[0], b"multi".to_vec());
            assert_eq!(ss[1], b"word".to_vec());
            assert_eq!(ss[2], b"record".to_vec());
        },
        _ => panic!("not a TXT record"),
    }
}

#[test]
fn mx_and_ptr_and_continuation_owner() {
    let authority = loaded_authority();
    let mx = lookup_plain(&authority, "mx.isi.edu.", RecordType::MX);
    assert_eq!(mx.len(), 1);
    match mx[0].rdata() {
        RData::MX { preference, exchange } => {
            assert_eq!(*preference, 10);
            assert!(*exchange == name("mail.isi.edu."));
        },
        _ => panic!("not an MX record"),
    }
    let ptr = lookup_plain(&authority, "ptr.isi.edu.", RecordType::PTR);
    assert_eq!(ptr.len(), 1);
    // the NS line began with whitespace, so it belongs to the origin
    let ns = lookup_plain(&authority, "isi.edu.", RecordType::NS);
    assert_eq!(ns.len(), 1);
    match ns[0].rdata() {
        RData::NS(n) => assert!(*n == name("a.isi.edu.")),
        _ => panic!("not an NS record"),
    }
}

#[test]
fn cname_is_included_for_other_query_types() {
    let authority = loaded_authority();
    let answers = lookup_plain(&authority, "cname.isi.edu.", RecordType::A);
    assert_eq!(answers.len(), 1);
    match answers[0].rdata() {
        RData::CNAME(n) => assert!(*n == name("a.isi.edu.")),
        _ => panic!("not a CNAME record"),
    }
}

#[test]
fn any_returns_all_types_at_a_name() {
    let authority = loaded_authority();
    let answers = lookup_plain(&authority, "isi.edu.", RecordType::ANY);
    // the SOA and the NS both live at the origin
    assert_eq!(answers.len(), 2);
}

#[test]
fn soa_is_loaded_with_its_fields() {
    let authority = loaded_authority();
    let soa = authority.soa().expect("no SOA");
    assert_eq!(soa.ttl(), 60);
    match soa.rdata() {
        RData::SOA { mname, rname, serial, refresh, retry, expire, minimum } => {
            assert!(*mname == name("venera.isi.edu."));
            assert!(*rname == name("action\\.domains.isi.edu."));
            assert_eq!(*serial, 20);
            assert_eq!(*refresh, 7200);
            assert_eq!(*retry, 600);
            assert_eq!(*expire, 3600000);
            assert_eq!(*minimum, 60);
        },
        _ => panic!("not an SOA record"),
    }
}

#[test]
fn empty_authority_is_not_authoritative() {
    let authority = Authority::new(name("isi.edu."), ZoneType::Primary, false, false);
    assert_eq!(authority.soa().unwrap_err(), LookupError::NotAuthoritative);
}

#[test]
fn malformed_record_fails_the_whole_zone() {
    let mut authority = Authority::new(name("isi.edu."), ZoneType::Primary, true, false);
    let mut bad = String::new();
    bad.push_str("@ IN SOA venera.isi.edu. action.isi.edu. ( 20 7200 600 3600000 60 )\n");
    bad.push_str("a A 26.3.0.103\n");
    bad.push_str("bad A 999.0.0.1\n");
    assert!(authority.load_zone(&bad.into_bytes()).is_err());
    assert_eq!(authority.records().len(), 0);
}

#[test]
fn failed_reload_keeps_the_previous_zone() {
    let mut authority = loaded_authority();
    let count = authority.records().len();
    let bad = "a A not-an-address\n".as_bytes().to_vec();
    assert!(authority.load_zone(&bad).is_err());
    assert_eq!(authority.records().len(), count);
}

#[test]
fn two_soa_records_are_rejected() {
    let mut authority = Authority::new(name("isi.edu."), ZoneType::Primary, true, false);
    let mut bad = String::new();
    bad.push_str("@ IN SOA venera.isi.edu. action.isi.edu. ( 20 7200 600 3600000 60 )\n");
    bad.push_str("@ IN SOA vaxa.isi.edu. action.isi.edu. ( 21 7200 600 3600000 60 )\n");
    assert_eq!(authority.load_zone(&bad.into_bytes()).unwrap_err(), ParseError::DuplicateSoa);
    assert_eq!(authority.records().len(), 0);
}

#[test]
fn unknown_type_keyword_fails_the_zone() {
    let mut authority = Authority::new(name("isi.edu."), ZoneType::Primary, true, false);
    let bad = "a 60 IN WKS 26.3.0.103\n";
    assert!(authority.load_zone(&bad.as_bytes().to_vec()).is_err());
}

#[test]
fn record_without_any_ttl_fails_the_zone() {
    let mut authority = Authority::new(name("isi.edu."), ZoneType::Primary, true, false);
    let bad = "a A 26.3.0.103\n";
    assert_eq!(
        authority.load_zone(&bad.as_bytes().to_vec()).unwrap_err(),
        ParseError::MissingTtl,
    );
}

#[test]
fn ttl_directive_supplies_the_default() {
    let mut authority = Authority::new(name("isi.edu."), ZoneType::Primary, true, false);
    let text = "$TTL 1234\na A 26.3.0.103\n";
    authority.load_zone(&text.as_bytes().to_vec()).expect("zone load failed");
    let answers = lookup_plain(&authority, "a.isi.edu.", RecordType::A);
    assert_eq!(answers.len(), 1);
    assert_eq!(answers[0].ttl(), 1234);
}

#[test]
fn origin_directive_requalifies_names() {
    let mut authority = Authority::new(name("isi.edu."), ZoneType::Primary, true, false);
    let text = "$TTL 60\n$ORIGIN sub.isi.edu.\na A 26.3.0.103\n";
    authority.load_zone(&text.as_bytes().to_vec()).expect("zone load failed");
    let answers = lookup_plain(&authority, "a.sub.isi.edu.", RecordType::A);
    assert_eq!(answers.len(), 1);
}

#[test]
fn overflowing_numeric_literal_fails_the_zone() {
    let mut authority = Authority::new(name("isi.edu."), ZoneType::Primary, true, false);
    let bad = "a 4294967296 A 26.3.0.103\n";
    assert!(authority.load_zone(&bad.as_bytes().to_vec()).is_err());
}

#[test]
fn dnssec_records_are_filtered_by_caller_settings() {
    let mut authority = loaded_authority();
    // a DNSKEY: flags, protocol, then the algorithm byte at offset 3
    let dnskey = Record::new(
        name("isi.edu."),
        RecordType::DNSKEY,
        RecordClass::IN,
        3600,
        RData::Unknown(vec![1, 0, 3, 253]),
    )
    .expect("bad record");
    assert!(authority.insert(dnskey));
    let key_name = name("isi.edu.");
    let none = authority.lookup(&key_name, RecordType::DNSKEY, false, &Vec::new());
    assert_eq!(none.len(), 0);
    let hit = authority.lookup(&key_name, RecordType::DNSKEY, true, &vec![253]);
    assert_eq!(hit.len(), 1);
    let miss = authority.lookup(&key_name, RecordType::DNSKEY, true, &vec![8]);
    assert_eq!(miss.len(), 0);
}

#[test]
fn multiple_records_keep_insertion_order() {
    let mut authority = Authority::new(name("isi.edu."), ZoneType::Primary, true, false);
    let mut text = String::new();
    text.push_str("$TTL 60\n");
    text.push_str("multi A 26.3.0.1\n");
    text.push_str("multi A 26.3.0.2\n");
    text.push_str("multi A 26.3.0.3\n");
    authority.load_zone(&text.into_bytes()).expect("zone load failed");
    let answers = lookup_plain(&authority, "multi.isi.edu.", RecordType::A);
    assert_eq!(answers.len(), 3);
    let expect = [Ipv4(26, 3, 0, 1), Ipv4(26, 3, 0, 2), Ipv4(26, 3, 0, 3)];
    for (k, rec) in answers.iter().enumerate() {
        match rec.rdata() {
            RData::A(addr) => assert_eq!(*addr, expect[k]),
            _ => panic!("not an A record"),
        }
    }
}

#[test]
fn zone_metadata_is_kept() {
    let authority = Authority::new(name("isi.edu."), ZoneType::Secondary, true, true);
    assert_eq!(authority.kind(), ZoneType::Secondary);
    assert!(authority.axfr_allowed());
    assert!(authority.update_allowed());
}

#[test]
fn second_soa_insert_is_refused() {
    let mut authority = loaded_authority();
    let soa = Record::new(
        name("isi.edu."),
        RecordType::SOA,
        RecordClass::IN,
        60,
        RData::SOA {
            mname: name("vaxa.isi.edu."),
            rname: name("action.isi.edu."),
            serial: 21,
            refresh: 7200,
            retry: 600,
            expire: 3600000,
            minimum: 60,
        },
    )
    .expect("bad record");
    let count = authority.records().len();
    assert!(!authority.insert(soa));
    assert_eq!(authority.records().len(), count);
}
