//! Record-data variant registry: one codec per record type — binary decode,
//! binary encode, and text-token parse — with a closed tagged variant and an
//! opaque case that preserves the raw bytes of unrecognized types.

pub mod a;

use vstd::prelude::*;

use crate::binary::u16_bytes;
use crate::binary::u32_bytes;
use crate::binary::char_string_bytes;
use crate::binary::BinDecoder;
use crate::binary::BinEncoder;
use crate::error::DecodeError;
use crate::error::EncodeError;
use crate::error::ParseError;
use crate::lexer::Token;
use crate::lexer::TokenV;
use crate::lexer::tokens_view;
use crate::lexer::tokv_bytes;
use crate::name::labels_wf;
use crate::name::name_bytes;
use crate::name::name_wf;
use crate::name::take_labels;
use crate::name::labels_bytes;
use crate::name::lemma_take_labels_of_name;
use crate::name::Name;
use crate::rdata::a::Ipv4;
use crate::rdata::a::ipv4_bytes;
use crate::rtype::RecordType;
use crate::text::strings_view;

verus! {

/// An IPv6 address: eight 16-bit groups, most significant first.
#[derive(Clone, Copy, Debug, PartialEq, Eq, Structural)]
pub struct Ipv6(
    pub u16,
    pub u16,
    pub u16,
    pub u16,
    pub u16,
    pub u16,
    pub u16,
    pub u16,
);

/// The wire bytes of an AAAA record's rdata: the eight groups, big-endian.
pub open spec fn ipv6_bytes(x: Ipv6) -> Seq<u8> {
    u16_bytes(x.0) + u16_bytes(x.1) + u16_bytes(x.2) + u16_bytes(x.3) + u16_bytes(x.4)
        + u16_bytes(x.5) + u16_bytes(x.6) + u16_bytes(x.7)
}

/// The mathematical value of a record's data: what the contracts speak of.
/// Domain names are label sequences; character-strings are byte sequences.
#[verifier::ext_equal]
pub enum RDataV {
    A(Ipv4),
    AAAA(Ipv6),
    CNAME(Seq<Seq<u8>>),
    MX { preference: u16, exchange: Seq<Seq<u8>> },
    NS(Seq<Seq<u8>>),
    PTR(Seq<Seq<u8>>),
    SOA {
        mname: Seq<Seq<u8>>,
        rname: Seq<Seq<u8>>,
        serial: u32,
        refresh: u32,
        retry: u32,
        expire: u32,
        minimum: u32,
    },
    SRV { priority: u16, weight: u16, port: u16, target: Seq<Seq<u8>> },
    TXT(Seq<Seq<u8>>),
    Unknown(Seq<u8>),
}

/// A record's data: a closed tagged variant, one case per supported type,
/// and an opaque case that carries the raw rdata of any other type so that
/// well-formed but unsupported records still load and re-emit.
#[derive(Debug, PartialEq)]
pub enum RData {
    A(Ipv4),
    AAAA(Ipv6),
    CNAME(Name),
    MX { preference: u16, exchange: Name },
    NS(Name),
    PTR(Name),
    SOA { mname: Name, rname: Name, serial: u32, refresh: u32, retry: u32, expire: u32, minimum: u32 },
    SRV { priority: u16, weight: u16, port: u16, target: Name },
    TXT(Vec<Vec<u8>>),
    Unknown(Vec<u8>),
}

impl View for RData {
    type V = RDataV;

    open spec fn view(&self) -> RDataV {
        match self {
            RData::A(x) => RDataV::A(*x),
            RData::AAAA(x) => RDataV::AAAA(*x),
            RData::CNAME(n) => RDataV::CNAME(n@),
            RData::MX { preference, exchange } => RDataV::MX {
                preference: *preference,
                exchange: exchange@,
            },
            RData::NS(n) => RDataV::NS(n@),
            RData::PTR(n) => RDataV::PTR(n@),
            RData::SOA { mname, rname, serial, refresh, retry, expire, minimum } => RDataV::SOA {
                mname: mname@,
                rname: rname@,
                serial: *serial,
                refresh: *refresh,
                retry: *retry,
                expire: *expire,
                minimum: *minimum,
            },
            RData::SRV { priority, weight, port, target } => RDataV::SRV {
                priority: *priority,
                weight: *weight,
                port: *port,
                target: target@,
            },
            RData::TXT(ss) => RDataV::TXT(strings_view(*ss)),
            RData::Unknown(b) => RDataV::Unknown(b@),
        }
    }
}

/// The wire bytes of a TXT rdata: each character-string length-prefixed.
pub open spec fn txt_bytes(ss: Seq<Seq<u8>>) -> Seq<u8>
    decreases ss.len(),
{
    if ss.len() == 0 {
        Seq::empty()
    } else {
        char_string_bytes(ss[0]) + txt_bytes(ss.drop_first())
    }
}

/// Parse a whole byte region as consecutive character-strings.
pub open spec fn take_char_strings(s: Seq<u8>) -> Option<Seq<Seq<u8>>>
    decreases s.len(),
{
    if s.len() == 0 {
        Some(Seq::empty())
    } else if s.len() < 1 + s[0] {
        None
    } else {
        match take_char_strings(s.skip(1 + s[0] as int)) {
            Some(rest) => Some(seq![s.subrange(1, 1 + s[0] as int)] + rest),
            None => None,
        }
    }
}

/// Parsing the encoding of character-strings recovers exactly them.
pub proof fn lemma_take_char_strings_of_txt(ss: Seq<Seq<u8>>)
    requires
        forall|i: int| 0 <= i < ss.len() ==> (#[trigger] ss[i]).len() <= 255,
    ensures
        take_char_strings(txt_bytes(ss)) == Some(ss),
    decreases ss.len(),
{
    let s = txt_bytes(ss);
    if ss.len() == 0 {
        assert(ss =~= Seq::<Seq<u8>>::empty());
    } else {
        let n = ss[0].len() as int;
        assert(s == char_string_bytes(ss[0]) + txt_bytes(ss.drop_first()));
        assert(s[0] == ss[0].len() as u8);
        assert(s.len() >= 1 + n);
        assert(s.subrange(1, 1 + n) =~= ss[0]);
        assert(s.skip(1 + n) =~= txt_bytes(ss.drop_first()));
        lemma_take_char_strings_of_txt(ss.drop_first());
        assert(seq![s.subrange(1, 1 + n)] + ss.drop_first() =~= ss);
    }
}

/// The TXT encoding distributes over concatenation.
pub proof fn lemma_txt_bytes_concat(a: Seq<Seq<u8>>, b: Seq<Seq<u8>>)
    ensures
        txt_bytes(a + b) == txt_bytes(a) + txt_bytes(b),
    decreases a.len(),
{
    if a.len() == 0 {
        assert(a + b =~= b);
        assert(txt_bytes(a) + txt_bytes(b) =~= txt_bytes(b));
    } else {
        assert((a + b).drop_first() =~= a.drop_first() + b);
        lemma_txt_bytes_concat(a.drop_first(), b);
        assert(txt_bytes(a + b) =~= txt_bytes(a) + txt_bytes(b));
    }
}

/// A well-formed rdata value: names are well-formed, TXT has at least one
/// character-string of at most 255 bytes each, opaque rdata fits in the
/// 16-bit RDLENGTH.
pub open spec fn rdata_wf(v: RDataV) -> bool {
    match v {
        RDataV::A(_) => true,
        RDataV::AAAA(_) => true,
        RDataV::CNAME(n) => name_wf(n),
        RDataV::MX { exchange, .. } => name_wf(exchange),
        RDataV::NS(n) => name_wf(n),
        RDataV::PTR(n) => name_wf(n),
        RDataV::SOA { mname, rname, .. } => name_wf(mname) && name_wf(rname),
        RDataV::SRV { target, .. } => name_wf(target),
        RDataV::TXT(ss) => ss.len() >= 1 && (forall|i: int|
            0 <= i < ss.len() ==> (#[trigger] ss[i]).len() <= 255) && txt_bytes(ss).len()
            <= 0xFFFF,
        RDataV::Unknown(b) => b.len() <= 0xFFFF,
    }
}

/// The wire encoding of a record's data, per its RFC layout.
pub open spec fn rdata_bytes(v: RDataV) -> Seq<u8> {
    match v {
        RDataV::A(x) => ipv4_bytes(x),
        RDataV::AAAA(x) => ipv6_bytes(x),
        RDataV::CNAME(n) => name_bytes(n),
        RDataV::MX { preference, exchange } => u16_bytes(preference) + name_bytes(exchange),
        RDataV::NS(n) => name_bytes(n),
        RDataV::PTR(n) => name_bytes(n),
        RDataV::SOA { mname, rname, serial, refresh, retry, expire, minimum } => name_bytes(mname)
            + name_bytes(rname) + u32_bytes(serial) + u32_bytes(refresh) + u32_bytes(retry)
            + u32_bytes(expire) + u32_bytes(minimum),
        RDataV::SRV { priority, weight, port, target } => u16_bytes(priority) + u16_bytes(weight)
            + u16_bytes(port) + name_bytes(target),
        RDataV::TXT(ss) => txt_bytes(ss),
        RDataV::Unknown(b) => b,
    }
}

/// The record types with a dedicated codec.
pub open spec fn has_codec(rt: RecordType) -> bool {
    rt == RecordType::A || rt == RecordType::AAAA || rt == RecordType::CNAME || rt
        == RecordType::MX || rt == RecordType::NS || rt == RecordType::PTR || rt
        == RecordType::SOA || rt == RecordType::SRV || rt == RecordType::TXT
}

/// The rdata variant tag agrees with the record's declared type; the two
/// are never allowed to diverge.
pub open spec fn rdata_matches(rt: RecordType, v: RDataV) -> bool {
    match v {
        RDataV::A(_) => rt == RecordType::A,
        RDataV::AAAA(_) => rt == RecordType::AAAA,
        RDataV::CNAME(_) => rt == RecordType::CNAME,
        RDataV::MX { .. } => rt == RecordType::MX,
        RDataV::NS(_) => rt == RecordType::NS,
        RDataV::PTR(_) => rt == RecordType::PTR,
        RDataV::SOA { .. } => rt == RecordType::SOA,
        RDataV::SRV { .. } => rt == RecordType::SRV,
        RDataV::TXT(_) => rt == RecordType::TXT,
        RDataV::Unknown(_) => !has_codec(rt),
    }
}

/// The wire at the cursor holds exactly the encoding of `v`, declared with
/// length `rdlen`.
pub open spec fn wire_holds(d: BinDecoder, rt: RecordType, rdlen: int, v: RDataV) -> bool {
    &&& rdata_wf(v)
    &&& rdata_matches(rt, v)
    &&& rdata_bytes(v).len() == rdlen
    &&& d.position() + rdlen <= d.bytes().len()
    &&& d.bytes().subrange(d.position(), d.position() + rdlen) == rdata_bytes(v)
}

/// The decode returned exactly the value `v`.
pub open spec fn decoded_exactly(r: Result<RData, DecodeError>, v: RDataV) -> bool {
    match r {
        Ok(rd) => rd@ == v,
        Err(_) => false,
    }
}

/// Two 16-bit values with the same wire bytes are equal.
pub proof fn lemma_u16_bytes_injective(x: u16, y: u16)
    requires
        u16_bytes(x) == u16_bytes(y),
    ensures
        x == y,
{
    assert(u16_bytes(x)[0] == u16_bytes(y)[0]);
    assert(u16_bytes(x)[1] == u16_bytes(y)[1]);
    assert(x == (x / 256) * 256 + x % 256);
    assert(y == (y / 256) * 256 + y % 256);
}

/// Two 32-bit values with the same wire bytes are equal.
pub proof fn lemma_u32_bytes_injective(x: u32, y: u32)
    requires
        u32_bytes(x) == u32_bytes(y),
    ensures
        x == y,
{
    assert(u32_bytes(x)[0] == u32_bytes(y)[0]);
    assert(u32_bytes(x)[1] == u32_bytes(y)[1]);
    assert(u32_bytes(x)[2] == u32_bytes(y)[2]);
    assert(u32_bytes(x)[3] == u32_bytes(y)[3]);
    lemma_u32_recompose(x);
    lemma_u32_recompose(y);
}

/// A 32-bit value is recovered from its big-endian bytes.
pub proof fn lemma_u32_recompose(x: u32)
    ensures
        x == (x / 0x1000000) * 0x1000000 + ((x / 0x10000) % 256) * 0x10000 + ((x / 256) % 256)
            * 256 + x % 256,
{
    assert(x == (x / 256) * 256 + x % 256);
    assert(x / 256 == ((x / 256) / 256) * 256 + (x / 256) % 256);
    assert((x / 256) / 256 == x / 0x10000) by (nonlinear_arith);
    assert(x / 0x10000 == ((x / 0x10000) / 256) * 256 + (x / 0x10000) % 256);
    assert((x / 0x10000) / 256 == x / 0x1000000) by (nonlinear_arith);
}

/// Parsing the wire encoding of a well-formed name, followed by anything,
/// yields exactly its labels.
pub proof fn lemma_take_labels_of_name_bytes(ls: Seq<Seq<u8>>, rest: Seq<u8>)
    requires
        labels_wf(ls),
    ensures
        take_labels(name_bytes(ls) + rest) == Some((ls, name_bytes(ls).len() as int)),
{
    assert(name_bytes(ls) + rest =~= labels_bytes(ls) + seq![0u8] + rest);
    lemma_take_labels_of_name(ls, rest);
}

/// Round-trip law, stated over encodings: the wire encoding is injective on
/// well-formed rdata of one record type, so together with `read_rdata`'s
/// `wire_holds` clause and `emit_rdata`'s exact output, decoding what was
/// emitted returns the same value and re-emitting it the same bytes.
#[verifier::rlimit(100)]
pub proof fn lemma_rdata_bytes_injective(rt: RecordType, v1: RDataV, v2: RDataV)
    requires
        rdata_wf(v1),
        rdata_wf(v2),
        rdata_matches(rt, v1),
        rdata_matches(rt, v2),
        rdata_bytes(v1) == rdata_bytes(v2),
    ensures
        v1 == v2,
{
    match (v1, v2) {
        (RDataV::A(x), RDataV::A(y)) => {
            assert(ipv4_bytes(x)[0] == ipv4_bytes(y)[0]);
            assert(ipv4_bytes(x)[1] == ipv4_bytes(y)[1]);
            assert(ipv4_bytes(x)[2] == ipv4_bytes(y)[2]);
            assert(ipv4_bytes(x)[3] == ipv4_bytes(y)[3]);
        },
        (RDataV::AAAA(x), RDataV::AAAA(y)) => {
            lemma_ipv6_group(x, y, 0);
            lemma_ipv6_group(x, y, 1);
            lemma_ipv6_group(x, y, 2);
            lemma_ipv6_group(x, y, 3);
            lemma_ipv6_group(x, y, 4);
            lemma_ipv6_group(x, y, 5);
            lemma_ipv6_group(x, y, 6);
            lemma_ipv6_group(x, y, 7);
        },
        (RDataV::CNAME(n1), RDataV::CNAME(n2)) => {
            lemma_name_bytes_injective(n1, n2);
        },
        (RDataV::NS(n1), RDataV::NS(n2)) => {
            lemma_name_bytes_injective(n1, n2);
        },
        (RDataV::PTR(n1), RDataV::PTR(n2)) => {
            lemma_name_bytes_injective(n1, n2);
        },
        (RDataV::MX { preference: p1, exchange: e1 }, RDataV::MX {
            preference: p2,
            exchange: e2,
        }) => {
            let b1 = rdata_bytes(v1);
            assert(u16_bytes(p1) =~= b1.subrange(0, 2));
            assert(u16_bytes(p2) =~= b1.subrange(0, 2));
            lemma_u16_bytes_injective(p1, p2);
            assert(name_bytes(e1) =~= b1.skip(2));
            assert(name_bytes(e2) =~= b1.skip(2));
            lemma_name_bytes_injective(e1, e2);
        },
        (RDataV::SRV { priority: p1, weight: w1, port: o1, target: t1 }, RDataV::SRV {
            priority: p2,
            weight: w2,
            port: o2,
            target: t2,
        }) => {
            let b1 = rdata_bytes(v1);
            assert(u16_bytes(p1) =~= b1.subrange(0, 2));
            assert(u16_bytes(p2) =~= b1.subrange(0, 2));
            assert(u16_bytes(w1) =~= b1.subrange(2, 4));
            assert(u16_bytes(w2) =~= b1.subrange(2, 4));
            assert(u16_bytes(o1) =~= b1.subrange(4, 6));
            assert(u16_bytes(o2) =~= b1.subrange(4, 6));
            lemma_u16_bytes_injective(p1, p2);
            lemma_u16_bytes_injective(w1, w2);
            lemma_u16_bytes_injective(o1, o2);
            assert(name_bytes(t1) =~= b1.skip(6));
            assert(name_bytes(t2) =~= b1.skip(6));
            lemma_name_bytes_injective(t1, t2);
        },
        (RDataV::SOA { .. }, RDataV::SOA { .. }) => {
            lemma_soa_bytes_injective(v1, v2);
        },
        (RDataV::TXT(ss1), RDataV::TXT(ss2)) => {
            lemma_take_char_strings_of_txt(ss1);
            lemma_take_char_strings_of_txt(ss2);
        },
        (RDataV::Unknown(b1), RDataV::Unknown(b2)) => {
        },
        _ => {
            assert(false);
        },
    }
}

/// SOA case of the round-trip law: the two names parse uniquely off the
/// front, and the five numeric fields are fixed by their bytes.
#[verifier::rlimit(100)]
proof fn lemma_soa_bytes_injective(v1: RDataV, v2: RDataV)
    requires
        v1 is SOA,
        v2 is SOA,
        rdata_wf(v1),
        rdata_wf(v2),
        rdata_bytes(v1) == rdata_bytes(v2),
    ensures
        v1 == v2,
{
    let (m1, r1, s1, f1, t1, e1, i1) = (
        v1->SOA_mname,
        v1->SOA_rname,
        v1->SOA_serial,
        v1->SOA_refresh,
        v1->SOA_retry,
        v1->SOA_expire,
        v1->SOA_minimum,
    );
    let (m2, r2, s2, f2, t2, e2, i2) = (
        v2->SOA_mname,
        v2->SOA_rname,
        v2->SOA_serial,
        v2->SOA_refresh,
        v2->SOA_retry,
        v2->SOA_expire,
        v2->SOA_minimum,
    );
    let b = rdata_bytes(v1);
    let rest1 = name_bytes(r1) + u32_bytes(s1) + u32_bytes(f1) + u32_bytes(t1) + u32_bytes(e1)
        + u32_bytes(i1);
    let rest2 = name_bytes(r2) + u32_bytes(s2) + u32_bytes(f2) + u32_bytes(t2) + u32_bytes(e2)
        + u32_bytes(i2);
    assert(b =~= name_bytes(m1) + rest1);
    assert(b =~= name_bytes(m2) + rest2);
    lemma_take_labels_of_name_bytes(m1, rest1);
    lemma_take_labels_of_name_bytes(m2, rest2);
    assert(m1 == m2);
    assert(name_bytes(m1).len() == name_bytes(m2).len());
    assert(rest1 =~= b.skip(name_bytes(m1).len() as int));
    assert(rest2 =~= b.skip(name_bytes(m1).len() as int));
    let tail1 = u32_bytes(s1) + u32_bytes(f1) + u32_bytes(t1) + u32_bytes(e1) + u32_bytes(i1);
    let tail2 = u32_bytes(s2) + u32_bytes(f2) + u32_bytes(t2) + u32_bytes(e2) + u32_bytes(i2);
    assert(rest1 =~= name_bytes(r1) + tail1);
    assert(rest2 =~= name_bytes(r2) + tail2);
    lemma_take_labels_of_name_bytes(r1, tail1);
    lemma_take_labels_of_name_bytes(r2, tail2);
    assert(take_labels(rest1) == Some((r1, name_bytes(r1).len() as int)));
    assert(take_labels(rest2) == Some((r2, name_bytes(r2).len() as int)));
    assert(r1 == r2);
    assert(name_bytes(r1).len() == name_bytes(r2).len());
    assert(tail1 =~= rest1.skip(name_bytes(r1).len() as int));
    assert(tail2 =~= rest1.skip(name_bytes(r1).len() as int));
    assert(u32_bytes(s1) =~= tail1.subrange(0, 4));
    assert(u32_bytes(s2) =~= tail1.subrange(0, 4));
    assert(u32_bytes(f1) =~= tail1.subrange(4, 8));
    assert(u32_bytes(f2) =~= tail1.subrange(4, 8));
    assert(u32_bytes(t1) =~= tail1.subrange(8, 12));
    assert(u32_bytes(t2) =~= tail1.subrange(8, 12));
    assert(u32_bytes(e1) =~= tail1.subrange(12, 16));
    assert(u32_bytes(e2) =~= tail1.subrange(12, 16));
    assert(u32_bytes(i1) =~= tail1.subrange(16, 20));
    assert(u32_bytes(i2) =~= tail1.subrange(16, 20));
    lemma_u32_bytes_injective(s1, s2);
    lemma_u32_bytes_injective(f1, f2);
    lemma_u32_bytes_injective(t1, t2);
    lemma_u32_bytes_injective(e1, e2);
    lemma_u32_bytes_injective(i1, i2);
    assert(v1 =~~= v2);
}

/// One group of two IPv6 values with equal encodings is equal.
proof fn lemma_ipv6_group(x: Ipv6, y: Ipv6, k: int)
    requires
        0 <= k < 8,
        ipv6_bytes(x) == ipv6_bytes(y),
    ensures
        k == 0 ==> x.0 == y.0,
        k == 1 ==> x.1 == y.1,
        k == 2 ==> x.2 == y.2,
        k == 3 ==> x.3 == y.3,
        k == 4 ==> x.4 == y.4,
        k == 5 ==> x.5 == y.5,
        k == 6 ==> x.6 == y.6,
        k == 7 ==> x.7 == y.7,
{
    let gx = seq![x.0, x.1, x.2, x.3, x.4, x.5, x.6, x.7];
    let gy = seq![y.0, y.1, y.2, y.3, y.4, y.5, y.6, y.7];
    assert(u16_bytes(gx[k]) =~= ipv6_bytes(x).subrange(2 * k, 2 * k + 2));
    assert(u16_bytes(gy[k]) =~= ipv6_bytes(y).subrange(2 * k, 2 * k + 2));
    lemma_u16_bytes_injective(gx[k], gy[k]);
}

/// Two well-formed names with the same wire encoding have the same labels.
pub proof fn lemma_name_bytes_injective(n1: Seq<Seq<u8>>, n2: Seq<Seq<u8>>)
    requires
        labels_wf(n1),
        labels_wf(n2),
        name_bytes(n1) == name_bytes(n2),
    ensures
        n1 == n2,
{
    lemma_take_labels_of_name_bytes(n1, Seq::empty());
    lemma_take_labels_of_name_bytes(n2, Seq::empty());
    assert(name_bytes(n1) + Seq::<u8>::empty() =~= name_bytes(n1));
    assert(name_bytes(n2) + Seq::<u8>::empty() =~= name_bytes(n2));
}

/// Read an AAAA rdata: sixteen bytes, eight big-endian groups.
fn read_aaaa(d: &mut BinDecoder) -> (r: Result<Ipv6, DecodeError>)
    requires
        old(d).wf(),
    ensures
        final(d).wf(),
        final(d).bytes() == old(d).bytes(),
        r is Ok <==> old(d).position() + 16 <= old(d).bytes().len(),
        r matches Ok(x) ==> final(d).position() == old(d).position() + 16 && ipv6_bytes(x)
            == old(d).bytes().subrange(old(d).position(), old(d).position() + 16),
        r is Err ==> r matches Err(DecodeError::Truncated),
{
    let g0 = match d.read_u16() {
        Ok(v) => v,
        Err(e) => { return Err(e) },
    };
    let g1 = match d.read_u16() {
        Ok(v) => v,
        Err(e) => { return Err(e) },
    };
    let g2 = match d.read_u16() {
        Ok(v) => v,
        Err(e) => { return Err(e) },
    };
    let g3 = match d.read_u16() {
        Ok(v) => v,
        Err(e) => { return Err(e) },
    };
    let g4 = match d.read_u16() {
        Ok(v) => v,
        Err(e) => { return Err(e) },
    };
    let g5 = match d.read_u16() {
        Ok(v) => v,
        Err(e) => { return Err(e) },
    };
    let g6 = match d.read_u16() {
        Ok(v) => v,
        Err(e) => { return Err(e) },
    };
    let g7 = match d.read_u16() {
        Ok(v) => v,
        Err(e) => { return Err(e) },
    };
    let x = Ipv6(g0, g1, g2, g3, g4, g5, g6, g7);
    proof {
        assert(ipv6_bytes(x) =~= old(d).bytes().subrange(
            old(d).position(),
            old(d).position() + 16,
        ));
    }
    Ok(x)
}

/// Read a TXT rdata: character-strings exactly filling `rdlength` bytes.
fn read_txt(d: &mut BinDecoder, rdlength: u16) -> (r: Result<Vec<Vec<u8>>, DecodeError>)
    requires
        old(d).wf(),
    ensures
        final(d).wf(),
        final(d).bytes() == old(d).bytes(),
        r is Ok <==> old(d).position() + rdlength as int <= old(d).bytes().len()
            && take_char_strings(
            old(d).bytes().subrange(old(d).position(), old(d).position() + rdlength as int),
        ) is Some,
        r matches Ok(ss) ==> final(d).position() == old(d).position() + rdlength as int
            && Some(strings_view(ss)) == take_char_strings(
            old(d).bytes().subrange(old(d).position(), old(d).position() + rdlength as int),
        ) && txt_bytes(strings_view(ss)) == old(d).bytes().subrange(
            old(d).position(),
            old(d).position() + rdlength as int,
        ) && (forall|i: int| 0 <= i < strings_view(ss).len() ==> (#[trigger] strings_view(
            ss,
        )[i]).len() <= 255),
{
    let ghost pos0_txt = old(d).position();
    let ghost region = old(d).bytes().subrange(
        old(d).position(),
        old(d).position() + rdlength as int,
    );
    if rdlength as usize > d.remaining() {
        proof {
            assert(old(d).position() + rdlength as int > old(d).bytes().len());
        }
        return Err(DecodeError::Truncated);
    }
    let mut out: Vec<Vec<u8>> = Vec::new();
    let mut consumed: usize = 0;
    proof {
        assert(region.skip(0) =~= region);
        assert(txt_bytes(strings_view(out)) =~= region.take(0));
    }
    while consumed < rdlength as usize
        invariant
            d.wf(),
            d.bytes() == old(d).bytes(),
            consumed <= rdlength,
            0 <= old(d).position(),
            pos0_txt == old(d).position(),
            d.position() == old(d).position() + consumed as int,
            old(d).position() + rdlength as int <= old(d).bytes().len(),
            region == old(d).bytes().subrange(
                old(d).position(),
                old(d).position() + rdlength as int,
            ),
            txt_bytes(strings_view(out)) == region.take(consumed as int),
            forall|i: int| 0 <= i < strings_view(out).len() ==> (#[trigger] strings_view(
                out,
            )[i]).len() <= 255,
            (take_char_strings(region) is Some <==> take_char_strings(
                region.skip(consumed as int),
            ) is Some),
            take_char_strings(region) is Some ==> take_char_strings(region)
                == Some(
                strings_view(out) + take_char_strings(region.skip(consumed as int))->Some_0,
            ),
        decreases rdlength as int - consumed,
    {
        let ghost rem = region.skip(consumed as int);
        let len_b = match d.pop() {
            Ok(b) => b,
            Err(_) => {
                proof {
                    assert(false);
                }
                return Err(DecodeError::Truncated);
            },
        };
        proof {
            assert(region.skip(consumed as int)[0] == region[consumed as int]);
            assert(old(d).bytes().subrange(pos0_txt, pos0_txt + rdlength as int)[consumed as int]
                == old(d).bytes()[pos0_txt + consumed]);
            assert(rem[0] == len_b);
        }
        if (rdlength as usize) - consumed < 1 + len_b as usize {
            proof {
                assert(rem.len() < 1 + rem[0]);
                assert(take_char_strings(rem) is None);
            }
            return Err(DecodeError::Truncated);
        }
        let s = match d.read_bytes(len_b as usize) {
            Ok(s) => s,
            Err(_) => {
                proof {
                    assert(false);
                }
                return Err(DecodeError::Truncated);
            },
        };
        let ghost before = strings_view(out);
        out.push(s);
        consumed = consumed + 1 + len_b as usize;
        proof {
            assert(strings_view(out) =~= before.push(s@));
            assert(s@ =~= rem.subrange(1, 1 + len_b as int));
            assert(char_string_bytes(s@) =~= rem.subrange(0, 1 + len_b as int));
            lemma_txt_bytes_append(before, s@);
            assert(txt_bytes(strings_view(out)) =~= region.take(consumed as int));
            assert(rem.skip(1 + len_b as int) =~= region.skip(consumed as int));
            assert(take_char_strings(rem) == (match take_char_strings(
                region.skip(consumed as int),
            ) {
                Some(rest) => Some(seq![s@] + rest),
                None => None,
            }));
            if take_char_strings(region) is Some {
                assert(before + take_char_strings(rem)->Some_0 =~= strings_view(out)
                    + take_char_strings(region.skip(consumed as int))->Some_0);
            }
        }
    }
    proof {
        assert(region.skip(rdlength as int) =~= Seq::<u8>::empty());
        assert(take_char_strings(Seq::<u8>::empty()) == Some(Seq::<Seq<u8>>::empty()));
        assert(strings_view(out) + Seq::<Seq<u8>>::empty() =~= strings_view(out));
        assert(region.take(rdlength as int) =~= region);
    }
    Ok(out)
}

/// The TXT encoding distributes over appending one more character-string.
proof fn lemma_txt_bytes_append(ss: Seq<Seq<u8>>, s: Seq<u8>)
    ensures
        txt_bytes(ss.push(s)) == txt_bytes(ss) + char_string_bytes(s),
    decreases ss.len(),
{
    if ss.len() == 0 {
        assert(txt_bytes(Seq::<Seq<u8>>::empty()) == Seq::<u8>::empty());
        assert(ss.push(s).drop_first() =~= Seq::<Seq<u8>>::empty());
        assert(ss.push(s)[0] == s);
        assert(txt_bytes(ss.push(s)) == char_string_bytes(s) + txt_bytes(
            Seq::<Seq<u8>>::empty(),
        ));
        assert(txt_bytes(ss.push(s)) =~= char_string_bytes(s));
        assert(txt_bytes(ss) + char_string_bytes(s) =~= char_string_bytes(s));
    } else {
        assert(ss.push(s).drop_first() =~= ss.drop_first().push(s));
        lemma_txt_bytes_append(ss.drop_first(), s);
        assert(ss.push(s)[0] == ss[0]);
        assert(txt_bytes(ss.push(s)) =~= txt_bytes(ss) + char_string_bytes(s));
    }
}

/// Binary decode of a record's data, dispatched on the record type; an
/// unrecognized type is preserved opaquely as its raw bytes. When the wire
/// at the cursor holds the encoding of a well-formed value of the declared
/// type, exactly that value is returned and exactly its bytes are consumed:
/// decode is a left inverse of `emit_rdata`.
#[verifier::rlimit(100)]
pub fn read_rdata(d: &mut BinDecoder, rtype: RecordType, rdlength: u16) -> (r: Result<
    RData,
    DecodeError,
>)
    requires
        old(d).wf(),
    ensures
        final(d).wf(),
        final(d).bytes() == old(d).bytes(),
        r matches Ok(rd) ==> rdata_wf(rd@) && rdata_matches(rtype, rd@),
        forall|v: RDataV| #[trigger]
            wire_holds(*old(d), rtype, rdlength as int, v) ==> decoded_exactly(r, v)
                && final(d).position() == old(d).position() + rdlength as int,
{
    let ghost pos0 = old(d).position();
    match rtype {
        RecordType::A => {
            let res = a::read(d);
            let r: Result<RData, DecodeError> = match res {
                Ok(v) => Ok(RData::A(v)),
                Err(e) => Err(e),
            };
            proof {
                assert forall|v: RDataV| #[trigger]
                    wire_holds(*old(d), rtype, rdlength as int, v) implies decoded_exactly(r, v)
                    && d.position() == pos0 + rdlength as int by {
                    let x = v->A_0;
                    assert(rdata_bytes(v) == ipv4_bytes(x));
                    assert(rdlength == 4);
                    let got = res->Ok_0;
                    assert(ipv4_bytes(got) == ipv4_bytes(x));
                    assert(got.0 == x.0 && got.1 == x.1 && got.2 == x.2 && got.3 == x.3);
                }
            }
            r
        },
        RecordType::AAAA => {
            let res = read_aaaa(d);
            let r: Result<RData, DecodeError> = match res {
                Ok(v) => Ok(RData::AAAA(v)),
                Err(e) => Err(e),
            };
            proof {
                assert forall|v: RDataV| #[trigger]
                    wire_holds(*old(d), rtype, rdlength as int, v) implies decoded_exactly(r, v)
                    && d.position() == pos0 + rdlength as int by {
                    let x = v->AAAA_0;
                    assert(rdata_bytes(v) == ipv6_bytes(x));
                    assert(ipv6_bytes(x).len() == 16);
                    assert(rdlength == 16);
                    let got = res->Ok_0;
                    assert(ipv6_bytes(got) == ipv6_bytes(x));
                    lemma_ipv6_group(got, x, 0);
                    lemma_ipv6_group(got, x, 1);
                    lemma_ipv6_group(got, x, 2);
                    lemma_ipv6_group(got, x, 3);
                    lemma_ipv6_group(got, x, 4);
                    lemma_ipv6_group(got, x, 5);
                    lemma_ipv6_group(got, x, 6);
                    lemma_ipv6_group(got, x, 7);
                }
            }
            r
        },
        RecordType::NS | RecordType::CNAME | RecordType::PTR => {
            let res = Name::read(d);
            let r: Result<RData, DecodeError> = match res {
                Ok(n) => match rtype {
                    RecordType::NS => Ok(RData::NS(n)),
                    RecordType::CNAME => Ok(RData::CNAME(n)),
                    _ => Ok(RData::PTR(n)),
                },
                Err(e) => Err(e),
            };
            proof {
                assert forall|v: RDataV| #[trigger]
                    wire_holds(*old(d), rtype, rdlength as int, v) implies decoded_exactly(r, v)
                    && d.position() == pos0 + rdlength as int by {
                    let ls = match v {
                        RDataV::NS(n) => n,
                        RDataV::CNAME(n) => n,
                        RDataV::PTR(n) => n,
                        _ => arbitrary(),
                    };
                    assert(rdata_bytes(v) == name_bytes(ls));
                    assert(old(d).bytes().skip(pos0) =~= name_bytes(ls) + old(d).bytes().skip(
                        pos0 + rdlength as int,
                    ));
                    lemma_take_labels_of_name_bytes(ls, old(d).bytes().skip(
                        pos0 + rdlength as int,
                    ));
                    assert(take_labels(old(d).bytes().skip(pos0)) == Some(
                        (ls, name_bytes(ls).len() as int),
                    ));
                    let got = res->Ok_0;
                    assert(got@ == ls);
                }
            }
            r
        },
        RecordType::MX => {
            let res_p = d.read_u16();
            match res_p {
                Ok(p) => {
                    let res_n = Name::read(d);
                    let r: Result<RData, DecodeError> = match res_n {
                        Ok(n) => Ok(RData::MX { preference: p, exchange: n }),
                        Err(e) => Err(e),
                    };
                    proof {
                        assert forall|v: RDataV| #[trigger]
                            wire_holds(*old(d), rtype, rdlength as int, v) implies
                            decoded_exactly(r, v) && d.position() == pos0 + rdlength as int by {
                            let pref = v->MX_preference;
                            let ex = v->MX_exchange;
                            let all = old(d).bytes();
                            let region = all.subrange(pos0, pos0 + rdlength as int);
                            assert(region == u16_bytes(pref) + name_bytes(ex));
                            assert(u16_bytes(pref) =~= region.subrange(0, 2));
                            assert(all.subrange(pos0, pos0 + 2) =~= region.subrange(0, 2));
                            assert(u16_bytes(p) == all.subrange(pos0, pos0 + 2));
                            lemma_u16_bytes_injective(p, pref);
                            let rest = all.skip(pos0 + rdlength as int);
                            assert(all.skip(pos0) =~= region + rest);
                            assert(all.skip(pos0 + 2) =~= all.skip(pos0).skip(2));
                            assert(((u16_bytes(pref) + name_bytes(ex)) + rest).skip(2) =~= (
                            name_bytes(ex) + rest));
                            assert(region + rest == (u16_bytes(pref) + name_bytes(ex)) + rest);
                            assert(all.skip(pos0 + 2) == name_bytes(ex) + rest);
                            lemma_take_labels_of_name_bytes(ex, rest);
                            let got = res_n->Ok_0;
                            assert(got@ == ex);
                        }
                    }
                    r
                },
                Err(e) => {
                    proof {
                        assert forall|v: RDataV| #[trigger]
                            wire_holds(*old(d), rtype, rdlength as int, v) implies
                            decoded_exactly(Err::<RData, DecodeError>(e), v) && d.position()
                            == pos0 + rdlength as int by {
                            let ex = v->MX_exchange;
                            assert(rdata_bytes(v) == u16_bytes(v->MX_preference) + name_bytes(
                                ex,
                            ));
                            assert(rdata_bytes(v).len() >= 3);
                            assert(pos0 + 2 <= old(d).bytes().len());
                            assert(false);
                        }
                    }
                    Err(e)
                },
            }
        },
        RecordType::SRV => {
            read_srv(d, rdlength)
        },
        RecordType::SOA => {
            read_soa(d, rdlength)
        },
        RecordType::TXT => {
            let res = read_txt(d, rdlength);
            let r: Result<RData, DecodeError> = match res {
                Ok(ss) => if ss.len() == 0 {
                    Err(DecodeError::Truncated)
                } else {
                    proof {
                        assert(txt_bytes(strings_view(ss)).len() == rdlength);
                    }
                    Ok(RData::TXT(ss))
                },
                Err(e) => Err(e),
            };
            proof {
                assert forall|v: RDataV| #[trigger]
                    wire_holds(*old(d), rtype, rdlength as int, v) implies decoded_exactly(r, v)
                    && d.position() == pos0 + rdlength as int by {
                    let ss_v = v->TXT_0;
                    assert(rdata_bytes(v) == txt_bytes(ss_v));
                    lemma_take_char_strings_of_txt(ss_v);
                    assert(take_char_strings(
                        old(d).bytes().subrange(pos0, pos0 + rdlength as int),
                    ) == Some(ss_v));
                    let got = res->Ok_0;
                    assert(strings_view(got) == ss_v);
                    assert(ss_v.len() >= 1);
                    assert(got@.len() == strings_view(got).len());
                    assert(decoded_exactly(r, v));
                    assert(txt_bytes(strings_view(got)).len() <= 0xFFFF);
                }
            }
            r
        },
        _ => {
            let res = d.read_bytes(rdlength as usize);
            let r: Result<RData, DecodeError> = match res {
                Ok(b) => Ok(RData::Unknown(b)),
                Err(e) => Err(e),
            };
            proof {
                assert forall|v: RDataV| #[trigger]
                    wire_holds(*old(d), rtype, rdlength as int, v) implies decoded_exactly(r, v)
                    && d.position() == pos0 + rdlength as int by {
                    let b = v->Unknown_0;
                    assert(rdata_bytes(v) == b);
                }
            }
            r
        },
    }
}

/// Read an SRV rdata: priority, weight, port, then the target name (never
/// compressed on emit; pointers are still accepted on read).
#[verifier::rlimit(60)]
fn read_srv(d: &mut BinDecoder, rdlength: u16) -> (r: Result<RData, DecodeError>)
    requires
        old(d).wf(),
    ensures
        final(d).wf(),
        final(d).bytes() == old(d).bytes(),
        r matches Ok(rd) ==> rdata_wf(rd@) && rdata_matches(RecordType::SRV, rd@),
        forall|v: RDataV| #[trigger]
            wire_holds(*old(d), RecordType::SRV, rdlength as int, v) ==> decoded_exactly(r, v)
                && final(d).position() == old(d).position() + rdlength as int,
{
    let ghost pos0 = old(d).position();
    let p = match d.read_u16() {
        Ok(p) => p,
        Err(e) => {
            proof {
                assert forall|v: RDataV| #[trigger]
                    wire_holds(*old(d), RecordType::SRV, rdlength as int, v) implies
                    decoded_exactly(Err::<RData, DecodeError>(e), v) && d.position() == pos0
                    + rdlength as int by {
                    assert(rdata_bytes(v).len() >= 7);
                    assert(false);
                }
            }
            return Err(e);
        },
    };
    let w = match d.read_u16() {
        Ok(w) => w,
        Err(e) => {
            proof {
                assert forall|v: RDataV| #[trigger]
                    wire_holds(*old(d), RecordType::SRV, rdlength as int, v) implies
                    decoded_exactly(Err::<RData, DecodeError>(e), v) && d.position() == pos0
                    + rdlength as int by {
                    assert(rdata_bytes(v).len() >= 7);
                    assert(false);
                }
            }
            return Err(e);
        },
    };
    let o = match d.read_u16() {
        Ok(o) => o,
        Err(e) => {
            proof {
                assert forall|v: RDataV| #[trigger]
                    wire_holds(*old(d), RecordType::SRV, rdlength as int, v) implies
                    decoded_exactly(Err::<RData, DecodeError>(e), v) && d.position() == pos0
                    + rdlength as int by {
                    assert(rdata_bytes(v).len() >= 7);
                    assert(false);
                }
            }
            return Err(e);
        },
    };
    let res_n = Name::read(d);
    let r: Result<RData, DecodeError> = match res_n {
        Ok(n) => Ok(RData::SRV { priority: p, weight: w, port: o, target: n }),
        Err(e) => Err(e),
    };
    proof {
        assert forall|v: RDataV| #[trigger]
            wire_holds(*old(d), RecordType::SRV, rdlength as int, v) implies decoded_exactly(
            r,
            v,
        ) && d.position() == pos0 + rdlength as int by {
            let pr = v->SRV_priority;
            let wg = v->SRV_weight;
            let po = v->SRV_port;
            let tg = v->SRV_target;
            let all = old(d).bytes();
            let region = all.subrange(pos0, pos0 + rdlength as int);
            assert(region == u16_bytes(pr) + u16_bytes(wg) + u16_bytes(po) + name_bytes(tg));
            assert(u16_bytes(pr) =~= region.subrange(0, 2));
            assert(all.subrange(pos0, pos0 + 2) =~= region.subrange(0, 2));
            assert(u16_bytes(p) == all.subrange(pos0, pos0 + 2));
            lemma_u16_bytes_injective(p, pr);
            assert(u16_bytes(wg) =~= region.subrange(2, 4));
            assert(all.subrange(pos0 + 2, pos0 + 4) =~= region.subrange(2, 4));
            assert(u16_bytes(w) == all.subrange(pos0 + 2, pos0 + 4));
            lemma_u16_bytes_injective(w, wg);
            assert(u16_bytes(po) =~= region.subrange(4, 6));
            assert(all.subrange(pos0 + 4, pos0 + 6) =~= region.subrange(4, 6));
            assert(u16_bytes(o) == all.subrange(pos0 + 4, pos0 + 6));
            lemma_u16_bytes_injective(o, po);
            let rest = all.skip(pos0 + rdlength as int);
            assert(all.skip(pos0) =~= region + rest);
            assert(all.skip(pos0 + 6) =~= all.skip(pos0).skip(6));
            assert(((u16_bytes(pr) + u16_bytes(wg) + u16_bytes(po) + name_bytes(tg))
                + rest).skip(6) =~= (name_bytes(tg) + rest));
            assert(region + rest == (u16_bytes(pr) + u16_bytes(wg) + u16_bytes(po) + name_bytes(
                tg,
            )) + rest);
            assert(all.skip(pos0 + 6) == name_bytes(tg) + rest);
            lemma_take_labels_of_name_bytes(tg, rest);
            let got = res_n->Ok_0;
            assert(got@ == tg);
        }
    }
    r
}

/// Read five consecutive 32-bit values.
fn read_five_u32(d: &mut BinDecoder) -> (r: Result<(u32, u32, u32, u32, u32), DecodeError>)
    requires
        old(d).wf(),
    ensures
        final(d).wf(),
        final(d).bytes() == old(d).bytes(),
        r is Ok <==> old(d).position() + 20 <= old(d).bytes().len(),
        r matches Ok(x) ==> final(d).position() == old(d).position() + 20 && u32_bytes(x.0)
            == old(d).bytes().subrange(old(d).position(), old(d).position() + 4) && u32_bytes(
            x.1,
        ) == old(d).bytes().subrange(old(d).position() + 4, old(d).position() + 8) && u32_bytes(
            x.2,
        ) == old(d).bytes().subrange(old(d).position() + 8, old(d).position() + 12)
            && u32_bytes(x.3) == old(d).bytes().subrange(
            old(d).position() + 12,
            old(d).position() + 16,
        ) && u32_bytes(x.4) == old(d).bytes().subrange(
            old(d).position() + 16,
            old(d).position() + 20,
        ),
        r is Err ==> r matches Err(DecodeError::Truncated),
{
    let a = match d.read_u32() {
        Ok(x) => x,
        Err(e) => { return Err(e) },
    };
    let b = match d.read_u32() {
        Ok(x) => x,
        Err(e) => { return Err(e) },
    };
    let c = match d.read_u32() {
        Ok(x) => x,
        Err(e) => { return Err(e) },
    };
    let e4 = match d.read_u32() {
        Ok(x) => x,
        Err(e) => { return Err(e) },
    };
    let f = match d.read_u32() {
        Ok(x) => x,
        Err(e) => { return Err(e) },
    };
    Ok((a, b, c, e4, f))
}

/// Read an SOA rdata: the primary and responsible names, then serial,
/// refresh, retry, expire, minimum.
#[verifier::rlimit(100)]
fn read_soa(d: &mut BinDecoder, rdlength: u16) -> (r: Result<RData, DecodeError>)
    requires
        old(d).wf(),
    ensures
        final(d).wf(),
        final(d).bytes() == old(d).bytes(),
        r matches Ok(rd) ==> rdata_wf(rd@) && rdata_matches(RecordType::SOA, rd@),
        forall|v: RDataV| #[trigger]
            wire_holds(*old(d), RecordType::SOA, rdlength as int, v) ==> decoded_exactly(r, v)
                && final(d).position() == old(d).position() + rdlength as int,
{
    let ghost pos0 = old(d).position();
    let ghost all = old(d).bytes();
    let res_m = Name::read(d);
    let m = match res_m {
        Ok(m) => m,
        Err(e) => {
            proof {
                assert forall|v: RDataV| #[trigger]
                    wire_holds(*old(d), RecordType::SOA, rdlength as int, v) implies
                    decoded_exactly(Err::<RData, DecodeError>(e), v) && d.position() == pos0
                    + rdlength as int by {
                    soa_layout(all, pos0, rdlength as int, v);
                    assert(false);
                }
            }
            return Err(e);
        },
    };
    let ghost pos1 = d.position();
    let res_r = Name::read(d);
    let rn = match res_r {
        Ok(rn) => rn,
        Err(e) => {
            proof {
                assert forall|v: RDataV| #[trigger]
                    wire_holds(*old(d), RecordType::SOA, rdlength as int, v) implies
                    decoded_exactly(Err::<RData, DecodeError>(e), v) && d.position() == pos0
                    + rdlength as int by {
                    soa_layout(all, pos0, rdlength as int, v);
                    assert(m@ == v->SOA_mname);
                    assert(false);
                }
            }
            return Err(e);
        },
    };
    let ghost pos2 = d.position();
    let nums = match read_five_u32(d) {
        Ok(x) => x,
        Err(e) => {
            proof {
                assert forall|v: RDataV| #[trigger]
                    wire_holds(*old(d), RecordType::SOA, rdlength as int, v) implies
                    decoded_exactly(Err::<RData, DecodeError>(e), v) && d.position() == pos0
                    + rdlength as int by {
                    soa_layout(all, pos0, rdlength as int, v);
                    assert(pos1 == pos0 + name_bytes(v->SOA_mname).len());
                    assert(pos2 == pos1 + name_bytes(v->SOA_rname).len());
                    assert(pos2 + 20 == pos0 + rdlength as int <= all.len());
                    assert(false);
                }
            }
            return Err(e);
        },
    };
    let (se, rf, rt, ex, mi) = nums;
    let r: Result<RData, DecodeError> = Ok(
        RData::SOA {
            mname: m,
            rname: rn,
            serial: se,
            refresh: rf,
            retry: rt,
            expire: ex,
            minimum: mi,
        },
    );
    proof {
        assert forall|v: RDataV| #[trigger]
            wire_holds(*old(d), RecordType::SOA, rdlength as int, v) implies decoded_exactly(
            r,
            v,
        ) && d.position() == pos0 + rdlength as int by {
            soa_layout(all, pos0, rdlength as int, v);
            assert(m@ == v->SOA_mname);
            assert(pos1 == pos0 + name_bytes(v->SOA_mname).len());
            assert(rn@ == v->SOA_rname);
            assert(pos2 == pos1 + name_bytes(v->SOA_rname).len());
            let lm = name_bytes(v->SOA_mname).len() as int;
            let lr = name_bytes(v->SOA_rname).len() as int;
            let sv = v->SOA_serial;
            let fv = v->SOA_refresh;
            let tv = v->SOA_retry;
            let ev = v->SOA_expire;
            let iv = v->SOA_minimum;
            let rest = all.skip(pos0 + rdlength as int);
            assert(all.skip(pos0) =~= all.subrange(pos0, pos0 + rdlength as int) + rest);
            assert(all.skip(pos0) == (name_bytes(v->SOA_mname) + name_bytes(v->SOA_rname)
                + u32_bytes(sv) + u32_bytes(fv) + u32_bytes(tv) + u32_bytes(ev) + u32_bytes(iv))
                + rest);
            assert(all.skip(pos2) =~= all.skip(pos0).skip(lm + lr));
            assert(((name_bytes(v->SOA_mname) + name_bytes(v->SOA_rname) + u32_bytes(sv)
                + u32_bytes(fv) + u32_bytes(tv) + u32_bytes(ev) + u32_bytes(iv)) + rest).skip(
                lm + lr,
            ) =~= u32_bytes(sv) + u32_bytes(fv) + u32_bytes(tv) + u32_bytes(ev) + u32_bytes(iv)
                + rest);
            let tail5 = u32_bytes(sv) + u32_bytes(fv) + u32_bytes(tv) + u32_bytes(ev)
                + u32_bytes(iv) + rest;
            assert(all.skip(pos2) == tail5);
            assert(all.subrange(pos2, pos2 + 4) =~= all.skip(pos2).subrange(0, 4));
            assert(tail5.subrange(0, 4) =~= u32_bytes(sv));
            lemma_u32_bytes_injective(se, sv);
            assert(all.subrange(pos2 + 4, pos2 + 8) =~= all.skip(pos2).subrange(4, 8));
            assert(tail5.subrange(4, 8) =~= u32_bytes(fv));
            lemma_u32_bytes_injective(rf, fv);
            assert(all.subrange(pos2 + 8, pos2 + 12) =~= all.skip(pos2).subrange(8, 12));
            assert(tail5.subrange(8, 12) =~= u32_bytes(tv));
            lemma_u32_bytes_injective(rt, tv);
            assert(all.subrange(pos2 + 12, pos2 + 16) =~= all.skip(pos2).subrange(12, 16));
            assert(tail5.subrange(12, 16) =~= u32_bytes(ev));
            lemma_u32_bytes_injective(ex, ev);
            assert(all.subrange(pos2 + 16, pos2 + 20) =~= all.skip(pos2).subrange(16, 20));
            assert(tail5.subrange(16, 20) =~= u32_bytes(iv));
            lemma_u32_bytes_injective(mi, iv);
            assert(decoded_exactly(r, v));
        }
    }
    r
}

/// Unpack the SOA wire layout at the cursor: both names parse exactly where
/// they stand.
proof fn soa_layout(all: Seq<u8>, pos0: int, rdlen: int, v: RDataV)
    requires
        v is SOA,
        rdata_wf(v),
        rdata_bytes(v).len() == rdlen,
        0 <= pos0,
        pos0 + rdlen <= all.len(),
        all.subrange(pos0, pos0 + rdlen) == rdata_bytes(v),
    ensures
        take_labels(all.skip(pos0)) == Some(
            (v->SOA_mname, name_bytes(v->SOA_mname).len() as int),
        ),
        take_labels(all.skip(pos0 + name_bytes(v->SOA_mname).len())) == Some(
            (v->SOA_rname, name_bytes(v->SOA_rname).len() as int),
        ),
        name_bytes(v->SOA_mname).len() + name_bytes(v->SOA_rname).len() + 20 == rdlen,
        name_wf(v->SOA_mname),
        name_wf(v->SOA_rname),
{
    let m = v->SOA_mname;
    let rn = v->SOA_rname;
    let region = all.subrange(pos0, pos0 + rdlen);
    assert(region == name_bytes(m) + name_bytes(rn) + u32_bytes(v->SOA_serial) + u32_bytes(
        v->SOA_refresh,
    ) + u32_bytes(v->SOA_retry) + u32_bytes(v->SOA_expire) + u32_bytes(v->SOA_minimum));
    assert(all.skip(pos0) =~= region + all.skip(pos0 + rdlen));
    assert(region + all.skip(pos0 + rdlen) =~= name_bytes(m) + (name_bytes(rn) + all.skip(
        pos0 + name_bytes(m).len() + name_bytes(rn).len(),
    )));
    lemma_take_labels_of_name_bytes(m, name_bytes(rn) + all.skip(
        pos0 + name_bytes(m).len() + name_bytes(rn).len(),
    ));
    let lm = name_bytes(m).len() as int;
    let tail = all.skip(pos0 + lm + name_bytes(rn).len());
    assert(all.skip(pos0 + lm) =~= all.skip(pos0).skip(lm));
    assert((name_bytes(m) + (name_bytes(rn) + tail)).skip(lm) =~= name_bytes(rn) + tail);
    assert(all.skip(pos0 + lm) == name_bytes(rn) + tail);
    lemma_take_labels_of_name_bytes(rn, tail);
}

/// Binary encode of a record's data: the exact inverse of `read_rdata`.
/// Succeeds exactly on well-formed values; nothing is written on failure.
#[verifier::rlimit(60)]
pub fn emit_rdata(e: &mut BinEncoder, rd: &RData) -> (r: Result<(), EncodeError>)
    ensures
        r is Ok <==> rdata_wf(rd@),
        r is Ok ==> final(e).bytes() == old(e).bytes() + rdata_bytes(rd@),
        r is Err ==> final(e).bytes() == old(e).bytes(),
{
    match rd {
        RData::A(x) => {
            let res = a::emit(e, x);
            proof {
                assert(e.bytes() =~= old(e).bytes() + rdata_bytes(rd@));
            }
            res
        },
        RData::AAAA(x) => {
            e.emit_u16(x.0);
            e.emit_u16(x.1);
            e.emit_u16(x.2);
            e.emit_u16(x.3);
            e.emit_u16(x.4);
            e.emit_u16(x.5);
            e.emit_u16(x.6);
            e.emit_u16(x.7);
            proof {
                assert(e.bytes() =~= old(e).bytes() + rdata_bytes(rd@));
            }
            Ok(())
        },
        RData::NS(n) => {
            let res = n.emit(e);
            proof {
                if res is Ok {
                    assert(e.bytes() =~= old(e).bytes() + rdata_bytes(rd@));
                }
            }
            res
        },
        RData::CNAME(n) => {
            let res = n.emit(e);
            proof {
                if res is Ok {
                    assert(e.bytes() =~= old(e).bytes() + rdata_bytes(rd@));
                }
            }
            res
        },
        RData::PTR(n) => {
            let res = n.emit(e);
            proof {
                if res is Ok {
                    assert(e.bytes() =~= old(e).bytes() + rdata_bytes(rd@));
                }
            }
            res
        },
        RData::MX { preference, exchange } => {
            match exchange.check() {
                Ok(()) => {},
                Err(err) => {
                    return Err(err);
                },
            }
            e.emit_u16(*preference);
            let res = exchange.emit(e);
            proof {
                assert(res is Ok);
                assert(e.bytes() =~= old(e).bytes() + rdata_bytes(rd@));
            }
            Ok(())
        },
        RData::SRV { priority, weight, port, target } => {
            match target.check() {
                Ok(()) => {},
                Err(err) => {
                    return Err(err);
                },
            }
            e.emit_u16(*priority);
            e.emit_u16(*weight);
            e.emit_u16(*port);
            let res = target.emit(e);
            proof {
                assert(res is Ok);
                assert(e.bytes() =~= old(e).bytes() + rdata_bytes(rd@));
            }
            Ok(())
        },
        RData::SOA { mname, rname, serial, refresh, retry, expire, minimum } => {
            match mname.check() {
                Ok(()) => {},
                Err(err) => {
                    return Err(err);
                },
            }
            match rname.check() {
                Ok(()) => {},
                Err(err) => {
                    return Err(err);
                },
            }
            let res_m = mname.emit(e);
            proof {
                assert(res_m is Ok);
            }
            let res_r = rname.emit(e);
            proof {
                assert(res_r is Ok);
            }
            e.emit_u32(*serial);
            e.emit_u32(*refresh);
            e.emit_u32(*retry);
            e.emit_u32(*expire);
            e.emit_u32(*minimum);
            proof {
                assert(e.bytes() =~= old(e).bytes() + rdata_bytes(rd@));
            }
            Ok(())
        },
        RData::TXT(ss) => {
            if ss.len() == 0 {
                return Err(EncodeError::MissingData);
            }
            let mut total: usize = 0;
            let mut k: usize = 0;
            proof {
                assert(txt_bytes(strings_view(*ss).take(0)) =~= Seq::<u8>::empty());
            }
            while k < ss.len()
                invariant
                    k <= ss.len(),
                    rd@ == RDataV::TXT(strings_view(*ss)),
                    forall|i: int| 0 <= i < k ==> (#[trigger] strings_view(*ss)[i]).len()
                        <= 255,
                    total == txt_bytes(strings_view(*ss).take(k as int)).len(),
                    total <= 0xFFFF,
                decreases ss.len() - k,
            {
                if ss[k].len() > 255 {
                    proof {
                        assert(ss@[k as int]@.len() > 255);
                        assert(strings_view(*ss)[k as int] == ss@[k as int]@);
                        assert(!rdata_wf(rd@));
                    }
                    return Err(EncodeError::CharDataTooLong);
                }
                if 0xFFFF - total < 1 + ss[k].len() {
                    // the whole rdata would no longer fit a 16-bit RDLENGTH
                    proof {
                        let sv = strings_view(*ss);
                        assert(sv[k as int] == ss@[k as int]@);
                        assert(sv.take(k as int + 1) =~= sv.take(k as int).push(sv[k as int]));
                        lemma_txt_bytes_append(sv.take(k as int), sv[k as int]);
                        assert(sv.take(k as int + 1) + sv.skip(k as int + 1) =~= sv);
                        lemma_txt_bytes_concat(sv.take(k as int + 1), sv.skip(k as int + 1));
                        assert(txt_bytes(sv).len() > 0xFFFF);
                        assert(!rdata_wf(rd@));
                    }
                    return Err(EncodeError::RDataTooLong);
                }
                total = total + 1 + ss[k].len();
                k = k + 1;
                proof {
                    let sv = strings_view(*ss);
                    assert(sv[k as int - 1] == ss@[k as int - 1]@);
                    assert(sv.take(k as int) =~= sv.take(k as int - 1).push(sv[k as int - 1]));
                    lemma_txt_bytes_append(sv.take(k as int - 1), sv[k as int - 1]);
                }
            }
            proof {
                assert(strings_view(*ss).take(ss@.len() as int) =~= strings_view(*ss));
            }
            let mut i: usize = 0;
            proof {
                assert(txt_bytes(strings_view(*ss).take(0)) =~= Seq::<u8>::empty());
                assert(e.bytes() =~= old(e).bytes() + txt_bytes(strings_view(*ss).take(0)));
            }
            while i < ss.len()
                invariant
                    i <= ss.len(),
                    forall|j: int| 0 <= j < ss@.len() ==> (#[trigger] strings_view(
                        *ss,
                    )[j]).len() <= 255,
                    e.bytes() == old(e).bytes() + txt_bytes(strings_view(*ss).take(i as int)),
                decreases ss.len() - i,
            {
                let res = e.emit_character_data(&ss[i]);
                proof {
                    assert(strings_view(*ss)[i as int].len() <= 255);
                    assert(res is Ok);
                    lemma_txt_bytes_append(
                        strings_view(*ss).take(i as int),
                        strings_view(*ss)[i as int],
                    );
                    assert(strings_view(*ss).take(i as int).push(strings_view(*ss)[i as int])
                        =~= strings_view(*ss).take(i as int + 1));
                }
                i = i + 1;
            }
            proof {
                assert(strings_view(*ss).take(ss@.len() as int) =~= strings_view(*ss));
                assert(strings_view(*ss).len() >= 1);
            }
            Ok(())
        },
        RData::Unknown(b) => {
            if b.len() > 0xFFFF {
                return Err(EncodeError::RDataTooLong);
            }
            e.emit_bytes(b);
            Ok(())
        },
    }
}


/// The bytes of the bare word at token position `i`, if there is one.
pub open spec fn spec_chardata_at(ts: Seq<TokenV>, i: int) -> Option<Seq<u8>> {
    if 0 <= i < ts.len() {
        match ts[i] {
            TokenV::CharData(s) => Some(s),
            _ => None,
        }
    } else {
        None
    }
}

/// The value of a decimal literal at token position `i`, bounded by `max`.
pub open spec fn spec_dec_at(ts: Seq<TokenV>, i: int, max: int) -> Option<int> {
    match spec_chardata_at(ts, i) {
        Some(s) => if s.len() >= 1 && crate::text::all_digits(s) && crate::text::dec_val(s)
            <= max {
            Some(crate::text::dec_val(s))
        } else {
            None
        },
        None => None,
    }
}

/// The name at token position `i`, qualified against the origin.
pub open spec fn spec_name_at(ts: Seq<TokenV>, i: int, origin: Seq<Seq<u8>>) -> Option<
    Seq<Seq<u8>>,
> {
    match spec_chardata_at(ts, i) {
        Some(s) => crate::name::spec_parse_name(s, origin),
        None => None,
    }
}

/// The colon-hex literal grammar of an AAAA rdata: exactly eight groups of
/// one to four hexadecimal digits.
pub open spec fn spec_parse_ipv6(s: Seq<u8>) -> Option<Ipv6> {
    let ps = crate::text::split_on(s, 58);
    if ps.len() == 8 && (forall|k: int|
        0 <= k < 8 ==> 1 <= (#[trigger] ps[k]).len() <= 4 && crate::text::all_hex(ps[k])) {
        Some(
            Ipv6(
                crate::text::hex_seq_val(ps[0]) as u16,
                crate::text::hex_seq_val(ps[1]) as u16,
                crate::text::hex_seq_val(ps[2]) as u16,
                crate::text::hex_seq_val(ps[3]) as u16,
                crate::text::hex_seq_val(ps[4]) as u16,
                crate::text::hex_seq_val(ps[5]) as u16,
                crate::text::hex_seq_val(ps[6]) as u16,
                crate::text::hex_seq_val(ps[7]) as u16,
            ),
        )
    } else {
        None
    }
}

/// The TXT token grammar: at least one token, every token a bare word or a
/// quoted string of at most 255 bytes, the whole rdata fitting RDLENGTH.
pub open spec fn spec_parse_txt(ts: Seq<TokenV>) -> Option<Seq<Seq<u8>>> {
    let ss = ts.map_values(|t: TokenV| tokv_bytes(t)->Some_0);
    if ts.len() >= 1 && (forall|k: int|
        0 <= k < ts.len() ==> tokv_bytes(#[trigger] ts[k]) is Some && tokv_bytes(
            ts[k],
        )->Some_0.len() <= 255) && txt_bytes(ss).len() <= 0xFFFF {
        Some(ss)
    } else {
        None
    }
}

/// The per-type text-token grammar of a record\'s data: which rdata value a
/// token sequence denotes for a record type, or nothing if it is malformed
/// or the type has no text grammar.
pub open spec fn spec_parse_rdata(rt: RecordType, ts: Seq<TokenV>, origin: Seq<Seq<u8>>) -> Option<
    RDataV,
> {
    match rt {
        RecordType::A => match spec_chardata_at(ts, 0) {
            Some(s) => match a::spec_parse_ipv4(s) {
                Some(v) => Some(RDataV::A(v)),
                None => None,
            },
            None => None,
        },
        RecordType::AAAA => match spec_chardata_at(ts, 0) {
            Some(s) => match spec_parse_ipv6(s) {
                Some(v) => Some(RDataV::AAAA(v)),
                None => None,
            },
            None => None,
        },
        RecordType::NS => match spec_name_at(ts, 0, origin) {
            Some(n) => Some(RDataV::NS(n)),
            None => None,
        },
        RecordType::CNAME => match spec_name_at(ts, 0, origin) {
            Some(n) => Some(RDataV::CNAME(n)),
            None => None,
        },
        RecordType::PTR => match spec_name_at(ts, 0, origin) {
            Some(n) => Some(RDataV::PTR(n)),
            None => None,
        },
        RecordType::MX => match (spec_dec_at(ts, 0, 0xFFFF), spec_name_at(ts, 1, origin)) {
            (Some(p), Some(n)) => Some(RDataV::MX { preference: p as u16, exchange: n }),
            _ => None,
        },
        RecordType::SRV => match (
            spec_dec_at(ts, 0, 0xFFFF),
            spec_dec_at(ts, 1, 0xFFFF),
            spec_dec_at(ts, 2, 0xFFFF),
            spec_name_at(ts, 3, origin),
        ) {
            (Some(p), Some(w), Some(o), Some(n)) => Some(
                RDataV::SRV {
                    priority: p as u16,
                    weight: w as u16,
                    port: o as u16,
                    target: n,
                },
            ),
            _ => None,
        },
        RecordType::SOA => match (
            spec_name_at(ts, 0, origin),
            spec_name_at(ts, 1, origin),
            spec_dec_at(ts, 2, 0xFFFFFFFF),
            spec_dec_at(ts, 3, 0xFFFFFFFF),
            spec_dec_at(ts, 4, 0xFFFFFFFF),
            spec_dec_at(ts, 5, 0xFFFFFFFF),
            spec_dec_at(ts, 6, 0xFFFFFFFF),
        ) {
            (Some(m), Some(rn), Some(se), Some(rf), Some(rt2), Some(ex), Some(mi)) => Some(
                RDataV::SOA {
                    mname: m,
                    rname: rn,
                    serial: se as u32,
                    refresh: rf as u32,
                    retry: rt2 as u32,
                    expire: ex as u32,
                    minimum: mi as u32,
                },
            ),
            _ => None,
        },
        RecordType::TXT => match spec_parse_txt(ts) {
            Some(ss) => Some(RDataV::TXT(ss)),
            None => None,
        },
        _ => None,
    }
}

/// Fetch the bytes of the bare word at token position `i`.
fn chardata_at(tokens: &Vec<Token>, i: usize) -> (r: Result<Vec<u8>, ParseError>)
    ensures
        r is Ok <==> spec_chardata_at(tokens_view(*tokens), i as int) is Some,
        r matches Ok(v) ==> Some(v@) == spec_chardata_at(tokens_view(*tokens), i as int),
{
    if i >= tokens.len() {
        return Err(ParseError::MissingToken);
    }
    proof {
        assert(tokens_view(*tokens)[i as int] == tokens@[i as int]@);
    }
    match &tokens[i] {
        Token::CharData(s) => Ok(crate::text::copy_bytes(s)),
        _ => Err(ParseError::UnexpectedToken),
    }
}

/// Parse a domain name standing at token position `i`, qualified against
/// the origin if relative.
fn name_at(tokens: &Vec<Token>, i: usize, origin: &Name) -> (r: Result<Name, ParseError>)
    ensures
        r is Ok <==> spec_name_at(tokens_view(*tokens), i as int, origin@) is Some,
        r matches Ok(n) ==> Some(n@) == spec_name_at(tokens_view(*tokens), i as int, origin@)
            && n.wf(),
{
    let s = match chardata_at(tokens, i) {
        Ok(s) => s,
        Err(e) => { return Err(e) },
    };
    Name::parse(&s, origin)
}

/// Parse a 16-bit decimal literal standing at token position `i`.
fn u16_at(tokens: &Vec<Token>, i: usize) -> (r: Result<u16, ParseError>)
    ensures
        r is Ok <==> spec_dec_at(tokens_view(*tokens), i as int, 0xFFFF) is Some,
        r matches Ok(v) ==> Some(v as int) == spec_dec_at(
            tokens_view(*tokens),
            i as int,
            0xFFFF,
        ),
{
    let s = match chardata_at(tokens, i) {
        Ok(s) => s,
        Err(e) => { return Err(e) },
    };
    crate::text::parse_u16(&s)
}

/// Parse a 32-bit decimal literal standing at token position `i`.
fn u32_at(tokens: &Vec<Token>, i: usize) -> (r: Result<u32, ParseError>)
    ensures
        r is Ok <==> spec_dec_at(tokens_view(*tokens), i as int, 0xFFFFFFFF) is Some,
        r matches Ok(v) ==> Some(v as int) == spec_dec_at(
            tokens_view(*tokens),
            i as int,
            0xFFFFFFFF,
        ),
{
    let s = match chardata_at(tokens, i) {
        Ok(s) => s,
        Err(e) => { return Err(e) },
    };
    crate::text::parse_u32(&s)
}

/// Parse an AAAA literal: eight colon-separated groups of one to four hex
/// digits.
fn parse_aaaa(tokens: &Vec<Token>) -> (r: Result<Ipv6, ParseError>)
    ensures
        r is Ok <==> (match spec_chardata_at(tokens_view(*tokens), 0) {
            Some(s) => spec_parse_ipv6(s) is Some,
            None => false,
        }),
        r matches Ok(x) ==> (match spec_chardata_at(tokens_view(*tokens), 0) {
            Some(s) => spec_parse_ipv6(s) == Some(x),
            None => false,
        }),
{
    let s = match chardata_at(tokens, 0) {
        Ok(s) => s,
        Err(e) => { return Err(e) },
    };
    let ghost ps = crate::text::split_on(s@, 58);
    let parts = crate::text::split_bytes(&s, 58);
    proof {
        assert(strings_view(parts) == ps);
        assert(parts@.len() == ps.len());
    }
    if parts.len() != 8 {
        return Err(ParseError::UnexpectedToken);
    }
    proof {
        assert(ps[0] == parts@[0]@);
        assert(ps[1] == parts@[1]@);
        assert(ps[2] == parts@[2]@);
        assert(ps[3] == parts@[3]@);
        assert(ps[4] == parts@[4]@);
        assert(ps[5] == parts@[5]@);
        assert(ps[6] == parts@[6]@);
        assert(ps[7] == parts@[7]@);
    }
    let g0 = match crate::text::parse_hex_u16(&parts[0]) {
        Ok(v) => v,
        Err(e) => { return Err(e) },
    };
    let g1 = match crate::text::parse_hex_u16(&parts[1]) {
        Ok(v) => v,
        Err(e) => { return Err(e) },
    };
    let g2 = match crate::text::parse_hex_u16(&parts[2]) {
        Ok(v) => v,
        Err(e) => { return Err(e) },
    };
    let g3 = match crate::text::parse_hex_u16(&parts[3]) {
        Ok(v) => v,
        Err(e) => { return Err(e) },
    };
    let g4 = match crate::text::parse_hex_u16(&parts[4]) {
        Ok(v) => v,
        Err(e) => { return Err(e) },
    };
    let g5 = match crate::text::parse_hex_u16(&parts[5]) {
        Ok(v) => v,
        Err(e) => { return Err(e) },
    };
    let g6 = match crate::text::parse_hex_u16(&parts[6]) {
        Ok(v) => v,
        Err(e) => { return Err(e) },
    };
    let g7 = match crate::text::parse_hex_u16(&parts[7]) {
        Ok(v) => v,
        Err(e) => { return Err(e) },
    };
    proof {
        assert forall|k: int| 0 <= k < 8 implies 1 <= (#[trigger] ps[k]).len() <= 4
            && crate::text::all_hex(ps[k]) by {
            if k == 0 {
            } else if k == 1 {
            } else if k == 2 {
            } else if k == 3 {
            } else if k == 4 {
            } else if k == 5 {
            } else if k == 6 {
            } else {
            }
        }
    }
    Ok(Ipv6(g0, g1, g2, g3, g4, g5, g6, g7))
}

/// Parse a TXT rdata from its tokens: every token is one character-string
/// (a quoted token stays one string; bare words are one string per word),
/// in order, each at most 255 bytes, and at least one present.
fn parse_txt(tokens: &Vec<Token>) -> (r: Result<Vec<Vec<u8>>, ParseError>)
    ensures
        r is Ok <==> spec_parse_txt(tokens_view(*tokens)) is Some,
        r matches Ok(ss) ==> Some(strings_view(ss)) == spec_parse_txt(tokens_view(*tokens)),
{
    let ghost ts = tokens_view(*tokens);
    let ghost wanted = ts.map_values(|t: TokenV| tokv_bytes(t)->Some_0);
    if tokens.len() == 0 {
        return Err(ParseError::MissingToken);
    }
    let mut out: Vec<Vec<u8>> = Vec::new();
    let mut total: usize = 0;
    let mut i: usize = 0;
    proof {
        assert(txt_bytes(strings_view(out)) =~= Seq::<u8>::empty());
    }
    while i < tokens.len()
        invariant
            i <= tokens.len(),
            ts == tokens_view(*tokens),
            wanted == ts.map_values(|t: TokenV| tokv_bytes(t)->Some_0),
            ts.len() == tokens@.len(),
            out@.len() == i as int,
            forall|k: int|
                0 <= k < i ==> tokv_bytes(#[trigger] ts[k]) == Some(strings_view(out)[k])
                    && strings_view(out)[k].len() <= 255,
            total == txt_bytes(strings_view(out)).len(),
            total <= 0xFFFF,
        decreases tokens.len() - i,
    {
        proof {
            assert(ts[i as int] == tokens@[i as int]@);
        }
        let s = match &tokens[i] {
            Token::CharData(s) => crate::text::copy_bytes(s),
            Token::Quote(s) => crate::text::copy_bytes(s),
            _ => {
                proof {
                    assert(tokv_bytes(ts[i as int]) is None);
                }
                return Err(ParseError::UnexpectedToken);
            },
        };
        if s.len() > 255 {
            proof {
                assert(tokv_bytes(ts[i as int])->Some_0.len() > 255);
            }
            return Err(ParseError::UnexpectedToken);
        }
        if 0xFFFF - total < 1 + s.len() {
            // the whole rdata would no longer fit a 16-bit RDLENGTH
            proof {
                let part = strings_view(out).push(s@);
                assert(txt_bytes(part) == txt_bytes(strings_view(out)) + char_string_bytes(s@))
                    by {
                    lemma_txt_bytes_append(strings_view(out), s@);
                }
                assert(txt_bytes(part).len() > 0xFFFF);
                assert(part =~= wanted.take(i as int + 1)) by {
                    assert forall|k: int| 0 <= k < i + 1 implies part[k] == wanted[k] by {
                        if k < i {
                            assert(tokv_bytes(ts[k]) == Some(strings_view(out)[k]));
                        } else {
                            assert(tokv_bytes(ts[k]) == Some(s@));
                        }
                    }
                }
                assert(wanted.take(i as int + 1) + wanted.skip(i as int + 1) =~= wanted);
                lemma_txt_bytes_concat(wanted.take(i as int + 1), wanted.skip(i as int + 1));
                assert(txt_bytes(wanted).len() > 0xFFFF);
            }
            return Err(ParseError::UnexpectedToken);
        }
        total = total + 1 + s.len();
        let ghost before = strings_view(out);
        let ghost sv = s@;
        out.push(s);
        i = i + 1;
        proof {
            assert(strings_view(out) =~= before.push(sv));
            lemma_txt_bytes_append(before, sv);
        }
    }
    proof {
        assert(strings_view(out) =~= wanted) by {
            assert forall|k: int| 0 <= k < wanted.len() implies strings_view(out)[k]
                == wanted[k] by {
                assert(tokv_bytes(ts[k]) == Some(strings_view(out)[k]));
            }
        }
        assert forall|k: int| 0 <= k < ts.len() implies tokv_bytes(#[trigger] ts[k]) is Some
            && tokv_bytes(ts[k])->Some_0.len() <= 255 by {
            assert(tokv_bytes(ts[k]) == Some(strings_view(out)[k]));
            assert(strings_view(out)[k].len() <= 255);
        }
    }
    Ok(out)
}

/// Text-token parse of a record's data, dispatched on the record type,
/// applying each type's literal grammar; relative names inside the rdata
/// are qualified against the origin. A type without a text grammar is
/// rejected.
pub fn parse_rdata(rtype: RecordType, tokens: &Vec<Token>, origin: &Name) -> (r: Result<
    RData,
    ParseError,
>)
    ensures
        r is Ok <==> spec_parse_rdata(rtype, tokens_view(*tokens), origin@) is Some,
        r matches Ok(rd) ==> Some(rd@) == spec_parse_rdata(rtype, tokens_view(*tokens), origin@)
            && rdata_wf(rd@) && rdata_matches(rtype, rd@),
{
    match rtype {
        RecordType::A => {
            match a::parse(tokens) {
                Ok(v) => Ok(RData::A(v)),
                Err(e) => Err(e),
            }
        },
        RecordType::AAAA => {
            match parse_aaaa(tokens) {
                Ok(v) => Ok(RData::AAAA(v)),
                Err(e) => Err(e),
            }
        },
        RecordType::NS => {
            match name_at(tokens, 0, origin) {
                Ok(n) => Ok(RData::NS(n)),
                Err(e) => Err(e),
            }
        },
        RecordType::CNAME => {
            match name_at(tokens, 0, origin) {
                Ok(n) => Ok(RData::CNAME(n)),
                Err(e) => Err(e),
            }
        },
        RecordType::PTR => {
            match name_at(tokens, 0, origin) {
                Ok(n) => Ok(RData::PTR(n)),
                Err(e) => Err(e),
            }
        },
        RecordType::MX => {
            let p = match u16_at(tokens, 0) {
                Ok(v) => v,
                Err(e) => { return Err(e) },
            };
            match name_at(tokens, 1, origin) {
                Ok(n) => Ok(RData::MX { preference: p, exchange: n }),
                Err(e) => Err(e),
            }
        },
        RecordType::SRV => {
            let p = match u16_at(tokens, 0) {
                Ok(v) => v,
                Err(e) => { return Err(e) },
            };
            let w = match u16_at(tokens, 1) {
                Ok(v) => v,
                Err(e) => { return Err(e) },
            };
            let po = match u16_at(tokens, 2) {
                Ok(v) => v,
                Err(e) => { return Err(e) },
            };
            match name_at(tokens, 3, origin) {
                Ok(n) => Ok(RData::SRV { priority: p, weight: w, port: po, target: n }),
                Err(e) => Err(e),
            }
        },
        RecordType::SOA => {
            let m = match name_at(tokens, 0, origin) {
                Ok(n) => n,
                Err(e) => { return Err(e) },
            };
            let rn = match name_at(tokens, 1, origin) {
                Ok(n) => n,
                Err(e) => { return Err(e) },
            };
            let serial = match u32_at(tokens, 2) {
                Ok(v) => v,
                Err(e) => { return Err(e) },
            };
            let refresh = match u32_at(tokens, 3) {
                Ok(v) => v,
                Err(e) => { return Err(e) },
            };
            let retry = match u32_at(tokens, 4) {
                Ok(v) => v,
                Err(e) => { return Err(e) },
            };
            let expire = match u32_at(tokens, 5) {
                Ok(v) => v,
                Err(e) => { return Err(e) },
            };
            let minimum = match u32_at(tokens, 6) {
                Ok(v) => v,
                Err(e) => { return Err(e) },
            };
            Ok(
                RData::SOA {
                    mname: m,
                    rname: rn,
                    serial,
                    refresh,
                    retry,
                    expire,
                    minimum,
                },
            )
        },
        RecordType::TXT => {
            match parse_txt(tokens) {
                Ok(ss) => Ok(RData::TXT(ss)),
                Err(e) => Err(e),
            }
        },
        _ => Err(ParseError::UnexpectedToken),
    }
}

impl Clone for RData {
    /// Cloning keeps the value: the views of the copy and the original are
    /// equal.
    fn clone(&self) -> (r: Self)
        ensures
            r@ == self@,
    {
        let r = match self {
            RData::A(x) => RData::A(*x),
            RData::AAAA(x) => RData::AAAA(*x),
            RData::NS(n) => RData::NS(n.clone()),
            RData::CNAME(n) => RData::CNAME(n.clone()),
            RData::PTR(n) => RData::PTR(n.clone()),
            RData::MX { preference, exchange } => RData::MX {
                preference: *preference,
                exchange: exchange.clone(),
            },
            RData::SOA { mname, rname, serial, refresh, retry, expire, minimum } => RData::SOA {
                mname: mname.clone(),
                rname: rname.clone(),
                serial: *serial,
                refresh: *refresh,
                retry: *retry,
                expire: *expire,
                minimum: *minimum,
            },
            RData::SRV { priority, weight, port, target } => RData::SRV {
                priority: *priority,
                weight: *weight,
                port: *port,
                target: target.clone(),
            },
            RData::TXT(ss) => RData::TXT(crate::text::copy_strings(ss)),
            RData::Unknown(b) => RData::Unknown(crate::text::copy_bytes(b)),
        };
        proof {
            assert(r@ =~~= self@);
        }
        r
    }
}

/// Whether a payload is well-formed, as a value.
pub fn rdata_is_wf(rd: &RData) -> (r: bool)
    ensures
        r == rdata_wf(rd@),
{
    match rd {
        RData::A(_) => true,
        RData::AAAA(_) => true,
        RData::NS(n) => n.check().is_ok(),
        RData::CNAME(n) => n.check().is_ok(),
        RData::PTR(n) => n.check().is_ok(),
        RData::MX { exchange, .. } => exchange.check().is_ok(),
        RData::SOA { mname, rname, .. } => mname.check().is_ok() && rname.check().is_ok(),
        RData::SRV { target, .. } => target.check().is_ok(),
        RData::TXT(ss) => {
            if ss.len() == 0 {
                return false;
            }
            let mut total: usize = 0;
            let mut k: usize = 0;
            proof {
                assert(txt_bytes(strings_view(*ss).take(0)) =~= Seq::<u8>::empty());
            }
            while k < ss.len()
                invariant
                    k <= ss.len(),
                    rd@ == RDataV::TXT(strings_view(*ss)),
                    forall|i: int| 0 <= i < k ==> (#[trigger] strings_view(*ss)[i]).len()
                        <= 255,
                    total == txt_bytes(strings_view(*ss).take(k as int)).len(),
                    total <= 0xFFFF,
                decreases ss.len() - k,
            {
                if ss[k].len() > 255 {
                    proof {
                        assert(strings_view(*ss)[k as int] == ss@[k as int]@);
                    }
                    return false;
                }
                if 0xFFFF - total < 1 + ss[k].len() {
                    proof {
                        let sv = strings_view(*ss);
                        assert(sv[k as int] == ss@[k as int]@);
                        assert(sv.take(k as int + 1) =~= sv.take(k as int).push(sv[k as int]));
                        lemma_txt_bytes_append(sv.take(k as int), sv[k as int]);
                        assert(sv.take(k as int + 1) + sv.skip(k as int + 1) =~= sv);
                        lemma_txt_bytes_concat(sv.take(k as int + 1), sv.skip(k as int + 1));
                        assert(txt_bytes(sv).len() > 0xFFFF);
                    }
                    return false;
                }
                total = total + 1 + ss[k].len();
                k = k + 1;
                proof {
                    let sv = strings_view(*ss);
                    assert(sv[k as int - 1] == ss@[k as int - 1]@);
                    assert(sv.take(k as int) =~= sv.take(k as int - 1).push(sv[k as int - 1]));
                    lemma_txt_bytes_append(sv.take(k as int - 1), sv[k as int - 1]);
                }
            }
            proof {
                assert(strings_view(*ss).take(ss@.len() as int) =~= strings_view(*ss));
            }
            true
        },
        RData::Unknown(b) => b.len() <= 0xFFFF,
    }
}

/// Whether a payload's variant agrees with a declared record type.
pub fn rdata_tag_matches(rtype: RecordType, rd: &RData) -> (r: bool)
    ensures
        r == rdata_matches(rtype, rd@),
{
    match rd {
        RData::A(_) => matches!(rtype, RecordType::A),
        RData::AAAA(_) => matches!(rtype, RecordType::AAAA),
        RData::CNAME(_) => matches!(rtype, RecordType::CNAME),
        RData::MX { .. } => matches!(rtype, RecordType::MX),
        RData::NS(_) => matches!(rtype, RecordType::NS),
        RData::PTR(_) => matches!(rtype, RecordType::PTR),
        RData::SOA { .. } => matches!(rtype, RecordType::SOA),
        RData::SRV { .. } => matches!(rtype, RecordType::SRV),
        RData::TXT(_) => matches!(rtype, RecordType::TXT),
        RData::Unknown(_) => !(matches!(rtype, RecordType::A) || matches!(rtype, RecordType::AAAA)
            || matches!(rtype, RecordType::CNAME) || matches!(rtype, RecordType::MX) || matches!(
            rtype,
            RecordType::NS,
        ) || matches!(rtype, RecordType::PTR) || matches!(rtype, RecordType::SOA) || matches!(
            rtype,
            RecordType::SRV,
        ) || matches!(rtype, RecordType::TXT)),
    }
}

/// One hexadecimal digit, lower case.
pub open spec fn hex_digit(d: int) -> u8 {
    if d < 10 {
        (48 + d) as u8
    } else {
        (87 + d) as u8
    }
}

/// Canonical hexadecimal text of one 16-bit group: no leading zero.
pub open spec fn u16_hex_text(g: u16) -> Seq<u8> {
    if g >= 0x1000 {
        seq![
            hex_digit(g as int / 0x1000),
            hex_digit((g as int / 0x100) % 16),
            hex_digit((g as int / 16) % 16),
            hex_digit(g as int % 16),
        ]
    } else if g >= 0x100 {
        seq![
            hex_digit(g as int / 0x100),
            hex_digit((g as int / 16) % 16),
            hex_digit(g as int % 16),
        ]
    } else if g >= 16 {
        seq![hex_digit(g as int / 16), hex_digit(g as int % 16)]
    } else {
        seq![hex_digit(g as int)]
    }
}

/// Canonical colon-hex display text of an IPv6 address: eight groups.
pub open spec fn ipv6_text(x: Ipv6) -> Seq<u8> {
    u16_hex_text(x.0) + seq![58u8] + u16_hex_text(x.1) + seq![58u8] + u16_hex_text(x.2) + seq![
        58u8,
    ] + u16_hex_text(x.3) + seq![58u8] + u16_hex_text(x.4) + seq![58u8] + u16_hex_text(x.5)
        + seq![58u8] + u16_hex_text(x.6) + seq![58u8] + u16_hex_text(x.7)
}

/// Append one hexadecimal digit, lower case.
fn push_hex_digit(out: &mut Vec<u8>, d: u16)
    requires
        d < 16,
    ensures
        final(out)@ == old(out)@.push(hex_digit(d as int)),
{
    if d < 10 {
        out.push(48 + d as u8);
    } else {
        out.push(87 + d as u8);
    }
}

/// Append the canonical hexadecimal text of one group.
fn push_hex_group(out: &mut Vec<u8>, g: u16)
    ensures
        final(out)@ == old(out)@ + u16_hex_text(g),
{
    if g >= 0x1000 {
        push_hex_digit(out, g / 0x1000);
        push_hex_digit(out, (g / 0x100) % 16);
        push_hex_digit(out, (g / 16) % 16);
        push_hex_digit(out, g % 16);
    } else if g >= 0x100 {
        push_hex_digit(out, g / 0x100);
        push_hex_digit(out, (g / 16) % 16);
        push_hex_digit(out, g % 16);
    } else if g >= 16 {
        push_hex_digit(out, g / 16);
        push_hex_digit(out, g % 16);
    } else {
        push_hex_digit(out, g);
    }
    proof {
        assert(out@ =~= old(out)@ + u16_hex_text(g));
    }
}

/// The canonical colon-hex display text of an address.
pub fn ipv6_to_text(x: &Ipv6) -> (r: Vec<u8>)
    ensures
        r@ == ipv6_text(*x),
{
    let mut out: Vec<u8> = Vec::new();
    push_hex_group(&mut out, x.0);
    out.push(58);
    push_hex_group(&mut out, x.1);
    out.push(58);
    push_hex_group(&mut out, x.2);
    out.push(58);
    push_hex_group(&mut out, x.3);
    out.push(58);
    push_hex_group(&mut out, x.4);
    out.push(58);
    push_hex_group(&mut out, x.5);
    out.push(58);
    push_hex_group(&mut out, x.6);
    out.push(58);
    push_hex_group(&mut out, x.7);
    proof {
        assert(out@ =~= ipv6_text(*x));
    }
    out
}

/// The canonical hexadecimal text of one group is a valid group literal
/// with that value, and holds no colon.
pub proof fn lemma_u16_hex_canon(g: u16)
    ensures
        1 <= u16_hex_text(g).len() <= 4,
        crate::text::all_hex(u16_hex_text(g)),
        crate::text::hex_seq_val(u16_hex_text(g)) == g,
        forall|j: int| 0 <= j < u16_hex_text(g).len() ==> u16_hex_text(g)[j] != 58,
{
    let t = u16_hex_text(g);
    assert(crate::text::hex_seq_val(Seq::<u8>::empty()) == 0);
    assert forall|d: int| 0 <= d < 16 implies crate::text::hex_val(hex_digit(d)) == d && hex_digit(
        d,
    ) != 58 by {}
    if g >= 0x1000 {
        let t1 = seq![hex_digit(g as int / 0x1000)];
        let t2 = t1.push(hex_digit((g as int / 0x100) % 16));
        let t3 = t2.push(hex_digit((g as int / 16) % 16));
        assert(t1.drop_last() =~= Seq::<u8>::empty());
        assert(crate::text::hex_seq_val(t1) == g as int / 0x1000);
        assert(t2.drop_last() =~= t1);
        assert(crate::text::hex_seq_val(t2) == (g as int / 0x1000) * 16 + (g as int / 0x100)
            % 16);
        assert(t3.drop_last() =~= t2);
        assert(crate::text::hex_seq_val(t3) == crate::text::hex_seq_val(t2) * 16 + (g as int
            / 16) % 16);
        assert(t.drop_last() =~= t3);
        assert(crate::text::hex_seq_val(t) == crate::text::hex_seq_val(t3) * 16 + g as int
            % 16);
        assert(g as int / 0x100 == (g as int / 0x1000) * 16 + (g as int / 0x100) % 16);
        assert(g as int / 16 == (g as int / 0x100) * 16 + (g as int / 16) % 16);
        assert(g as int == (g as int / 16) * 16 + g as int % 16);
    } else if g >= 0x100 {
        let t1 = seq![hex_digit(g as int / 0x100)];
        let t2 = t1.push(hex_digit((g as int / 16) % 16));
        assert(t1.drop_last() =~= Seq::<u8>::empty());
        assert(crate::text::hex_seq_val(t1) == g as int / 0x100);
        assert(t2.drop_last() =~= t1);
        assert(crate::text::hex_seq_val(t2) == (g as int / 0x100) * 16 + (g as int / 16) % 16);
        assert(t.drop_last() =~= t2);
        assert(g as int / 16 == (g as int / 0x100) * 16 + (g as int / 16) % 16);
        assert(g as int == (g as int / 16) * 16 + g as int % 16);
    } else if g >= 16 {
        let t1 = seq![hex_digit(g as int / 16)];
        assert(t1.drop_last() =~= Seq::<u8>::empty());
        assert(crate::text::hex_seq_val(t1) == g as int / 16);
        assert(t.drop_last() =~= t1);
        assert(g as int == (g as int / 16) * 16 + g as int % 16);
    } else {
        assert(t.drop_last() =~= Seq::<u8>::empty());
    }
}

/// Text round trip: parsing the canonical display text of an address gives
/// back exactly that address.
#[verifier::rlimit(60)]
pub proof fn lemma_ipv6_text_round_trip(x: Ipv6)
    ensures
        spec_parse_ipv6(ipv6_text(x)) == Some(x),
{
    lemma_u16_hex_canon(x.0);
    lemma_u16_hex_canon(x.1);
    lemma_u16_hex_canon(x.2);
    lemma_u16_hex_canon(x.3);
    lemma_u16_hex_canon(x.4);
    lemma_u16_hex_canon(x.5);
    lemma_u16_hex_canon(x.6);
    lemma_u16_hex_canon(x.7);
    let t0 = u16_hex_text(x.0);
    let t1 = u16_hex_text(x.1);
    let t2 = u16_hex_text(x.2);
    let t3 = u16_hex_text(x.3);
    let t4 = u16_hex_text(x.4);
    let t5 = u16_hex_text(x.5);
    let t6 = u16_hex_text(x.6);
    let t7 = u16_hex_text(x.7);
    let s = ipv6_text(x);
    let c = seq![58u8];
    assert(s =~= t0 + c + (t1 + c + (t2 + c + (t3 + c + (t4 + c + (t5 + c + (t6 + c + t7)))))));
    a::lemma_split_at_sep(t0, t1 + c + (t2 + c + (t3 + c + (t4 + c + (t5 + c + (t6 + c
        + t7))))), 58);
    a::lemma_split_at_sep(t1, t2 + c + (t3 + c + (t4 + c + (t5 + c + (t6 + c + t7)))), 58);
    a::lemma_split_at_sep(t2, t3 + c + (t4 + c + (t5 + c + (t6 + c + t7))), 58);
    a::lemma_split_at_sep(t3, t4 + c + (t5 + c + (t6 + c + t7)), 58);
    a::lemma_split_at_sep(t4, t5 + c + (t6 + c + t7), 58);
    a::lemma_split_at_sep(t5, t6 + c + t7, 58);
    a::lemma_split_at_sep(t6, t7, 58);
    crate::text::lemma_find_sep_none(t7, 58);
    let ps = crate::text::split_on(s, 58);
    assert(ps =~= seq![t0] + (seq![t1] + (seq![t2] + (seq![t3] + (seq![t4] + (seq![t5] + (seq![
        t6,
    ] + seq![t7])))))));
    assert(ps.len() == 8);
    assert(ps[0] == t0 && ps[1] == t1 && ps[2] == t2 && ps[3] == t3 && ps[4] == t4 && ps[5]
        == t5 && ps[6] == t6 && ps[7] == t7);
    assert(forall|k: int|
        0 <= k < 8 ==> 1 <= (#[trigger] ps[k]).len() <= 4 && crate::text::all_hex(ps[k]));
}

} // verus!
