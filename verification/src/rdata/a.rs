//! IPv4 address record data (A records, RFC 1035 §3.4.1): four raw octets
//! on the wire, a dotted-quad decimal literal in zone text.

use vstd::prelude::*;

use crate::binary::BinDecoder;
use crate::binary::BinEncoder;
use crate::error::DecodeError;
use crate::error::EncodeError;
use crate::error::ParseError;
use crate::lexer::Token;
use crate::text::dec_val;
use crate::text::is_canon_dec_u8;
use crate::text::parse_canon_u8;
use crate::text::split_bytes;
use crate::text::split_on;
use crate::text::strings_view;
use crate::text::lemma_find_sep_at;
use crate::text::lemma_find_sep_none;

verus! {

/// An IPv4 address: four octets, most significant first.
#[derive(Clone, Copy, Debug, PartialEq, Eq, Structural)]
pub struct Ipv4(pub u8, pub u8, pub u8, pub u8);

/// The wire bytes of an A record's rdata.
pub open spec fn ipv4_bytes(v: Ipv4) -> Seq<u8> {
    seq![v.0, v.1, v.2, v.3]
}

/// Canonical decimal text of one octet: no leading zero.
pub open spec fn u8_text(b: u8) -> Seq<u8> {
    if b >= 100 {
        seq![(48 + b / 100) as u8, (48 + (b / 10) % 10) as u8, (48 + b % 10) as u8]
    } else if b >= 10 {
        seq![(48 + b / 10) as u8, (48 + b % 10) as u8]
    } else {
        seq![(48 + b) as u8]
    }
}

/// Canonical dotted-quad display text.
pub open spec fn ipv4_text(v: Ipv4) -> Seq<u8> {
    u8_text(v.0) + seq![46u8] + u8_text(v.1) + seq![46u8] + u8_text(v.2) + seq![46u8] + u8_text(
        v.3,
    )
}

/// The dotted-quad literal grammar: exactly four canonical decimal octets
/// separated by dots.
pub open spec fn spec_parse_ipv4(s: Seq<u8>) -> Option<Ipv4> {
    let ps = split_on(s, 46);
    if ps.len() == 4 && is_canon_dec_u8(ps[0]) && is_canon_dec_u8(ps[1]) && is_canon_dec_u8(
        ps[2],
    ) && is_canon_dec_u8(ps[3]) {
        Some(Ipv4(dec_val(ps[0]) as u8, dec_val(ps[1]) as u8, dec_val(ps[2]) as u8, dec_val(
            ps[3],
        ) as u8))
    } else {
        None
    }
}

/// Read the rdata from the given decoder: the next four bytes, in order.
pub fn read(decoder: &mut BinDecoder) -> (r: Result<Ipv4, DecodeError>)
    requires
        old(decoder).wf(),
    ensures
        final(decoder).wf(),
        final(decoder).bytes() == old(decoder).bytes(),
        r is Ok <==> old(decoder).position() + 4 <= old(decoder).bytes().len(),
        r matches Ok(v) ==> final(decoder).position() == old(decoder).position() + 4
            && ipv4_bytes(v) == old(decoder).bytes().subrange(
            old(decoder).position(),
            old(decoder).position() + 4,
        ),
        r is Err ==> r matches Err(DecodeError::Truncated),
{
    let b0 = match decoder.pop() {
        Ok(b) => b,
        Err(e) => { return Err(e) },
    };
    let b1 = match decoder.pop() {
        Ok(b) => b,
        Err(e) => { return Err(e) },
    };
    let b2 = match decoder.pop() {
        Ok(b) => b,
        Err(e) => { return Err(e) },
    };
    let b3 = match decoder.pop() {
        Ok(b) => b,
        Err(e) => { return Err(e) },
    };
    let v = Ipv4(b0, b1, b2, b3);
    proof {
        assert(ipv4_bytes(v) =~= old(decoder).bytes().subrange(
            old(decoder).position(),
            old(decoder).position() + 4,
        ));
    }
    Ok(v)
}

/// Write the rdata to the given encoder: the four octets, in order.
pub fn emit(encoder: &mut BinEncoder, address: &Ipv4) -> (r: Result<(), EncodeError>)
    ensures
        r is Ok,
        final(encoder).bytes() == old(encoder).bytes() + ipv4_bytes(*address),
{
    encoder.emit(address.0);
    encoder.emit(address.1);
    encoder.emit(address.2);
    encoder.emit(address.3);
    proof {
        assert(encoder.bytes() =~= old(encoder).bytes() + ipv4_bytes(*address));
    }
    Ok(())
}

/// Parse the rdata from a token sequence: one character-data token holding
/// a dotted-quad literal. Succeeds exactly when the first token is such a
/// literal.
pub fn parse(tokens: &Vec<Token>) -> (r: Result<Ipv4, ParseError>)
    ensures
        r matches Ok(v) ==> tokens@.len() >= 1 && (match tokens@[0] {
            Token::CharData(s) => spec_parse_ipv4(s@) == Some(v),
            _ => false,
        }),
        r is Err ==> tokens@.len() == 0 || (match tokens@[0] {
            Token::CharData(s) => spec_parse_ipv4(s@) is None,
            _ => true,
        }),
        tokens@.len() == 0 ==> r == Err::<Ipv4, ParseError>(ParseError::MissingToken),
        tokens@.len() >= 1 && !(tokens@[0] matches Token::CharData(_)) ==> r == Err::<
            Ipv4,
            ParseError,
        >(ParseError::UnexpectedToken),
        tokens@.len() >= 1 && (match tokens@[0] {
            Token::CharData(s) => split_on(s@, 46).len() != 4,
            _ => false,
        }) ==> r == Err::<Ipv4, ParseError>(ParseError::UnexpectedToken),
        tokens@.len() >= 1 && (match tokens@[0] {
            Token::CharData(s) => split_on(s@, 46).len() == 4 && spec_parse_ipv4(s@) is None,
            _ => false,
        }) ==> r == Err::<Ipv4, ParseError>(ParseError::InvalidNumber),
{
    if tokens.len() == 0 {
        return Err(ParseError::MissingToken);
    }
    match &tokens[0] {
        Token::CharData(s) => {
            let parts = split_bytes(s, 46);
            proof {
                assert(strings_view(parts) == split_on(s@, 46));
                assert(parts@.len() == split_on(s@, 46).len());
            }
            if parts.len() != 4 {
                return Err(ParseError::UnexpectedToken);
            }
            proof {
                assert(parts@[0]@ == split_on(s@, 46)[0]);
                assert(parts@[1]@ == split_on(s@, 46)[1]);
                assert(parts@[2]@ == split_on(s@, 46)[2]);
                assert(parts@[3]@ == split_on(s@, 46)[3]);
            }
            let o0 = match parse_canon_u8(&parts[0]) {
                Ok(v) => v,
                Err(e) => { return Err(e) },
            };
            let o1 = match parse_canon_u8(&parts[1]) {
                Ok(v) => v,
                Err(e) => { return Err(e) },
            };
            let o2 = match parse_canon_u8(&parts[2]) {
                Ok(v) => v,
                Err(e) => { return Err(e) },
            };
            let o3 = match parse_canon_u8(&parts[3]) {
                Ok(v) => v,
                Err(e) => { return Err(e) },
            };
            Ok(Ipv4(o0, o1, o2, o3))
        },
        _ => Err(ParseError::UnexpectedToken),
    }
}

/// The canonical dotted-quad display text of an address.
pub fn to_text(address: &Ipv4) -> (r: Vec<u8>)
    ensures
        r@ == ipv4_text(*address),
{
    let mut out: Vec<u8> = Vec::new();
    push_u8_text(&mut out, address.0);
    out.push(46);
    push_u8_text(&mut out, address.1);
    out.push(46);
    push_u8_text(&mut out, address.2);
    out.push(46);
    push_u8_text(&mut out, address.3);
    proof {
        assert(out@ =~= ipv4_text(*address));
    }
    out
}

/// Append the canonical decimal text of one octet.
fn push_u8_text(out: &mut Vec<u8>, b: u8)
    ensures
        final(out)@ == old(out)@ + u8_text(b),
{
    if b >= 100 {
        out.push(48 + b / 100);
        out.push(48 + (b / 10) % 10);
        out.push(48 + b % 10);
    } else if b >= 10 {
        out.push(48 + b / 10);
        out.push(48 + b % 10);
    } else {
        out.push(48 + b);
    }
    proof {
        assert(out@ =~= old(out)@ + u8_text(b));
    }
}

/// The canonical text of one octet is a canonical decimal literal with that
/// value.
pub proof fn lemma_u8_text_canon(b: u8)
    ensures
        is_canon_dec_u8(u8_text(b)),
        dec_val(u8_text(b)) == b,
        forall|j: int| 0 <= j < u8_text(b).len() ==> u8_text(b)[j] != 46,
{
    let t = u8_text(b);
    if b >= 100 {
        let t1 = seq![(48 + b / 100) as u8];
        let t2 = seq![(48 + b / 100) as u8, (48 + (b / 10) % 10) as u8];
        assert(dec_val(Seq::<u8>::empty()) == 0);
        assert(t1.drop_last() =~= Seq::<u8>::empty());
        assert(dec_val(t1) == b / 100);
        assert(t2.drop_last() =~= t1);
        assert(dec_val(t2) == (b / 100) * 10 + (b / 10) % 10);
        assert(t.drop_last() =~= t2);
        assert(dec_val(t) == dec_val(t2) * 10 + (b % 10));
        assert(b / 100 * 100 + (b / 10) % 10 * 10 + b % 10 == b) by {
            assert(b / 10 == (b / 100) * 10 + (b / 10) % 10);
            assert(b == (b / 10) * 10 + b % 10);
        }
    } else if b >= 10 {
        let t1 = seq![(48 + b / 10) as u8];
        assert(dec_val(Seq::<u8>::empty()) == 0);
        assert(t1.drop_last() =~= Seq::<u8>::empty());
        assert(dec_val(t1) == b / 10);
        assert(t.drop_last() =~= t1);
        assert(dec_val(t) == (b / 10) * 10 + b % 10);
        assert(b == (b / 10) * 10 + b % 10);
    } else {
        assert(dec_val(Seq::<u8>::empty()) == 0);
        assert(t.drop_last() =~= Seq::<u8>::empty());
    }
}

/// Splitting at a separator that the head does not contain peels off the
/// head as one part.
pub proof fn lemma_split_at_sep(a: Seq<u8>, b: Seq<u8>, sep: u8)
    requires
        forall|j: int| 0 <= j < a.len() ==> a[j] != sep,
    ensures
        split_on(a + seq![sep] + b, sep) == seq![a] + split_on(b, sep),
{
    let s = a + seq![sep] + b;
    assert(s[a.len() as int] == sep);
    lemma_find_sep_at(s, sep, a.len() as int);
    assert(s.take(a.len() as int) =~= a);
    assert(s.skip(a.len() as int + 1) =~= b);
}

/// Text round trip: parsing the canonical display text of an address gives
/// back exactly that address.
pub proof fn lemma_ipv4_text_round_trip(v: Ipv4)
    ensures
        spec_parse_ipv4(ipv4_text(v)) == Some(v),
{
    lemma_u8_text_canon(v.0);
    lemma_u8_text_canon(v.1);
    lemma_u8_text_canon(v.2);
    lemma_u8_text_canon(v.3);
    let t0 = u8_text(v.0);
    let t1 = u8_text(v.1);
    let t2 = u8_text(v.2);
    let t3 = u8_text(v.3);
    let s = ipv4_text(v);
    assert(s =~= t0 + seq![46u8] + (t1 + seq![46u8] + (t2 + seq![46u8] + t3)));
    lemma_split_at_sep(t0, t1 + seq![46u8] + (t2 + seq![46u8] + t3), 46);
    assert(t1 + seq![46u8] + (t2 + seq![46u8] + t3) =~= t1 + seq![46u8] + (t2 + seq![46u8]
        + t3));
    lemma_split_at_sep(t1, t2 + seq![46u8] + t3, 46);
    lemma_split_at_sep(t2, t3, 46);
    lemma_find_sep_none(t3, 46);
    assert(split_on(t3, 46) == seq![t3]);
    let ps = split_on(s, 46);
    assert(ps =~= seq![t0] + (seq![t1] + (seq![t2] + seq![t3])));
    assert(ps.len() == 4);
    assert(ps[0] == t0 && ps[1] == t1 && ps[2] == t2 && ps[3] == t3);
}

} // verus!
