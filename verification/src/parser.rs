//! Zone parser: consumes the lexer's token stream plus an origin name and
//! produces the full record set of a zone, resolving relative names and the
//! `$ORIGIN` / `$TTL` context. A zone loads atomically: one malformed record
//! fails the whole load and no record is produced.

use vstd::prelude::*;

use crate::error::ParseError;
use crate::lexer::lex;
use crate::lexer::spec_lex;
use crate::lexer::Token;
use crate::lexer::TokenV;
use crate::lexer::tokens_view;
use crate::name::Name;
use crate::name::name_wf;
use crate::name::spec_parse_name;
use crate::rdata::parse_rdata;
use crate::rdata::spec_parse_rdata;
use crate::rdata::RData;
use crate::rdata::RDataV;
use crate::record::record_wf;
use crate::record::spec_class_from_text;
use crate::record::Record;
use crate::record::RecordClass;
use crate::record::RecordV;
use crate::rtype::rtype_wf;
use crate::rtype::spec_rtype_from_text;
use crate::rtype::RecordType;
use crate::text::all_digits;
use crate::text::copy_bytes;
use crate::text::dec_val;
use crate::text::parse_u32;

verus! {

/// The record values held by a record vector.
pub open spec fn records_view(v: Vec<Record>) -> Seq<RecordV> {
    v@.map_values(|r: Record| r@)
}

/// All records of a sequence are well-formed.
pub open spec fn records_wf(rs: Seq<RecordV>) -> bool {
    forall|i: int| 0 <= i < rs.len() ==> record_wf(#[trigger] rs[i])
}

/// How many SOA records a sequence holds.
pub open spec fn count_soa(rs: Seq<RecordV>) -> int
    decreases rs.len(),
{
    if rs.len() == 0 {
        0
    } else {
        count_soa(rs.drop_last()) + (if rs.last().rtype == RecordType::SOA {
            1int
        } else {
            0int
        })
    }
}

pub proof fn lemma_count_soa_push(rs: Seq<RecordV>, r: RecordV)
    ensures
        count_soa(rs.push(r)) == count_soa(rs) + (if r.rtype == RecordType::SOA {
            1int
        } else {
            0int
        }),
{
    assert(rs.push(r).drop_last() =~= rs);
    assert(rs.push(r).last() == r);
}


/// The labels a resolved owner name holds, if one is in force.
pub open spec fn opt_name_view(o: Option<Name>) -> Option<Seq<Seq<u8>>> {
    match o {
        Some(n) => Some(n@),
        None => None,
    }
}

/// The optional TTL / class prefix and the type keyword of a record line,
/// by type-sniffing: a token naming a record type ends the prefix, a class
/// keyword sets the class, a decimal literal sets the TTL, and anything
/// else fails the line. Yields the fields and how many tokens the prefix
/// spans, type keyword included.
pub open spec fn spec_sniff(ts: Seq<TokenV>, ttl: Option<u32>, class: RecordClass) -> Option<
    (Option<u32>, RecordClass, RecordType, int),
>
    decreases ts.len(),
{
    if ts.len() == 0 {
        None
    } else {
        match ts[0] {
            TokenV::CharData(w) => match spec_rtype_from_text(w) {
                Some(t) => Some((ttl, class, t, 1)),
                None => match spec_class_from_text(w) {
                    Some(c) => match spec_sniff(ts.skip(1), ttl, c) {
                        Some(p) => Some((p.0, p.1, p.2, p.3 + 1)),
                        None => None,
                    },
                    None => if w.len() >= 1 && all_digits(w) && dec_val(w) <= 0xFFFFFFFF {
                        match spec_sniff(ts.skip(1), Some(dec_val(w) as u32), class) {
                            Some(p) => Some((p.0, p.1, p.2, p.3 + 1)),
                            None => None,
                        }
                    } else {
                        None
                    },
                },
            },
            _ => None,
        }
    }
}

/// The rdata tokens of a record line: everything before the line's end,
/// and how many tokens that is (the end-of-line token not counted). A
/// `Blank` inside a line fails it.
pub open spec fn spec_take_line(ts: Seq<TokenV>) -> Option<(Seq<TokenV>, int)>
    decreases ts.len(),
{
    if ts.len() == 0 {
        Some((Seq::empty(), 0))
    } else {
        match ts[0] {
            TokenV::EOL => Some((Seq::<TokenV>::empty(), 0int)),
            TokenV::Blank => None,
            t => match spec_take_line(ts.skip(1)) {
                Some(p) => Some((seq![t] + p.0, p.1 + 1)),
                None => None,
            },
        }
    }
}

/// A record\'s TTL, in resolution order: its explicit field, else the
/// `$TTL` default in force, else the minimum of this record when it is the
/// SOA; otherwise the record has no TTL and fails the zone.
pub open spec fn spec_resolve_ttl(ttl: Option<u32>, dttl: Option<u32>, rd: RDataV) -> Option<u32> {
    match ttl {
        Some(t) => Some(t),
        None => match dttl {
            Some(t) => Some(t),
            None => match rd {
                RDataV::SOA { minimum, .. } => Some(minimum),
                _ => None,
            },
        },
    }
}

/// The tail of a record line, once its owner, prefix and rdata tokens are
/// fixed: at most one SOA per zone, the rdata grammar of the type, and the
/// TTL resolution; yields the record, the `$TTL` default now in force (an
/// SOA seeds it with its minimum when none was set), and whether the SOA
/// has now been taken.
pub open spec fn spec_line_tail(
    rt: RecordType,
    class: RecordClass,
    ttl: Option<u32>,
    lv: Seq<TokenV>,
    owner: Seq<Seq<u8>>,
    org: Seq<Seq<u8>>,
    dttl: Option<u32>,
    have_soa: bool,
) -> Option<(RecordV, Option<u32>, bool)> {
    if rt == RecordType::SOA && have_soa {
        None
    } else {
        match spec_parse_rdata(rt, lv, org) {
            None => None,
            Some(rd) => match spec_resolve_ttl(ttl, dttl, rd) {
                None => None,
                Some(t) => {
                    let dttl2 = if rt == RecordType::SOA && dttl is None {
                        Some(rd->SOA_minimum)
                    } else {
                        dttl
                    };
                    let rec = RecordV { name: owner, rtype: rt, class, ttl: t, rdata: rd };
                    Some((rec, dttl2, have_soa || rt == RecordType::SOA))
                },
            },
        }
    }
}

/// One record line, from the token after the owner position: the sniffed
/// prefix, the rdata tokens to end of line, and the line's tail; then the
/// rest of the zone.
pub open spec fn spec_zone_line(
    ts: Seq<TokenV>,
    owner: Seq<Seq<u8>>,
    org: Seq<Seq<u8>>,
    dttl: Option<u32>,
    have_soa: bool,
) -> Option<Seq<RecordV>>
    decreases ts.len(), 0int,
{
    match spec_sniff(ts, None, RecordClass::IN) {
        None => None,
        Some(sn) => {
            if !(1 <= sn.3 <= ts.len()) {
                None
            } else {
                match spec_take_line(ts.skip(sn.3)) {
                    None => None,
                    Some(ln) => {
                        if !(0 <= ln.1 <= ts.len() - sn.3) {
                            None
                        } else {
                            match spec_line_tail(
                                sn.2,
                                sn.1,
                                sn.0,
                                ln.0,
                                owner,
                                org,
                                dttl,
                                have_soa,
                            ) {
                                None => None,
                                Some(q) => match spec_zone(
                                    ts.skip(sn.3 + ln.1),
                                    org,
                                    Some(owner),
                                    q.1,
                                    q.2,
                                ) {
                                    Some(more) => Some(seq![q.0] + more),
                                    None => None,
                                },
                            }
                        }
                    },
                }
            }
        },
    }
}

/// The zone grammar over the token stream, with the parse context: the
/// origin in force, the owner a continuation line inherits, the `$TTL`
/// default, and whether an SOA was already taken. Line ends separate
/// records; a `Blank` starts a continuation line; `$ORIGIN` and `$TTL`
/// each take one bare-word argument; `@` is the origin and needs it
/// well-formed; any other bare word opens a record line with that owner.
pub open spec fn spec_zone(
    ts: Seq<TokenV>,
    org: Seq<Seq<u8>>,
    cur: Option<Seq<Seq<u8>>>,
    dttl: Option<u32>,
    have_soa: bool,
) -> Option<Seq<RecordV>>
    decreases ts.len(), 1int,
{
    if ts.len() == 0 {
        Some(Seq::empty())
    } else {
        match ts[0] {
            TokenV::EOL => spec_zone(ts.skip(1), org, cur, dttl, have_soa),
            TokenV::Blank => {
                if ts.len() == 1 {
                    Some(Seq::empty())
                } else {
                    match ts[1] {
                        TokenV::EOL => spec_zone(ts.skip(2), org, cur, dttl, have_soa),
                        _ => match cur {
                            Some(own) => spec_zone_line(ts.skip(1), own, org, dttl, have_soa),
                            None => None,
                        },
                    }
                }
            },
            TokenV::CharData(s) => {
                if s.len() >= 1 && s[0] == 36 {
                    if s == seq![36u8, 79u8, 82u8, 73u8, 71u8, 73u8, 78u8] {
                        if ts.len() < 2 {
                            None
                        } else {
                            match ts[1] {
                                TokenV::CharData(a) => match spec_parse_name(a, org) {
                                    Some(o2) => spec_zone(ts.skip(2), o2, cur, dttl, have_soa),
                                    None => None,
                                },
                                _ => None,
                            }
                        }
                    } else if s == seq![36u8, 84u8, 84u8, 76u8] {
                        if ts.len() < 2 {
                            None
                        } else {
                            match ts[1] {
                                TokenV::CharData(a) => if a.len() >= 1 && all_digits(a)
                                    && dec_val(a) <= 0xFFFFFFFF {
                                    spec_zone(
                                        ts.skip(2),
                                        org,
                                        cur,
                                        Some(dec_val(a) as u32),
                                        have_soa,
                                    )
                                } else {
                                    None
                                },
                                _ => None,
                            }
                        }
                    } else {
                        None
                    }
                } else if s == seq![64u8] {
                    if name_wf(org) {
                        spec_zone_line(ts.skip(1), org, org, dttl, have_soa)
                    } else {
                        None
                    }
                } else {
                    match spec_parse_name(s, org) {
                        Some(n) => spec_zone_line(ts.skip(1), n, org, dttl, have_soa),
                        None => None,
                    }
                }
            },
            TokenV::Quote(_) => None,
        }
    }
}

/// What a whole zone text means against an origin: its tokenization, then
/// the zone grammar from the empty context.
pub open spec fn spec_parse_zone(text: Seq<u8>, origin: Seq<Seq<u8>>) -> Option<Seq<RecordV>> {
    match spec_lex(text) {
        Some(ts) => spec_zone(ts, origin, None, None, false),
        None => None,
    }
}


/// Shift a sniff result by tokens already consumed.
pub open spec fn sniff_shift(
    o: Option<(Option<u32>, RecordClass, RecordType, int)>,
    d: int,
) -> Option<(Option<u32>, RecordClass, RecordType, int)> {
    match o {
        Some(p) => Some((p.0, p.1, p.2, p.3 + d)),
        None => None,
    }
}

pub proof fn lemma_sniff_shift_zero(o: Option<(Option<u32>, RecordClass, RecordType, int)>)
    ensures
        sniff_shift(o, 0) == o,
{
    match o {
        Some(p) => {
            assert((p.0, p.1, p.2, p.3 + 0int) =~= p);
        },
        None => {},
    }
}

/// Shift a line-collection result by tokens already collected.
pub open spec fn line_shift(
    o: Option<(Seq<TokenV>, int)>,
    pre: Seq<TokenV>,
    d: int,
) -> Option<(Seq<TokenV>, int)> {
    match o {
        Some(p) => Some((pre + p.0, p.1 + d)),
        None => None,
    }
}

pub proof fn lemma_line_shift_zero(o: Option<(Seq<TokenV>, int)>)
    ensures
        line_shift(o, Seq::empty(), 0) == o,
{
    match o {
        Some(p) => {
            assert(Seq::<TokenV>::empty() + p.0 =~= p.0);
            assert((Seq::<TokenV>::empty() + p.0, p.1 + 0int) =~= p);
        },
        None => {},
    }
}

/// Parse a whole zone text against a caller-supplied origin.
///
/// The load is atomic: the first malformed record, unknown type keyword,
/// missing mandatory token or bad directive fails the whole zone, and no
/// record is handed out. A second SOA record fails the zone with
/// `DuplicateSoa`, so a loaded zone holds at most one. A record's TTL is,
/// in order: its explicit TTL field, else the `$TTL` directive in force,
/// else the minimum of an SOA already seen (an SOA line itself may fall
/// back on its own minimum); a record with none of the three fails the
/// zone with `MissingTtl`.
/// The tail of one record line, its owner, prefix and rdata tokens fixed:
/// enforce SOA uniqueness, parse the rdata, resolve the TTL, and append the
/// record — exactly `spec_line_tail`, updating the `$TTL` default and the
/// SOA marker as it says. Nothing changes on failure.
fn finish_line(
    records: &mut Vec<Record>,
    owner: Name,
    rt: RecordType,
    class: RecordClass,
    ttl: Option<u32>,
    line: &Vec<Token>,
    org: &Name,
    default_ttl: &mut Option<u32>,
    have_soa: &mut bool,
) -> (r: Result<(), ParseError>)
    requires
        rtype_wf(rt),
        owner.wf(),
        records_wf(records_view(*old(records))),
        count_soa(records_view(*old(records))) == (if *old(have_soa) {
            1int
        } else {
            0int
        }),
    ensures
        r is Ok <==> spec_line_tail(
            rt,
            class,
            ttl,
            tokens_view(*line),
            owner@,
            org@,
            *old(default_ttl),
            *old(have_soa),
        ) is Some,
        r is Err ==> *final(records) == *old(records) && *final(default_ttl) == *old(
            default_ttl,
        ) && *final(have_soa) == *old(have_soa),
        r is Ok ==> (match spec_line_tail(
            rt,
            class,
            ttl,
            tokens_view(*line),
            owner@,
            org@,
            *old(default_ttl),
            *old(have_soa),
        ) {
            Some(q) => records_view(*final(records)) == records_view(*old(records)).push(q.0)
                && *final(default_ttl) == q.1 && *final(have_soa) == q.2,
            None => false,
        }),
        records_wf(records_view(*final(records))),
        count_soa(records_view(*final(records))) == (if *final(have_soa) {
            1int
        } else {
            0int
        }),
{
    if matches!(rt, RecordType::SOA) && *have_soa {
        return Err(ParseError::DuplicateSoa);
    }
    let rd = match parse_rdata(rt, line, org) {
        Ok(rd) => rd,
        Err(e) => { return Err(e) },
    };
    let soa_minimum: Option<u32> = match &rd {
        RData::SOA { minimum, .. } => Some(*minimum),
        _ => None,
    };
    let use_ttl: u32 = match ttl {
        Some(t) => t,
        None => match *default_ttl {
            Some(t) => t,
            None => match soa_minimum {
                Some(m) => m,
                None => {
                    proof {
                        assert(spec_resolve_ttl(ttl, *old(default_ttl), rd@) is None);
                    }
                    return Err(ParseError::MissingTtl);
                },
            },
        },
    };
    proof {
        assert(spec_resolve_ttl(ttl, *old(default_ttl), rd@) == Some(use_ttl));
    }
    if matches!(rt, RecordType::SOA) && default_ttl.is_none() {
        *default_ttl = soa_minimum;
    }
    proof {
        if rt == RecordType::SOA && *old(default_ttl) is None {
            assert(rd@ is SOA);
            assert(*default_ttl == Some(rd@->SOA_minimum));
        }
    }
    let ghost ownv = owner@;
    let rec = match Record::new(owner, rt, class, use_ttl, rd) {
        Ok(rec) => rec,
        Err(_) => {
            proof {
                assert(false);
            }
            return Err(ParseError::UnexpectedToken);
        },
    };
    let ghost before = records_view(*records);
    records.push(rec);
    if matches!(rt, RecordType::SOA) {
        *have_soa = true;
    }
    proof {
        assert(records_view(*records) =~= before.push(rec@));
        lemma_count_soa_push(before, rec@);
        let q = spec_line_tail(
            rt,
            class,
            ttl,
            tokens_view(*line),
            ownv,
            org@,
            *old(default_ttl),
            *old(have_soa),
        )->Some_0;
        assert(rec@ =~~= q.0);
    }
    Ok(())
}

#[verifier::rlimit(100)]
pub fn parse_zone(text: &Vec<u8>, origin: &Name) -> (r: Result<Vec<Record>, ParseError>)
    ensures
        r is Ok <==> spec_parse_zone(text@, origin@) is Some,
        r matches Ok(rs) ==> Some(records_view(rs)) == spec_parse_zone(text@, origin@),
        r matches Ok(rs) ==> records_wf(records_view(rs)) && count_soa(records_view(rs)) <= 1,
{
    let tokens = match lex(text) {
        Ok(ts) => ts,
        Err(e) => { return Err(e) },
    };
    let ghost ts_all = tokens_view(tokens);
    let ghost wholez = spec_zone(ts_all, origin@, None, None, false);
    proof {
        assert(spec_parse_zone(text@, origin@) == wholez);
    }
    let mut records: Vec<Record> = Vec::new();
    let mut org: Name = origin.clone();
    let mut cur_name: Option<Name> = None;
    let mut default_ttl: Option<u32> = None;
    let mut have_soa: bool = false;
    let mut i: usize = 0;
    proof {
        assert(records_view(records) =~= Seq::<RecordV>::empty());
        assert(ts_all.skip(0) =~= ts_all);
        match spec_zone(ts_all, origin@, None, None, false) {
            Some(more) => {
                assert(records_view(records) + more =~= more);
            },
            _ => {},
        }
    }
    while i < tokens.len()
        invariant
            i <= tokens.len(),
            ts_all == tokens_view(tokens),
            ts_all.len() == tokens@.len(),
            spec_parse_zone(text@, origin@) == wholez,
            records_wf(records_view(records)),
            count_soa(records_view(records)) == (if have_soa {
                1int
            } else {
                0int
            }),
            cur_name matches Some(n) ==> n.wf(),
            match spec_zone(
                ts_all.skip(i as int),
                org@,
                opt_name_view(cur_name),
                default_ttl,
                have_soa,
            ) {
                Some(more) => wholez == Some(records_view(records) + more),
                None => wholez is None,
            },
        decreases tokens.len() - i,
    {
        let ghost line0 = i;
        let ghost here = ts_all.skip(i as int);
        let ghost cur0 = opt_name_view(cur_name);
        let ghost dttl0 = default_ttl;
        // skip blank lines and line ends
        let mut blank = false;
        proof {
            assert(here[0] == tokens@[i as int]@);
        }
        match &tokens[i] {
            Token::EOL => {
                i = i + 1;
                proof {
                    assert(here.skip(1) =~= ts_all.skip(i as int));
                }
                continue ;
            },
            Token::Blank => {
                blank = true;
                i = i + 1;
            },
            _ => {},
        }
        if i >= tokens.len() {
            proof {
                assert(here.len() == 1);
                assert(ts_all.skip(i as int) =~= Seq::<TokenV>::empty());
                match spec_zone(ts_all.skip(i as int), org@, cur0, dttl0, have_soa) {
                    Some(more) => {
                        assert(more =~= Seq::<RecordV>::empty());
                    },
                    _ => {},
                }
            }
            continue ;
        }
        if blank {
            proof {
                assert(here[1] == tokens@[i as int]@);
            }
            match &tokens[i] {
                Token::EOL => {
                    i = i + 1;
                    proof {
                        assert(here.skip(2) =~= ts_all.skip(i as int));
                    }
                    continue ;
                },
                _ => {},
            }
        }
        // the owner name, a directive, or a continuation of the previous owner
        if !blank {
            let s = match &tokens[i] {
                Token::CharData(s) => copy_bytes(s),
                _ => {
                    return Err(ParseError::UnexpectedToken);
                },
            };
            if s.len() >= 1 && s[0] == 36 {
                // a $-directive
                if s.len() == 7 && s[1] == 79 && s[2] == 82 && s[3] == 73 && s[4] == 71 && s[5]
                    == 73 && s[6] == 78 {
                    // $ORIGIN
                    proof {
                        assert(s@ =~= seq![36u8, 79u8, 82u8, 73u8, 71u8, 73u8, 78u8]);
                    }
                    i = i + 1;
                    if i >= tokens.len() {
                        proof {
                            assert(here.len() < 2);
                        }
                        return Err(ParseError::MissingToken);
                    }
                    proof {
                        assert(here[1] == tokens@[i as int]@);
                    }
                    let arg = match &tokens[i] {
                        Token::CharData(a) => copy_bytes(a),
                        _ => {
                            return Err(ParseError::UnexpectedToken);
                        },
                    };
                    org = match Name::parse(&arg, &org) {
                        Ok(n) => n,
                        Err(e) => { return Err(e) },
                    };
                    i = i + 1;
                    proof {
                        assert(here.skip(2) =~= ts_all.skip(i as int));
                    }
                    continue ;
                } else if s.len() == 4 && s[1] == 84 && s[2] == 84 && s[3] == 76 {
                    // $TTL
                    proof {
                        assert(s@ =~= seq![36u8, 84u8, 84u8, 76u8]);
                        assert(s@ != seq![36u8, 79u8, 82u8, 73u8, 71u8, 73u8, 78u8]);
                    }
                    i = i + 1;
                    if i >= tokens.len() {
                        proof {
                            assert(here.len() < 2);
                        }
                        return Err(ParseError::MissingToken);
                    }
                    proof {
                        assert(here[1] == tokens@[i as int]@);
                    }
                    let arg = match &tokens[i] {
                        Token::CharData(a) => copy_bytes(a),
                        _ => {
                            return Err(ParseError::UnexpectedToken);
                        },
                    };
                    let v = match parse_u32(&arg) {
                        Ok(v) => v,
                        Err(e) => { return Err(e) },
                    };
                    default_ttl = Some(v);
                    i = i + 1;
                    proof {
                        assert(here.skip(2) =~= ts_all.skip(i as int));
                    }
                    continue ;
                } else {
                    proof {
                        assert(s@ != seq![36u8, 79u8, 82u8, 73u8, 71u8, 73u8, 78u8]);
                        assert(s@ != seq![36u8, 84u8, 84u8, 76u8]);
                    }
                    return Err(ParseError::UnexpectedToken);
                }
            } else if s.len() == 1 && s[0] == 64 {
                // @: the current origin
                proof {
                    assert(s@ =~= seq![64u8]);
                }
                if !org_wf_runtime(&org) {
                    return Err(ParseError::UnexpectedToken);
                }
                cur_name = Some(org.clone());
                i = i + 1;
            } else {
                proof {
                    assert(s@ != seq![64u8]);
                    if s@.len() >= 1 && s@[0] == 36 {
                        assert(false);
                    }
                }
                let n = match Name::parse(&s, &org) {
                    Ok(n) => n,
                    Err(e) => { return Err(e) },
                };
                cur_name = Some(n);
                i = i + 1;
            }
        }
        let owner = match &cur_name {
            Some(n) => n.clone(),
            None => {
                return Err(ParseError::MissingToken);
            },
        };
        let ghost ell = i as int;
        let ghost ownv = owner@;
        proof {
            assert(name_wf(ownv));
            assert(ell == line0 + 1);
            assert(here.skip(1) =~= ts_all.skip(ell));
            if blank {
                assert(here[0] is Blank);
                assert(here.len() >= 2);
                assert(!(here[1] is EOL));
                assert(cur0 == Some(ownv));
                assert(spec_zone(here, org@, cur0, dttl0, have_soa) == spec_zone_line(
                    ts_all.skip(ell),
                    ownv,
                    org@,
                    default_ttl,
                    have_soa,
                ));
            } else {
                assert(spec_zone(here, org@, cur0, dttl0, have_soa) == spec_zone_line(
                    ts_all.skip(ell),
                    ownv,
                    org@,
                    default_ttl,
                    have_soa,
                ));
            }
            match spec_zone_line(ts_all.skip(ell), ownv, org@, default_ttl, have_soa) {
                Some(more) => {
                    assert(wholez == Some(records_view(records) + more));
                },
                None => {
                    assert(wholez is None);
                },
            }
        }
        // optional TTL and class, then the type keyword, by type-sniffing
        let mut ttl: Option<u32> = None;
        let mut class: RecordClass = RecordClass::IN;
        let mut rtype: Option<RecordType> = None;
        proof {
            lemma_sniff_shift_zero(spec_sniff(ts_all.skip(ell), None, RecordClass::IN));
        }
        while i < tokens.len() && rtype.is_none()
            invariant
                0 <= ell <= i as int,
                i <= tokens.len(),
                ts_all == tokens_view(tokens),
                ts_all.len() == tokens@.len(),
                spec_parse_zone(text@, origin@) == wholez,
                name_wf(ownv),
                match spec_zone_line(ts_all.skip(ell), ownv, org@, default_ttl, have_soa) {
                    Some(more) => wholez == Some(records_view(records) + more),
                    None => wholez is None,
                },
                rtype is None ==> spec_sniff(ts_all.skip(ell), None, RecordClass::IN)
                    == sniff_shift(spec_sniff(ts_all.skip(i as int), ttl, class), i - ell),
                rtype matches Some(t) ==> rtype_wf(t) && ell < i as int && spec_sniff(
                    ts_all.skip(ell),
                    None,
                    RecordClass::IN,
                ) == Some((ttl, class, t, i - ell)),
            decreases tokens.len() - i,
        {
            let ghost sh = ts_all.skip(i as int);
            let ghost d0 = i as int - ell;
            proof {
                assert(sh[0] == tokens@[i as int]@);
            }
            let w = match &tokens[i] {
                Token::CharData(w) => copy_bytes(w),
                _ => {
                    proof {
                        assert(spec_sniff(sh, ttl, class) is None);
                        assert(spec_sniff(ts_all.skip(ell), None, RecordClass::IN) is None);
                        assert(spec_zone_line(
                            ts_all.skip(ell),
                            ownv,
                            org@,
                            default_ttl,
                            have_soa,
                        ) is None);
                    }
                    return Err(ParseError::UnexpectedToken);
                },
            };
            match RecordType::from_text(&w) {
                Some(t) => {
                    rtype = Some(t);
                    i = i + 1;
                    proof {
                        assert(spec_sniff(sh, ttl, class) == Some((ttl, class, t, 1int)));
                        assert(spec_sniff(ts_all.skip(ell), None, RecordClass::IN) == Some(
                            (ttl, class, t, 1 + d0),
                        ));
                    }
                },
                None => {
                    match RecordClass::from_text(&w) {
                        Some(c) => {
                            class = c;
                            i = i + 1;
                            proof {
                                assert(sh.skip(1) =~= ts_all.skip(i as int));
                            }
                        },
                        None => {
                            match parse_u32(&w) {
                                Ok(v) => {
                                    ttl = Some(v);
                                    i = i + 1;
                                    proof {
                                        assert(sh.skip(1) =~= ts_all.skip(i as int));
                                    }
                                },
                                Err(_) => {
                                    proof {
                                        assert(spec_sniff(sh, ttl, class) is None);
                                        assert(spec_sniff(
                                            ts_all.skip(ell),
                                            None,
                                            RecordClass::IN,
                                        ) is None);
                                        assert(spec_zone_line(
                                            ts_all.skip(ell),
                                            ownv,
                                            org@,
                                            default_ttl,
                                            have_soa,
                                        ) is None);
                                    }
                                    return Err(ParseError::UnexpectedToken);
                                },
                            }
                        },
                    }
                },
            }
        }
        let rt = match rtype {
            Some(t) => t,
            None => {
                proof {
                    assert(i == tokens@.len());
                    assert(ts_all.skip(i as int) =~= Seq::<TokenV>::empty());
                    assert(spec_sniff(Seq::<TokenV>::empty(), ttl, class) is None);
                    assert(spec_sniff(ts_all.skip(ell), None, RecordClass::IN) is None);
                    assert(spec_zone_line(ts_all.skip(ell), ownv, org@, default_ttl, have_soa)
                        is None);
                }
                return Err(ParseError::MissingToken);
            },
        };
        let ghost el0 = i as int;
        let ghost used1 = el0 - ell;
        // the rest of the line is the rdata
        let mut line: Vec<Token> = Vec::new();
        let mut hit_eol = false;
        proof {
            assert(tokens_view(line) =~= Seq::<TokenV>::empty());
            lemma_line_shift_zero(spec_take_line(ts_all.skip(el0)));
        }
        while i < tokens.len() && !hit_eol
            invariant
                0 <= ell < el0 <= i as int,
                used1 == el0 - ell,
                i <= tokens.len(),
                ts_all == tokens_view(tokens),
                ts_all.len() == tokens@.len(),
                spec_parse_zone(text@, origin@) == wholez,
                name_wf(ownv),
                rtype_wf(rt),
                match spec_zone_line(ts_all.skip(ell), ownv, org@, default_ttl, have_soa) {
                    Some(more) => wholez == Some(records_view(records) + more),
                    None => wholez is None,
                },
                spec_sniff(ts_all.skip(ell), None, RecordClass::IN) == Some(
                    (ttl, class, rt, used1),
                ),
                hit_eol ==> (i as int) < ts_all.len() && ts_all[i as int] matches TokenV::EOL,
                !hit_eol ==> spec_take_line(ts_all.skip(el0)) == line_shift(
                    spec_take_line(ts_all.skip(i as int)),
                    tokens_view(line),
                    i - el0,
                ),
                hit_eol ==> spec_take_line(ts_all.skip(el0)) == Some(
                    (tokens_view(line), i - el0),
                ),
            decreases tokens.len() - i, (if hit_eol {
                0int
            } else {
                1int
            }),
        {
            let ghost lh = ts_all.skip(i as int);
            let ghost lv0 = tokens_view(line);
            proof {
                assert(lh[0] == tokens@[i as int]@);
            }
            match &tokens[i] {
                Token::EOL => {
                    proof {
                        assert(spec_take_line(lh) == Some((Seq::<TokenV>::empty(), 0int)));
                        assert(lv0 + Seq::<TokenV>::empty() =~= lv0);
                    }
                    hit_eol = true;
                },
                Token::CharData(s) => {
                    line.push(Token::CharData(copy_bytes(s)));
                    i = i + 1;
                    proof {
                        assert(tokens_view(line) =~= lv0.push(lh[0]));
                        assert(lh.skip(1) =~= ts_all.skip(i as int));
                        match spec_take_line(ts_all.skip(i as int)) {
                            Some(p) => {
                                assert(lv0 + (seq![lh[0]] + p.0) =~= tokens_view(line) + p.0);
                            },
                            _ => {},
                        }
                    }
                },
                Token::Quote(s) => {
                    line.push(Token::Quote(copy_bytes(s)));
                    i = i + 1;
                    proof {
                        assert(tokens_view(line) =~= lv0.push(lh[0]));
                        assert(lh.skip(1) =~= ts_all.skip(i as int));
                        match spec_take_line(ts_all.skip(i as int)) {
                            Some(p) => {
                                assert(lv0 + (seq![lh[0]] + p.0) =~= tokens_view(line) + p.0);
                            },
                            _ => {},
                        }
                    }
                },
                Token::Blank => {
                    proof {
                        assert(spec_take_line(lh) is None);
                        assert(ts_all.skip(ell).skip(used1) =~= ts_all.skip(el0));
                        assert(spec_take_line(ts_all.skip(el0)) is None);
                        assert(spec_zone_line(
                            ts_all.skip(ell),
                            ownv,
                            org@,
                            default_ttl,
                            have_soa,
                        ) is None);
                    }
                    return Err(ParseError::UnexpectedToken);
                },
            }
        }
        let ghost used2 = i as int - el0;
        proof {
            if !hit_eol {
                assert(i == tokens@.len());
                assert(ts_all.skip(i as int) =~= Seq::<TokenV>::empty());
                assert(spec_take_line(Seq::<TokenV>::empty()) == Some(
                    (Seq::<TokenV>::empty(), 0int),
                ));
                assert(tokens_view(line) + Seq::<TokenV>::empty() =~= tokens_view(line));
            }
            assert(spec_take_line(ts_all.skip(el0)) == Some((tokens_view(line), used2)));
            assert(ts_all.skip(ell).skip(used1) =~= ts_all.skip(el0));
            assert(1 <= used1 <= ts_all.skip(ell).len());
            assert(0 <= used2 <= ts_all.skip(ell).len() - used1);
        }
        let ghost dttl_pre = default_ttl;
        let ghost soa_pre = have_soa;
        match finish_line(
            &mut records,
            owner,
            rt,
            class,
            ttl,
            &line,
            &org,
            &mut default_ttl,
            &mut have_soa,
        ) {
            Ok(()) => {},
            Err(e) => {
                proof {
                    assert(spec_line_tail(
                        rt,
                        class,
                        ttl,
                        tokens_view(line),
                        ownv,
                        org@,
                        dttl_pre,
                        soa_pre,
                    ) is None);
                    assert(spec_zone_line(ts_all.skip(ell), ownv, org@, dttl_pre, soa_pre)
                        is None);
                }
                return Err(e);
            },
        }
        proof {
            let q = spec_line_tail(
                rt,
                class,
                ttl,
                tokens_view(line),
                ownv,
                org@,
                dttl_pre,
                soa_pre,
            )->Some_0;
            assert(default_ttl == q.1 && have_soa == q.2);
            assert(ts_all.skip(ell).skip(used1 + used2) =~= ts_all.skip(i as int));
            assert(opt_name_view(cur_name) == Some(ownv));
            match spec_zone(ts_all.skip(i as int), org@, Some(ownv), default_ttl, have_soa) {
                Some(more2) => {
                    assert(spec_zone_line(ts_all.skip(ell), ownv, org@, dttl_pre, soa_pre)
                        == Some(seq![q.0] + more2));
                    assert(records_view(records) =~= records_view(records));
                    assert(wholez == Some((records_view(records).drop_last()) + (seq![q.0]
                        + more2)));
                    assert(records_view(records).drop_last().push(q.0) =~= records_view(
                        records,
                    ));
                    assert((records_view(records).drop_last()) + (seq![q.0] + more2) =~= (
                    records_view(records) + more2));
                },
                None => {
                    assert(spec_zone_line(ts_all.skip(ell), ownv, org@, dttl_pre, soa_pre)
                        is None);
                },
            }
        }
    }
    proof {
        assert(i == tokens@.len());
        assert(ts_all.skip(tokens@.len() as int) =~= Seq::<TokenV>::empty());
        match spec_zone(
            ts_all.skip(tokens@.len() as int),
            org@,
            opt_name_view(cur_name),
            default_ttl,
            have_soa,
        ) {
            Some(more) => {
                assert(records_view(records) + more =~= records_view(records));
            },
            _ => {},
        }
    }
    Ok(records)
}

/// Whether a name is well-formed, as a runtime test.
fn org_wf_runtime(n: &Name) -> (r: bool)
    ensures
        r == n.wf(),
{
    n.check().is_ok()
}

} // verus!
