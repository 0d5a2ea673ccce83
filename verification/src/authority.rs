//! Authority: the in-memory zone store. It owns the record set of one
//! origin, answers typed lookups with DNS semantics (exact name match,
//! `ANY`, transparent CNAME inclusion, DNSSEC-aware filtering), and hands
//! out the zone's SOA. Answers keep insertion order: the store guarantees
//! stability, never reordering.

use vstd::prelude::*;

use crate::error::LookupError;
use crate::error::ParseError;
use crate::name::lower_name;
use crate::name::name_wf;
use crate::name::Name;
use crate::parser::count_soa;
use crate::parser::parse_zone;
use crate::parser::spec_parse_zone;
use crate::parser::records_view;
use crate::parser::records_wf;
use crate::rdata::RData;
use crate::rdata::RDataV;
use crate::record::record_wf;
use crate::record::Record;
use crate::record::RecordV;
use crate::rtype::is_dnssec_rtype;
use crate::rtype::RecordType;

verus! {

/// Whether this authority is the primary source for its zone or a copy.
#[derive(Clone, Copy, Debug, PartialEq, Eq, Structural)]
pub enum ZoneType {
    Primary,
    Secondary,
}

/// The signing algorithm a DNSSEC-material record is associated with, read
/// from its opaque rdata at the offset its RFC layout gives it: DNSKEY at
/// byte 3, RRSIG at byte 2, DS at byte 1. NSEC carries none.
pub open spec fn dnssec_algorithm(rec: RecordV) -> Option<u8> {
    match rec.rdata {
        RDataV::Unknown(b) => {
            if rec.rtype == RecordType::DNSKEY && b.len() >= 4 {
                Some(b[3])
            } else if rec.rtype == RecordType::RRSIG && b.len() >= 3 {
                Some(b[2])
            } else if rec.rtype == RecordType::DS && b.len() >= 2 {
                Some(b[1])
            } else {
                None
            }
        },
        _ => None,
    }
}

/// Whether a stored record answers a query: the owner name matches exactly
/// (ASCII case ignored); the type matches, or `ANY` was asked, or the
/// record is a CNAME (included transparently and chased once by the
/// caller); and a DNSSEC-material record is returned only when the caller
/// allows DNSSEC and, if the record names a signing algorithm, that
/// algorithm is in the caller's supported set. The class is not filtered:
/// the query interface carries no class, and a zone's records all share
/// the class its file gave them.
pub open spec fn record_answers(
    rec: RecordV,
    qname: Seq<Seq<u8>>,
    qtype: RecordType,
    allow_dnssec: bool,
    algorithms: Seq<u8>,
) -> bool {
    &&& lower_name(rec.name) == lower_name(qname)
    &&& (qtype == RecordType::ANY || rec.rtype == qtype || rec.rtype == RecordType::CNAME)
    &&& (is_dnssec_rtype(rec.rtype) ==> allow_dnssec && (match dnssec_algorithm(rec) {
        Some(a) => algorithms.contains(a),
        None => true,
    }))
}

/// The records answering a query, in insertion order.
pub open spec fn matching_records(
    rs: Seq<RecordV>,
    qname: Seq<Seq<u8>>,
    qtype: RecordType,
    allow_dnssec: bool,
    algorithms: Seq<u8>,
) -> Seq<RecordV>
    decreases rs.len(),
{
    if rs.len() == 0 {
        Seq::empty()
    } else {
        matching_records(rs.drop_last(), qname, qtype, allow_dnssec, algorithms) + (
        if record_answers(rs.last(), qname, qtype, allow_dnssec, algorithms) {
            seq![rs.last()]
        } else {
            Seq::empty()
        })
    }
}

/// The in-memory store for one zone: the records, the origin they belong
/// to, and the zone's metadata.
pub struct Authority {
    origin: Name,
    records: Vec<Record>,
    zone_type: ZoneType,
    allow_axfr: bool,
    allow_update: bool,
}

impl Authority {
    /// The origin's labels.
    pub closed spec fn origin_view(&self) -> Seq<Seq<u8>> {
        self.origin@
    }

    /// The stored records' values, in insertion order.
    pub closed spec fn records_seq(&self) -> Seq<RecordV> {
        records_view(self.records)
    }

    /// A serving store: well-formed origin and records, and at most one SOA.
    pub open spec fn wf(&self) -> bool {
        name_wf(self.origin_view()) && records_wf(self.records_seq()) && count_soa(
            self.records_seq(),
        ) <= 1
    }

    /// An empty authority for an origin.
    pub fn new(origin: Name, zone_type: ZoneType, allow_axfr: bool, allow_update: bool) -> (r:
        Authority)
        requires
            origin.wf(),
        ensures
            r.wf(),
            r.origin_view() == origin@,
            r.records_seq() == Seq::<RecordV>::empty(),
            r.zone_type() == zone_type,
            r.allow_axfr() == allow_axfr,
            r.allow_update() == allow_update,
    {
        let a = Authority { origin, records: Vec::new(), zone_type, allow_axfr, allow_update };
        proof {
            assert(a.records_seq() =~= Seq::<RecordV>::empty());
        }
        a
    }

    pub closed spec fn zone_type(&self) -> ZoneType {
        self.zone_type
    }

    pub closed spec fn allow_axfr(&self) -> bool {
        self.allow_axfr
    }

    pub closed spec fn allow_update(&self) -> bool {
        self.allow_update
    }

    /// Whether out-of-zone dynamic updates are permitted.
    pub fn update_allowed(&self) -> (r: bool)
        ensures
            r == self.allow_update(),
    {
        self.allow_update
    }

    /// The zone's kind, primary or secondary.
    pub fn kind(&self) -> (r: ZoneType)
        ensures
            r == self.zone_type(),
    {
        self.zone_type
    }

    /// Whether whole-zone transfers are permitted.
    pub fn axfr_allowed(&self) -> (r: bool)
        ensures
            r == self.allow_axfr(),
    {
        self.allow_axfr
    }

    /// The origin name.
    pub fn origin(&self) -> (r: &Name)
        ensures
            r@ == self.origin_view(),
    {
        &self.origin
    }

    /// The stored records, in insertion order.
    pub fn records(&self) -> (r: &Vec<Record>)
        ensures
            records_view(*r) == self.records_seq(),
    {
        &self.records
    }

    /// Load a zone from master-file text: the records become exactly what
    /// `spec_parse_zone` gives the text against this zone's origin, and the
    /// load succeeds exactly when that grammar accepts the text. The load is
    /// atomic: on any failure the store is exactly what it was, no partial
    /// set is ever published. A zone holding two SOA records is rejected.
    pub fn load_zone(&mut self, text: &Vec<u8>) -> (r: Result<(), ParseError>)
        requires
            old(self).wf(),
        ensures
            final(self).wf(),
            r is Err ==> *final(self) == *old(self),
            final(self).origin_view() == old(self).origin_view(),
            final(self).zone_type() == old(self).zone_type(),
            final(self).allow_axfr() == old(self).allow_axfr(),
            final(self).allow_update() == old(self).allow_update(),
            r is Ok <==> spec_parse_zone(text@, old(self).origin_view()) is Some,
            r is Ok ==> Some(final(self).records_seq()) == spec_parse_zone(
                text@,
                old(self).origin_view(),
            ),
            r is Ok ==> count_soa(final(self).records_seq()) <= 1,
    {
        match parse_zone(text, &self.origin) {
            Ok(rs) => {
                self.records = rs;
                Ok(())
            },
            Err(e) => Err(e),
        }
    }

    /// Add one record to the store, at the end of the insertion order.
    /// Refused, leaving the store exactly as it was, when the record is not
    /// well-formed or when it is an SOA and the zone already holds one.
    pub fn insert(&mut self, rec: Record) -> (r: bool)
        requires
            old(self).wf(),
        ensures
            final(self).wf(),
            final(self).origin_view() == old(self).origin_view(),
            r ==> final(self).records_seq() == old(self).records_seq().push(rec@),
            !r ==> *final(self) == *old(self),
            r <==> (record_wf(rec@) && (rec@.rtype == RecordType::SOA ==> count_soa(
                old(self).records_seq(),
            ) == 0)),
    {
        if !rec.well_formed() {
            return false;
        }
        if matches!(rec.rtype(), RecordType::SOA) {
            match self.soa() {
                Ok(_) => {
                    proof {
                        lemma_count_soa_nonzero(self.records_seq());
                    }
                    return false;
                },
                Err(_) => {
                    proof {
                        lemma_count_soa_nonzero(self.records_seq());
                    }
                },
            }
        }
        let ghost before = self.records_seq();
        self.records.push(rec);
        proof {
            assert(self.records_seq() =~= before.push(rec@));
            crate::parser::lemma_count_soa_push(before, rec@);
        }
        true
    }

    /// Answer a typed query: exactly the stored records that `record_answers`
    /// admits, in insertion order.
    pub fn lookup(
        &self,
        name: &Name,
        qtype: RecordType,
        allow_dnssec: bool,
        algorithms: &Vec<u8>,
    ) -> (r: Vec<Record>)
        ensures
            records_view(r) == matching_records(
                self.records_seq(),
                name@,
                qtype,
                allow_dnssec,
                algorithms@,
            ),
    {
        let mut out: Vec<Record> = Vec::new();
        let mut i: usize = 0;
        proof {
            assert(records_view(out) =~= Seq::<RecordV>::empty());
            assert(self.records_seq().take(0) =~= Seq::<RecordV>::empty());
        }
        while i < self.records.len()
            invariant
                i <= self.records.len(),
                records_view(self.records) == self.records_seq(),
                records_view(out) == matching_records(
                    self.records_seq().take(i as int),
                    name@,
                    qtype,
                    allow_dnssec,
                    algorithms@,
                ),
            decreases self.records.len() - i,
        {
            let rec = &self.records[i];
            let wanted = record_answers_runtime(rec, name, qtype, allow_dnssec, algorithms);
            proof {
                assert(self.records_seq()[i as int] == rec@);
                assert(self.records_seq().take(i as int + 1).drop_last() =~= self.records_seq(
                ).take(i as int));
                assert(self.records_seq().take(i as int + 1).last() == rec@);
            }
            if wanted {
                let ghost before = records_view(out);
                out.push(rec.clone());
                proof {
                    assert(records_view(out) =~= before.push(rec@));
                    assert(records_view(out) =~= matching_records(
                        self.records_seq().take(i as int + 1),
                        name@,
                        qtype,
                        allow_dnssec,
                        algorithms@,
                    ));
                }
            } else {
                proof {
                    assert(records_view(out) =~= matching_records(
                        self.records_seq().take(i as int + 1),
                        name@,
                        qtype,
                        allow_dnssec,
                        algorithms@,
                    ));
                }
            }
            i = i + 1;
        }
        proof {
            assert(self.records_seq().take(self.records@.len() as int) =~= self.records_seq());
        }
        out
    }

    /// The zone's SOA record: the first (and, in a loaded zone, only) SOA in
    /// the store, or `NotAuthoritative` exactly when none is loaded.
    pub fn soa(&self) -> (r: Result<Record, LookupError>)
        ensures
            r matches Ok(rec) ==> exists|k: int|
                0 <= k < self.records_seq().len() && self.records_seq()[k] == rec@
                    && rec@.rtype == RecordType::SOA,
            r is Err <==> (forall|k: int|
                0 <= k < self.records_seq().len() ==> (#[trigger] self.records_seq()[k]).rtype
                    != RecordType::SOA),
            r is Err ==> r matches Err(LookupError::NotAuthoritative),
    {
        let mut i: usize = 0;
        while i < self.records.len()
            invariant
                i <= self.records.len(),
                forall|k: int|
                    0 <= k < i ==> (#[trigger] self.records_seq()[k]).rtype != RecordType::SOA,
            decreases self.records.len() - i,
        {
            let rec = &self.records[i];
            if matches!(rec.rtype(), RecordType::SOA) {
                proof {
                    assert(self.records_seq()[i as int] == rec@);
                }
                return Ok(rec.clone());
            }
            proof {
                assert(self.records_seq()[i as int] == self.records@[i as int]@);
            }
            i = i + 1;
        }
        Err(LookupError::NotAuthoritative)
    }
}

/// A sequence holds an SOA record exactly when its SOA count is not zero.
proof fn lemma_count_soa_nonzero(rs: Seq<RecordV>)
    ensures
        count_soa(rs) >= 0,
        count_soa(rs) > 0 <==> exists|k: int|
            0 <= k < rs.len() && (#[trigger] rs[k]).rtype == RecordType::SOA,
    decreases rs.len(),
{
    if rs.len() > 0 {
        lemma_count_soa_nonzero(rs.drop_last());
        assert(rs.drop_last().push(rs.last()) =~= rs);
        crate::parser::lemma_count_soa_push(rs.drop_last(), rs.last());
        if rs.last().rtype == RecordType::SOA {
            assert(rs[rs.len() - 1].rtype == RecordType::SOA);
        } else if count_soa(rs) > 0 {
            let k = choose|k: int|
                0 <= k < rs.drop_last().len() && (#[trigger] rs.drop_last()[k]).rtype
                    == RecordType::SOA;
            assert(rs[k].rtype == RecordType::SOA);
        } else {
            assert forall|k: int|
                0 <= k < rs.len() && (#[trigger] rs[k]).rtype == RecordType::SOA implies false by {
                if k < rs.len() - 1 {
                    assert(rs.drop_last()[k].rtype == RecordType::SOA);
                }
            }
        }
    }
}

/// Whether a stored record answers the query, as a runtime test.
fn record_answers_runtime(
    rec: &Record,
    qname: &Name,
    qtype: RecordType,
    allow_dnssec: bool,
    algorithms: &Vec<u8>,
) -> (r: bool)
    ensures
        r == record_answers(rec@, qname@, qtype, allow_dnssec, algorithms@),
{
    let name_ok = rec.name() == qname;
    proof {
        assert(name_ok == (lower_name(rec@.name) == lower_name(qname@)));
    }
    if !name_ok {
        return false;
    }
    let type_ok = matches!(qtype, RecordType::ANY) || rtypes_equal(rec.rtype(), qtype)
        || matches!(rec.rtype(), RecordType::CNAME);
    proof {
        assert(type_ok == (qtype == RecordType::ANY || rec@.rtype == qtype || rec@.rtype
            == RecordType::CNAME));
    }
    if !type_ok {
        return false;
    }
    if rec.rtype().is_dnssec() {
        if !allow_dnssec {
            return false;
        }
        let alg = dnssec_algorithm_runtime(rec);
        match alg {
            Some(a) => contains_byte(algorithms, a),
            None => true,
        }
    } else {
        true
    }
}

/// Structural equality of two record-type tags.
fn rtypes_equal(a: RecordType, b: RecordType) -> (r: bool)
    ensures
        r == (a == b),
{
    a == b
}

/// The signing algorithm of a DNSSEC-material record, as a runtime read.
fn dnssec_algorithm_runtime(rec: &Record) -> (r: Option<u8>)
    ensures
        r == dnssec_algorithm(rec@),
{
    match rec.rdata() {
        RData::Unknown(b) => {
            if matches!(rec.rtype(), RecordType::DNSKEY) && b.len() >= 4 {
                Some(b[3])
            } else if matches!(rec.rtype(), RecordType::RRSIG) && b.len() >= 3 {
                Some(b[2])
            } else if matches!(rec.rtype(), RecordType::DS) && b.len() >= 2 {
                Some(b[1])
            } else {
                None
            }
        },
        _ => None,
    }
}

/// Whether a byte vector holds a byte.
fn contains_byte(v: &Vec<u8>, b: u8) -> (r: bool)
    ensures
        r == v@.contains(b),
{
    let mut i: usize = 0;
    while i < v.len()
        invariant
            i <= v.len(),
            forall|k: int| 0 <= k < i ==> v@[k] != b,
        decreases v.len() - i,
    {
        if v[i] == b {
            return true;
        }
        i = i + 1;
    }
    proof {
        assert(!v@.contains(b));
    }
    false
}

} // verus!
