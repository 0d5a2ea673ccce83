//! Resource records: the aggregate of owner name, record type, class, TTL
//! and typed record-data payload, with the invariant that the payload's
//! variant always agrees with the declared type.

use vstd::prelude::*;

use crate::name::name_wf;
use crate::name::Name;
use crate::rdata::rdata_matches;
use crate::rdata::rdata_wf;
use crate::rdata::RData;
use crate::rdata::RDataV;
use crate::rtype::rtype_wf;
use crate::rtype::RecordType;

verus! {

/// A record class; the Internet class is the default everywhere.
#[derive(Clone, Copy, Debug, PartialEq, Eq, Structural)]
pub enum RecordClass {
    IN,
    CH,
    HS,
}

/// The class named by a zone-file keyword.
pub open spec fn spec_class_from_text(s: Seq<u8>) -> Option<RecordClass> {
    if s == seq![73u8, 78u8] {
        Some(RecordClass::IN)
    } else if s == seq![67u8, 72u8] {
        Some(RecordClass::CH)
    } else if s == seq![72u8, 83u8] {
        Some(RecordClass::HS)
    } else {
        None
    }
}

impl RecordClass {
    /// The class's wire code.
    pub fn code(&self) -> (r: u16)
        ensures
            r == (match *self {
                RecordClass::IN => 1u16,
                RecordClass::CH => 3u16,
                RecordClass::HS => 4u16,
            }),
    {
        match *self {
            RecordClass::IN => 1,
            RecordClass::CH => 3,
            RecordClass::HS => 4,
        }
    }

    /// The class named by a zone-file keyword.
    pub fn from_text(s: &Vec<u8>) -> (r: Option<RecordClass>)
        ensures
            r == spec_class_from_text(s@),
    {
        let r: Option<RecordClass> = if s.len() == 2 && s[0] == 73 && s[1] == 78 {
            Some(RecordClass::IN)
        } else if s.len() == 2 && s[0] == 67 && s[1] == 72 {
            Some(RecordClass::CH)
        } else if s.len() == 2 && s[0] == 72 && s[1] == 83 {
            Some(RecordClass::HS)
        } else {
            None
        };
        proof {
            if s@ =~= seq![73u8, 78u8] {
            }
            if s@ =~= seq![67u8, 72u8] {
            }
            if s@ =~= seq![72u8, 83u8] {
            }
        }
        r
    }
}

/// The mathematical value of a record.
#[verifier::ext_equal]
pub struct RecordV {
    pub name: Seq<Seq<u8>>,
    pub rtype: RecordType,
    pub class: RecordClass,
    pub ttl: u32,
    pub rdata: RDataV,
}

/// A well-formed record: a well-formed name, a well-formed payload whose
/// variant tag equals the declared record type, and a canonical type tag.
pub open spec fn record_wf(r: RecordV) -> bool {
    name_wf(r.name) && rtype_wf(r.rtype) && rdata_wf(r.rdata) && rdata_matches(r.rtype, r.rdata)
}

/// A resource record.
#[derive(Debug, PartialEq)]
pub struct Record {
    name: Name,
    rtype: RecordType,
    class: RecordClass,
    ttl: u32,
    rdata: RData,
}

impl View for Record {
    type V = RecordV;

    closed spec fn view(&self) -> RecordV {
        RecordV {
            name: self.name@,
            rtype: self.rtype,
            class: self.class,
            ttl: self.ttl,
            rdata: self.rdata@,
        }
    }
}

impl Record {
    pub open spec fn wf(&self) -> bool {
        record_wf(self@)
    }

    /// Build a record. Succeeds exactly when the parts form a well-formed
    /// record: the name is well-formed, the payload is well-formed and its
    /// variant agrees with the declared type, and the type tag is canonical.
    pub fn new(name: Name, rtype: RecordType, class: RecordClass, ttl: u32, rdata: RData) -> (r:
        Result<Record, RData>)
        ensures
            r is Ok <==> record_wf(
                RecordV { name: name@, rtype, class, ttl, rdata: rdata@ },
            ),
            r matches Ok(rec) ==> rec@ == (RecordV {
                name: name@,
                rtype,
                class,
                ttl,
                rdata: rdata@,
            }) && rec.wf(),
    {
        if name.check().is_err() {
            return Err(rdata);
        }
        if !rtype_is_wf(rtype) {
            return Err(rdata);
        }
        if !crate::rdata::rdata_is_wf(&rdata) {
            return Err(rdata);
        }
        if !crate::rdata::rdata_tag_matches(rtype, &rdata) {
            return Err(rdata);
        }
        let rec = Record { name, rtype, class, ttl, rdata };
        proof {
            assert(rec@ =~~= (RecordV {
                name: rec.name@,
                rtype,
                class,
                ttl,
                rdata: rec.rdata@,
            }));
        }
        Ok(rec)
    }

    /// Whether the record is well-formed, as a runtime test.
    pub fn well_formed(&self) -> (r: bool)
        ensures
            r == self.wf(),
    {
        self.name.check().is_ok() && rtype_is_wf(self.rtype) && crate::rdata::rdata_is_wf(
            &self.rdata,
        ) && crate::rdata::rdata_tag_matches(self.rtype, &self.rdata)
    }

    /// The owner name.
    pub fn name(&self) -> (r: &Name)
        ensures
            r@ == self@.name,
    {
        &self.name
    }

    /// The declared record type.
    pub fn rtype(&self) -> (r: RecordType)
        ensures
            r == self@.rtype,
    {
        self.rtype
    }

    /// The record class.
    pub fn class(&self) -> (r: RecordClass)
        ensures
            r == self@.class,
    {
        self.class
    }

    /// The time-to-live, in seconds.
    pub fn ttl(&self) -> (r: u32)
        ensures
            r == self@.ttl,
    {
        self.ttl
    }

    /// The typed payload.
    pub fn rdata(&self) -> (r: &RData)
        ensures
            r@ == self@.rdata,
    {
        &self.rdata
    }
}

impl Clone for Record {
    /// Cloning keeps the record's value.
    fn clone(&self) -> (r: Self)
        ensures
            r@ == self@,
    {
        let r = Record {
            name: self.name.clone(),
            rtype: self.rtype,
            class: self.class,
            ttl: self.ttl,
            rdata: self.rdata.clone(),
        };
        proof {
            assert(r@ =~~= self@);
        }
        r
    }
}

/// Whether a type tag is canonical: a named tag, or an `Unknown` code that
/// no named tag owns.
fn rtype_is_wf(t: RecordType) -> (r: bool)
    ensures
        r == rtype_wf(t),
{
    match t {
        RecordType::Unknown(c) => {
            !(c == 1 || c == 2 || c == 5 || c == 6 || c == 12 || c == 15 || c == 16 || c == 28
                || c == 33 || c == 43 || c == 46 || c == 47 || c == 48 || c == 255)
        },
        _ => true,
    }
}

} // verus!
