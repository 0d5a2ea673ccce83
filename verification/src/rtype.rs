//! Record types: the closed set of type tags this library gives a codec,
//! the DNSSEC-material tags it recognizes for lookup filtering, and an
//! `Unknown` tag that preserves any other wire code.

use vstd::prelude::*;

verus! {

/// A resource-record type tag.
#[derive(Clone, Copy, Debug, PartialEq, Eq, Structural)]
pub enum RecordType {
    A,
    AAAA,
    ANY,
    CNAME,
    DNSKEY,
    DS,
    MX,
    NS,
    NSEC,
    PTR,
    RRSIG,
    SOA,
    SRV,
    TXT,
    /// Any other type, preserved by its wire code.
    Unknown(u16),
}

/// The wire code of a record type.
pub open spec fn rtype_code(t: RecordType) -> u16 {
    match t {
        RecordType::A => 1,
        RecordType::NS => 2,
        RecordType::CNAME => 5,
        RecordType::SOA => 6,
        RecordType::PTR => 12,
        RecordType::MX => 15,
        RecordType::TXT => 16,
        RecordType::AAAA => 28,
        RecordType::SRV => 33,
        RecordType::DS => 43,
        RecordType::RRSIG => 46,
        RecordType::NSEC => 47,
        RecordType::DNSKEY => 48,
        RecordType::ANY => 255,
        RecordType::Unknown(c) => c,
    }
}

/// Codes that have a named tag.
pub open spec fn known_code(c: u16) -> bool {
    c == 1 || c == 2 || c == 5 || c == 6 || c == 12 || c == 15 || c == 16 || c == 28 || c == 33
        || c == 43 || c == 46 || c == 47 || c == 48 || c == 255
}

/// A well-formed tag never hides a named code behind `Unknown`, so tag and
/// wire code determine each other.
pub open spec fn rtype_wf(t: RecordType) -> bool {
    match t {
        RecordType::Unknown(c) => !known_code(c),
        _ => true,
    }
}

/// The types that carry DNSSEC material; lookups filter them by the
/// caller's DNSSEC settings.
pub open spec fn is_dnssec_rtype(t: RecordType) -> bool {
    t == RecordType::DNSKEY || t == RecordType::RRSIG || t == RecordType::NSEC || t
        == RecordType::DS
}

impl RecordType {
    /// The tag's wire code.
    pub fn code(&self) -> (r: u16)
        ensures
            r == rtype_code(*self),
    {
        match *self {
            RecordType::A => 1,
            RecordType::NS => 2,
            RecordType::CNAME => 5,
            RecordType::SOA => 6,
            RecordType::PTR => 12,
            RecordType::MX => 15,
            RecordType::TXT => 16,
            RecordType::AAAA => 28,
            RecordType::SRV => 33,
            RecordType::DS => 43,
            RecordType::RRSIG => 46,
            RecordType::NSEC => 47,
            RecordType::DNSKEY => 48,
            RecordType::ANY => 255,
            RecordType::Unknown(c) => c,
        }
    }

    /// The tag of a wire code; unassigned codes become `Unknown`.
    pub fn from_code(c: u16) -> (r: RecordType)
        ensures
            rtype_wf(r),
            rtype_code(r) == c,
    {
        if c == 1 {
            RecordType::A
        } else if c == 2 {
            RecordType::NS
        } else if c == 5 {
            RecordType::CNAME
        } else if c == 6 {
            RecordType::SOA
        } else if c == 12 {
            RecordType::PTR
        } else if c == 15 {
            RecordType::MX
        } else if c == 16 {
            RecordType::TXT
        } else if c == 28 {
            RecordType::AAAA
        } else if c == 33 {
            RecordType::SRV
        } else if c == 43 {
            RecordType::DS
        } else if c == 46 {
            RecordType::RRSIG
        } else if c == 47 {
            RecordType::NSEC
        } else if c == 48 {
            RecordType::DNSKEY
        } else if c == 255 {
            RecordType::ANY
        } else {
            RecordType::Unknown(c)
        }
    }

    /// Whether this tag carries DNSSEC material.
    pub fn is_dnssec(&self) -> (r: bool)
        ensures
            r == is_dnssec_rtype(*self),
    {
        match *self {
            RecordType::DNSKEY => true,
            RecordType::RRSIG => true,
            RecordType::NSEC => true,
            RecordType::DS => true,
            _ => false,
        }
    }

    /// The type named by a zone-file keyword, for the types with a text
    /// grammar.
    pub fn from_text(s: &Vec<u8>) -> (r: Option<RecordType>)
        ensures
            r == spec_rtype_from_text(s@),
    {
        let r: Option<RecordType> = if s.len() == 1 && s[0] == 65 {
            Some(RecordType::A)
        } else if s.len() == 4 && s[0] == 65 && s[1] == 65 && s[2] == 65 && s[3] == 65 {
            Some(RecordType::AAAA)
        } else if s.len() == 2 && s[0] == 78 && s[1] == 83 {
            Some(RecordType::NS)
        } else if s.len() == 5 && s[0] == 67 && s[1] == 78 && s[2] == 65 && s[3] == 77 && s[4]
            == 69 {
            Some(RecordType::CNAME)
        } else if s.len() == 3 && s[0] == 83 && s[1] == 79 && s[2] == 65 {
            Some(RecordType::SOA)
        } else if s.len() == 2 && s[0] == 77 && s[1] == 88 {
            Some(RecordType::MX)
        } else if s.len() == 3 && s[0] == 84 && s[1] == 88 && s[2] == 84 {
            Some(RecordType::TXT)
        } else if s.len() == 3 && s[0] == 80 && s[1] == 84 && s[2] == 82 {
            Some(RecordType::PTR)
        } else if s.len() == 3 && s[0] == 83 && s[1] == 82 && s[2] == 86 {
            Some(RecordType::SRV)
        } else {
            None
        };
        proof {
            if s@ =~= seq![65u8] {
            }
            if s@ =~= seq![65u8, 65u8, 65u8, 65u8] {
            }
            if s@ =~= seq![78u8, 83u8] {
            }
            if s@ =~= seq![67u8, 78u8, 65u8, 77u8, 69u8] {
            }
            if s@ =~= seq![83u8, 79u8, 65u8] {
            }
            if s@ =~= seq![77u8, 88u8] {
            }
            if s@ =~= seq![84u8, 88u8, 84u8] {
            }
            if s@ =~= seq![80u8, 84u8, 82u8] {
            }
            if s@ =~= seq![83u8, 82u8, 86u8] {
            }
        }
        r
    }
}

/// The keyword grammar of the types a zone file can spell.
pub open spec fn spec_rtype_from_text(s: Seq<u8>) -> Option<RecordType> {
    if s == seq![65u8] {
        Some(RecordType::A)
    } else if s == seq![65u8, 65u8, 65u8, 65u8] {
        Some(RecordType::AAAA)
    } else if s == seq![78u8, 83u8] {
        Some(RecordType::NS)
    } else if s == seq![67u8, 78u8, 65u8, 77u8, 69u8] {
        Some(RecordType::CNAME)
    } else if s == seq![83u8, 79u8, 65u8] {
        Some(RecordType::SOA)
    } else if s == seq![77u8, 88u8] {
        Some(RecordType::MX)
    } else if s == seq![84u8, 88u8, 84u8] {
        Some(RecordType::TXT)
    } else if s == seq![80u8, 84u8, 82u8] {
        Some(RecordType::PTR)
    } else if s == seq![83u8, 82u8, 86u8] {
        Some(RecordType::SRV)
    } else {
        None
    }
}

/// Tag and wire code determine each other on well-formed tags.
pub proof fn lemma_rtype_code_injective(t1: RecordType, t2: RecordType)
    requires
        rtype_wf(t1),
        rtype_wf(t2),
        rtype_code(t1) == rtype_code(t2),
    ensures
        t1 == t2,
{
}

} // verus!
