//! Text-literal grammar shared by the record-data parsers: byte-string
//! splitting and decimal / hexadecimal numeric literals. Numeric parsing is
//! exact: overflow and stray characters fail, nothing is silently truncated.

use vstd::prelude::*;

use crate::error::ParseError;

verus! {

/// Index of the first occurrence of `sep`, if any.
pub open spec fn find_sep(s: Seq<u8>, sep: u8) -> Option<int>
    decreases s.len(),
{
    if s.len() == 0 {
        None
    } else if s[0] == sep {
        Some(0)
    } else {
        match find_sep(s.drop_first(), sep) {
            Some(i) => Some(i + 1),
            None => None,
        }
    }
}

/// Split on a separator byte; separators are delimiters, so `n` separators
/// yield `n + 1` (possibly empty) parts.
pub open spec fn split_on(s: Seq<u8>, sep: u8) -> Seq<Seq<u8>>
    decreases s.len(),
{
    match find_sep(s, sep) {
        None => seq![s],
        Some(i) => if 0 <= i < s.len() {
            seq![s.take(i)] + split_on(s.skip(i + 1), sep)
        } else {
            seq![s]
        },
    }
}

/// `find_sep` returns exactly the first separator position.
pub proof fn lemma_find_sep_at(s: Seq<u8>, sep: u8, k: int)
    requires
        0 <= k < s.len(),
        s[k] == sep,
        forall|j: int| 0 <= j < k ==> s[j] != sep,
    ensures
        find_sep(s, sep) == Some(k),
    decreases k,
{
    if k > 0 {
        lemma_find_sep_at(s.drop_first(), sep, k - 1);
    }
}

/// Without a separator, `find_sep` finds nothing.
pub proof fn lemma_find_sep_none(s: Seq<u8>, sep: u8)
    requires
        forall|j: int| 0 <= j < s.len() ==> s[j] != sep,
    ensures
        find_sep(s, sep) is None,
    decreases s.len(),
{
    if s.len() > 0 {
        lemma_find_sep_none(s.drop_first(), sep);
    }
}

/// The byte sequences held by a vector of byte vectors.
pub open spec fn strings_view(v: Vec<Vec<u8>>) -> Seq<Seq<u8>> {
    v@.map_values(|s: Vec<u8>| s@)
}

/// Split a byte string on a separator byte.
pub fn split_bytes(s: &Vec<u8>, sep: u8) -> (r: Vec<Vec<u8>>)
    ensures
        strings_view(r) == split_on(s@, sep),
{
    let mut parts: Vec<Vec<u8>> = Vec::new();
    let mut cur: Vec<u8> = Vec::new();
    let mut p: usize = 0;
    let mut i: usize = 0;
    proof {
        assert(strings_view(parts) =~= Seq::<Seq<u8>>::empty());
        assert(s@.skip(0) =~= s@);
        assert(cur@ =~= s@.subrange(0, 0));
        assert(strings_view(parts) + split_on(s@.skip(0), sep) =~= split_on(s@, sep));
    }
    while i < s.len()
        invariant
            p <= i <= s.len(),
            cur@ == s@.subrange(p as int, i as int),
            forall|j: int| p <= j < i ==> s@[j] != sep,
            split_on(s@, sep) == strings_view(parts) + split_on(s@.skip(p as int), sep),
        decreases s.len() - i,
    {
        let b = s[i];
        if b == sep {
            proof {
                let tail = s@.skip(p as int);
                assert(forall|j: int| 0 <= j < i - p ==> tail[j] != sep);
                assert(tail[i - p as int] == sep);
                lemma_find_sep_at(tail, sep, i - p as int);
                assert(tail.take(i - p as int) =~= s@.subrange(p as int, i as int));
                assert(tail.skip(i - p + 1) =~= s@.skip(i as int + 1));
            }
            let ghost before = strings_view(parts);
            parts.push(cur);
            proof {
                assert(strings_view(parts) =~= before.push(cur@));
                assert(strings_view(parts) + split_on(s@.skip(i as int + 1), sep) =~= before + (
                seq![s@.subrange(p as int, i as int)] + split_on(s@.skip(i as int + 1), sep)));
            }
            cur = Vec::new();
            p = i + 1;
            i = i + 1;
            proof {
                assert(cur@ =~= s@.subrange(p as int, i as int));
            }
        } else {
            cur.push(b);
            i = i + 1;
            proof {
                assert(cur@ =~= s@.subrange(p as int, i as int));
            }
        }
    }
    proof {
        let tail = s@.skip(p as int);
        assert(forall|j: int| 0 <= j < tail.len() ==> tail[j] != sep);
        lemma_find_sep_none(tail, sep);
        assert(cur@ =~= tail);
    }
    let ghost before = strings_view(parts);
    parts.push(cur);
    proof {
        assert(strings_view(parts) =~= before.push(cur@));
        assert(strings_view(parts) =~= split_on(s@, sep));
    }
    parts
}

/// An owned copy of a byte vector.
pub fn copy_bytes(v: &Vec<u8>) -> (r: Vec<u8>)
    ensures
        r@ == v@,
{
    let mut out: Vec<u8> = Vec::new();
    let mut i: usize = 0;
    while i < v.len()
        invariant
            i <= v.len(),
            out@ == v@.take(i as int),
        decreases v.len() - i,
    {
        out.push(v[i]);
        i = i + 1;
        proof {
            assert(out@ =~= v@.take(i as int));
        }
    }
    proof {
        assert(v@.take(v@.len() as int) =~= v@);
    }
    out
}

/// An owned copy of a vector of byte vectors.
pub fn copy_strings(v: &Vec<Vec<u8>>) -> (r: Vec<Vec<u8>>)
    ensures
        strings_view(r) == strings_view(*v),
{
    let mut out: Vec<Vec<u8>> = Vec::new();
    let mut i: usize = 0;
    while i < v.len()
        invariant
            i <= v.len(),
            out@.len() == i as int,
            forall|k: int| 0 <= k < i ==> (#[trigger] out@[k])@ == v@[k]@,
        decreases v.len() - i,
    {
        out.push(copy_bytes(&v[i]));
        i = i + 1;
    }
    proof {
        assert forall|k: int| 0 <= k < out@.len() implies strings_view(out)[k] == strings_view(
            *v,
        )[k] by {
            assert(out@[k]@ == v@[k]@);
        }
        assert(strings_view(out) =~= strings_view(*v));
    }
    out
}

/// All bytes are ASCII decimal digits.
pub open spec fn all_digits(s: Seq<u8>) -> bool {
    forall|i: int| 0 <= i < s.len() ==> 48 <= #[trigger] s[i] <= 57
}

/// The value of a decimal digit string.
pub open spec fn dec_val(s: Seq<u8>) -> int
    decreases s.len(),
{
    if s.len() == 0 {
        0
    } else {
        dec_val(s.drop_last()) * 10 + (s.last() - 48)
    }
}

pub proof fn lemma_dec_val_nonneg(s: Seq<u8>)
    requires
        all_digits(s),
    ensures
        dec_val(s) >= 0,
    decreases s.len(),
{
    if s.len() > 0 {
        assert(all_digits(s.drop_last()));
        lemma_dec_val_nonneg(s.drop_last());
    }
}

/// Longer digit prefixes never have smaller values.
pub proof fn lemma_dec_val_prefix(s: Seq<u8>, i: int)
    requires
        all_digits(s),
        0 <= i <= s.len(),
    ensures
        dec_val(s.take(i)) <= dec_val(s),
    decreases s.len() - i,
{
    if i < s.len() {
        lemma_dec_val_prefix(s, i + 1);
        assert(s.take(i + 1).drop_last() =~= s.take(i));
        assert(all_digits(s.take(i)));
        lemma_dec_val_nonneg(s.take(i));
        assert(dec_val(s.take(i + 1)) == dec_val(s.take(i)) * 10 + (s.take(i + 1).last() - 48));
    } else {
        assert(s.take(i) =~= s);
    }
}

/// Parse an unsigned 32-bit decimal literal: every byte must be a digit and
/// the value must fit, otherwise the literal is rejected.
pub fn parse_u32(s: &Vec<u8>) -> (r: Result<u32, ParseError>)
    ensures
        r is Ok <==> s@.len() >= 1 && all_digits(s@) && dec_val(s@) <= u32::MAX,
        r matches Ok(v) ==> v as int == dec_val(s@),
        r is Err ==> r matches Err(ParseError::InvalidNumber),
{
    if s.len() == 0 {
        return Err(ParseError::InvalidNumber);
    }
    let mut acc: u64 = 0;
    let mut i: usize = 0;
    while i < s.len()
        invariant
            i <= s.len(),
            s@.len() >= 1,
            all_digits(s@.take(i as int)),
            acc as int == dec_val(s@.take(i as int)),
            acc <= u32::MAX,
        decreases s.len() - i,
    {
        let b = s[i];
        if b < 48 || b > 57 {
            proof {
                assert(!all_digits(s@));
            }
            return Err(ParseError::InvalidNumber);
        }
        acc = acc * 10 + (b - 48) as u64;
        i = i + 1;
        proof {
            assert(s@.take(i as int).drop_last() =~= s@.take(i as int - 1));
            assert(s@.take(i as int).last() == s@[i as int - 1]);
            assert(all_digits(s@.take(i as int)));
        }
        if acc > 0xFFFFFFFF {
            proof {
                if all_digits(s@) {
                    lemma_dec_val_prefix(s@, i as int);
                    assert(dec_val(s@) >= acc > u32::MAX);
                }
            }
            return Err(ParseError::InvalidNumber);
        }
    }
    proof {
        assert(s@.take(s@.len() as int) =~= s@);
    }
    Ok(acc as u32)
}

/// Parse an unsigned 16-bit decimal literal.
pub fn parse_u16(s: &Vec<u8>) -> (r: Result<u16, ParseError>)
    ensures
        r is Ok <==> s@.len() >= 1 && all_digits(s@) && dec_val(s@) <= u16::MAX,
        r matches Ok(v) ==> v as int == dec_val(s@),
        r is Err ==> r matches Err(ParseError::InvalidNumber),
{
    match parse_u32(s) {
        Ok(v) => if v <= 65535 {
            Ok(v as u16)
        } else {
            Err(ParseError::InvalidNumber)
        },
        Err(e) => Err(e),
    }
}

/// Parse an unsigned 8-bit decimal literal in canonical form: one to three
/// digits, no leading zero.
pub open spec fn is_canon_dec_u8(s: Seq<u8>) -> bool {
    &&& 1 <= s.len() <= 3
    &&& all_digits(s)
    &&& (s.len() > 1 ==> s[0] != 48)
    &&& dec_val(s) <= 255
}

pub fn parse_canon_u8(s: &Vec<u8>) -> (r: Result<u8, ParseError>)
    ensures
        r is Ok <==> is_canon_dec_u8(s@),
        r matches Ok(v) ==> v as int == dec_val(s@),
        r is Err ==> r matches Err(ParseError::InvalidNumber),
{
    if s.len() == 0 || s.len() > 3 {
        return Err(ParseError::InvalidNumber);
    }
    if s.len() > 1 && s[0] == 48 {
        return Err(ParseError::InvalidNumber);
    }
    match parse_u32(s) {
        Ok(v) => if v <= 255 {
            Ok(v as u8)
        } else {
            Err(ParseError::InvalidNumber)
        },
        Err(e) => Err(e),
    }
}

/// The value of one hexadecimal digit, or 16 for a byte that is none.
pub open spec fn hex_val(b: u8) -> int {
    if 48 <= b <= 57 {
        b - 48
    } else if 97 <= b <= 102 {
        b - 87
    } else if 65 <= b <= 70 {
        b - 55
    } else {
        16
    }
}

pub open spec fn all_hex(s: Seq<u8>) -> bool {
    forall|i: int| 0 <= i < s.len() ==> hex_val(#[trigger] s[i]) < 16
}

/// The value of a hexadecimal digit string.
pub open spec fn hex_seq_val(s: Seq<u8>) -> int
    decreases s.len(),
{
    if s.len() == 0 {
        0
    } else {
        hex_seq_val(s.drop_last()) * 16 + hex_val(s.last())
    }
}

/// Parse a 16-bit group of one to four hexadecimal digits.
pub fn parse_hex_u16(s: &Vec<u8>) -> (r: Result<u16, ParseError>)
    ensures
        r is Ok <==> 1 <= s@.len() <= 4 && all_hex(s@),
        r matches Ok(v) ==> v as int == hex_seq_val(s@),
        r is Err ==> r matches Err(ParseError::InvalidNumber),
{
    if s.len() == 0 || s.len() > 4 {
        return Err(ParseError::InvalidNumber);
    }
    let mut acc: u16 = 0;
    let mut i: usize = 0;
    while i < s.len()
        invariant
            i <= s.len(),
            1 <= s@.len() <= 4,
            all_hex(s@.take(i as int)),
            acc as int == hex_seq_val(s@.take(i as int)),
            ((acc as int) < (if i == 0 {
                1int
            } else if i == 1 {
                16int
            } else if i == 2 {
                256int
            } else if i == 3 {
                4096int
            } else {
                65536int
            })),
        decreases s.len() - i,
    {
        let b = s[i];
        let d: u16 = if 48 <= b && b <= 57 {
            (b - 48) as u16
        } else if 97 <= b && b <= 102 {
            (b - 87) as u16
        } else if 65 <= b && b <= 70 {
            (b - 55) as u16
        } else {
            proof {
                assert(hex_val(s@[i as int]) == 16);
                assert(!all_hex(s@));
            }
            return Err(ParseError::InvalidNumber);
        };
        proof {
            assert(acc < 4096);
            assert(d < 16);
        }
        acc = acc * 16 + d;
        i = i + 1;
        proof {
            assert(s@.take(i as int).drop_last() =~= s@.take(i as int - 1));
            assert(s@.take(i as int).last() == s@[i as int - 1]);
            assert(all_hex(s@.take(i as int)));
        }
    }
    proof {
        assert(s@.take(s@.len() as int) =~= s@);
    }
    Ok(acc)
}

} // verus!
