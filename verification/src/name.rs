//! Domain names: label sequences with case-insensitive comparison,
//! case-preserving storage, and the RFC 1035 wire encoding (including
//! decompression of names that use message-compression pointers).

use vstd::prelude::*;

use crate::binary::BinDecoder;
use crate::binary::BinEncoder;
use crate::error::DecodeError;
use crate::error::EncodeError;
use crate::error::ParseError;
use crate::text::copy_bytes;
use vstd::std_specs::cmp::PartialEqSpec;

verus! {

/// ASCII case fold of one byte: upper-case letters map to lower case.
pub open spec fn lower_byte(b: u8) -> u8 {
    if 65 <= b <= 90 {
        (b + 32) as u8
    } else {
        b
    }
}

/// ASCII case fold of a label.
pub open spec fn lower_label(l: Seq<u8>) -> Seq<u8> {
    l.map_values(|b: u8| lower_byte(b))
}

/// ASCII case fold of a whole name.
pub open spec fn lower_name(ls: Seq<Seq<u8>>) -> Seq<Seq<u8>> {
    ls.map_values(|l: Seq<u8>| lower_label(l))
}

/// The label sequence held by a vector of labels.
pub open spec fn labels_view(v: Vec<Vec<u8>>) -> Seq<Seq<u8>> {
    v@.map_values(|l: Vec<u8>| l@)
}

/// Every label is 1 to 63 bytes long.
pub open spec fn labels_wf(ls: Seq<Seq<u8>>) -> bool {
    forall|i: int| 0 <= i < ls.len() ==> 1 <= (#[trigger] ls[i]).len() <= 63
}

/// The wire bytes of the labels alone: each label length-prefixed, without
/// the terminating zero byte.
pub open spec fn labels_bytes(ls: Seq<Seq<u8>>) -> Seq<u8>
    decreases ls.len(),
{
    if ls.len() == 0 {
        Seq::empty()
    } else {
        seq![ls[0].len() as u8] + ls[0] + labels_bytes(ls.drop_first())
    }
}

/// The full wire encoding of a name: the labels, then a zero terminator.
pub open spec fn name_bytes(ls: Seq<Seq<u8>>) -> Seq<u8> {
    labels_bytes(ls).push(0u8)
}

/// A well-formed name: every label 1 to 63 bytes, at most 255 encoded bytes.
pub open spec fn name_wf(ls: Seq<Seq<u8>>) -> bool {
    labels_wf(ls) && name_bytes(ls).len() <= 255
}

/// Parse a pointer-free wire-encoded name starting at the head of `s`:
/// the labels and the number of bytes they occupy (terminator included),
/// or `None` if the head of `s` is not a full pointer-free name.
pub open spec fn take_labels(s: Seq<u8>) -> Option<(Seq<Seq<u8>>, int)>
    decreases s.len(),
{
    if s.len() == 0 {
        None
    } else if s[0] == 0 {
        Some((Seq::empty(), 1))
    } else if s[0] >= 64 {
        None
    } else if s.len() < 1 + s[0] {
        None
    } else {
        match take_labels(s.skip(1 + s[0] as int)) {
            Some(p) => Some((seq![s.subrange(1, 1 + s[0] as int)] + p.0, 1 + s[0] + p.1)),
            None => None,
        }
    }
}

/// The labels' wire bytes distribute over concatenation of names.
pub proof fn lemma_labels_bytes_append(a: Seq<Seq<u8>>, b: Seq<Seq<u8>>)
    ensures
        labels_bytes(a + b) == labels_bytes(a) + labels_bytes(b),
    decreases a.len(),
{
    if a.len() == 0 {
        assert(a + b =~= b);
        assert(labels_bytes(a) + labels_bytes(b) =~= labels_bytes(b));
    } else {
        assert((a + b).drop_first() =~= a.drop_first() + b);
        lemma_labels_bytes_append(a.drop_first(), b);
        assert(labels_bytes(a + b) =~= labels_bytes(a) + labels_bytes(b));
    }
}

/// Parsing the wire bytes of a well-formed name recovers exactly its labels,
/// whatever bytes follow the terminator.
pub proof fn lemma_take_labels_of_name(ls: Seq<Seq<u8>>, rest: Seq<u8>)
    requires
        labels_wf(ls),
    ensures
        take_labels(labels_bytes(ls) + seq![0u8] + rest) == Some(
            (ls, labels_bytes(ls).len() + 1 as int),
        ),
    decreases ls.len(),
{
    let s = labels_bytes(ls) + seq![0u8] + rest;
    if ls.len() == 0 {
        assert(s[0] == 0);
        assert(ls =~= Seq::<Seq<u8>>::empty());
    } else {
        let n = ls[0].len() as int;
        assert(1 <= n <= 63);
        assert(s[0] == ls[0].len() as u8);
        assert(s.len() >= 1 + n + labels_bytes(ls.drop_first()).len() + 1);
        assert(s.subrange(1, 1 + n) =~= ls[0]);
        assert(s.skip(1 + n) =~= labels_bytes(ls.drop_first()) + seq![0u8] + rest);
        lemma_take_labels_of_name(ls.drop_first(), rest);
        assert(seq![s.subrange(1, 1 + n)] + ls.drop_first() =~= ls);
        assert(labels_bytes(ls).len() == 1 + n + labels_bytes(ls.drop_first()).len());
    }
}

/// One display byte: dots and backslashes inside a label are escaped with a
/// backslash; every other byte is emitted as it is stored.
pub open spec fn escape_byte(b: u8) -> Seq<u8> {
    if b == 46 || b == 92 {
        seq![92u8, b]
    } else {
        seq![b]
    }
}

/// The display text of one label.
pub open spec fn label_text(l: Seq<u8>) -> Seq<u8>
    decreases l.len(),
{
    if l.len() == 0 {
        Seq::empty()
    } else {
        escape_byte(l[0]) + label_text(l.drop_first())
    }
}

/// The display text of a label sequence: each label followed by a dot.
pub open spec fn labels_text(ls: Seq<Seq<u8>>) -> Seq<u8>
    decreases ls.len(),
{
    if ls.len() == 0 {
        Seq::empty()
    } else {
        label_text(ls[0]) + seq![46u8] + labels_text(ls.drop_first())
    }
}

/// The display text of a name: fully qualified, so every label is followed
/// by a dot; the root name alone is a single dot.
pub open spec fn name_text(ls: Seq<Seq<u8>>) -> Seq<u8> {
    if ls.len() == 0 {
        seq![46u8]
    } else {
        labels_text(ls)
    }
}

pub proof fn lemma_label_text_append(a: Seq<u8>, b: Seq<u8>)
    ensures
        label_text(a + b) == label_text(a) + label_text(b),
    decreases a.len(),
{
    if a.len() == 0 {
        assert(a + b =~= b);
        assert(label_text(a) + label_text(b) =~= label_text(b));
    } else {
        assert((a + b).drop_first() =~= a.drop_first() + b);
        lemma_label_text_append(a.drop_first(), b);
        assert(label_text(a + b) =~= label_text(a) + label_text(b));
    }
}

pub proof fn lemma_labels_text_append(a: Seq<Seq<u8>>, b: Seq<Seq<u8>>)
    ensures
        labels_text(a + b) == labels_text(a) + labels_text(b),
    decreases a.len(),
{
    if a.len() == 0 {
        assert(a + b =~= b);
        assert(labels_text(a) + labels_text(b) =~= labels_text(b));
    } else {
        assert((a + b).drop_first() =~= a.drop_first() + b);
        lemma_labels_text_append(a.drop_first(), b);
        assert(labels_text(a + b) =~= labels_text(a) + labels_text(b));
    }
}

/// One step of the case-insensitive hash: fold `x` into the accumulator.
/// The accumulator is reduced below 2^32 first, so no step overflows.
pub open spec fn mix(h: u64, x: u64) -> u64 {
    ((h % 0x100000000) * 31 + x) as u64
}

/// Hash of one label's bytes, from an accumulator.
pub open spec fn hash_bytes(l: Seq<u8>, h: u64) -> u64
    decreases l.len(),
{
    if l.len() == 0 {
        h
    } else {
        hash_bytes(l.drop_first(), mix(h, l[0] as u64))
    }
}

/// Hash of a label sequence: each label's bytes, then a boundary mark that
/// no byte value can produce.
pub open spec fn hash_labels(ls: Seq<Seq<u8>>, h: u64) -> u64
    decreases ls.len(),
{
    if ls.len() == 0 {
        h
    } else {
        hash_labels(ls.drop_first(), mix(hash_bytes(ls[0], h), 256))
    }
}

/// The hash of a (case-folded) name.
pub open spec fn name_hash(ls: Seq<Seq<u8>>) -> u64 {
    hash_labels(ls, 0)
}

/// The text grammar of a name, one byte step at a time: `cur` is the label
/// being built, `acc` the labels finished so far, and `fqdn` whether the
/// byte just consumed was an unescaped dot. `\DDD` collapses to the byte
/// with that decimal value; any other escaped byte stands for itself inside
/// the label; an unescaped dot ends a label, and an empty label, a dangling
/// escape, a bad `\DDD` or a value over 255 is a parse failure.
pub open spec fn take_text_labels(
    s: Seq<u8>,
    cur: Seq<u8>,
    acc: Seq<Seq<u8>>,
    fqdn: bool,
) -> Option<(Seq<Seq<u8>>, bool)>
    decreases s.len(),
{
    if s.len() == 0 {
        Some(
            (
                if cur.len() > 0 {
                    acc.push(cur)
                } else {
                    acc
                },
                fqdn,
            ),
        )
    } else if s[0] == 92 {
        if s.len() < 2 {
            None
        } else if 48 <= s[1] <= 57 {
            if s.len() < 4 {
                None
            } else if !(48 <= s[2] <= 57 && 48 <= s[3] <= 57) {
                None
            } else if (s[1] - 48) * 100 + (s[2] - 48) * 10 + (s[3] - 48) > 255 {
                None
            } else {
                take_text_labels(
                    s.skip(4),
                    cur.push((((s[1] - 48) * 100 + (s[2] - 48) * 10 + (s[3] - 48)) as u8)),
                    acc,
                    false,
                )
            }
        } else {
            take_text_labels(s.skip(2), cur.push(s[1]), acc, false)
        }
    } else if s[0] == 46 {
        if cur.len() == 0 {
            None
        } else {
            take_text_labels(s.skip(1), Seq::empty(), acc.push(cur), true)
        }
    } else {
        take_text_labels(s.skip(1), cur.push(s[0]), acc, false)
    }
}

/// What a name literal means against an origin: the labels of the text (a
/// single dot is the root), qualified by appending the origin's labels when
/// the text does not end in an unescaped dot, and only if the result is a
/// well-formed name.
pub open spec fn spec_parse_name(text: Seq<u8>, origin: Seq<Seq<u8>>) -> Option<Seq<Seq<u8>>> {
    if text.len() == 0 {
        None
    } else if text == seq![46u8] {
        Some(Seq::empty())
    } else {
        match take_text_labels(text, Seq::empty(), Seq::empty(), false) {
            None => None,
            Some(p) => {
                let full = if p.1 {
                    p.0
                } else {
                    p.0 + origin
                };
                if name_wf(full) {
                    Some(full)
                } else {
                    None
                }
            },
        }
    }
}

/// A domain name: an ordered sequence of labels. Comparison is ASCII
/// case-insensitive; the stored bytes keep their original case. The root
/// name has no labels.
#[derive(Debug)]
pub struct Name {
    labels: Vec<Vec<u8>>,
}

impl View for Name {
    type V = Seq<Seq<u8>>;

    closed spec fn view(&self) -> Seq<Seq<u8>> {
        labels_view(self.labels)
    }
}

impl Name {
    pub open spec fn wf(&self) -> bool {
        name_wf(self@)
    }

    /// The root name, with no labels.
    pub fn root() -> (r: Name)
        ensures
            r@ == Seq::<Seq<u8>>::empty(),
            r.wf(),
    {
        let n = Name { labels: Vec::new() };
        proof {
            assert(n@ =~= Seq::<Seq<u8>>::empty());
            assert(name_bytes(n@).len() == 1);
        }
        n
    }

    /// Check that a label vector forms a well-formed name.
    fn check_labels(labels: &Vec<Vec<u8>>) -> (r: Result<(), EncodeError>)
        ensures
            r is Ok <==> name_wf(labels_view(*labels)),
    {
        let ghost ls = labels_view(*labels);
        let mut total: usize = 1;
        let mut i: usize = 0;
        while i < labels.len()
            invariant
                i <= labels.len(),
                ls == labels_view(*labels),
                labels_wf(ls.take(i as int)),
                total == name_bytes(ls.take(i as int)).len(),
                total <= 255,
            decreases labels.len() - i,
        {
            let len = labels[i].len();
            if len == 0 || len > 63 {
                proof {
                    assert(ls[i as int].len() == len);
                    assert(!labels_wf(ls));
                }
                return Err(EncodeError::MalformedLabel);
            }
            if total + len + 1 > 255 {
                proof {
                    assert(ls.take(i as int) + ls.skip(i as int) =~= ls);
                    lemma_labels_bytes_append(ls.take(i as int), ls.skip(i as int));
                    assert(ls.skip(i as int).len() > 0);
                    assert(ls.skip(i as int)[0] =~= ls[i as int]);
                    assert(labels_bytes(ls.skip(i as int)).len() >= 1 + len) by {
                        assert(labels_bytes(ls.skip(i as int)) == seq![ls[i as int].len() as u8]
                            + ls[i as int] + labels_bytes(ls.skip(i as int).drop_first()));
                    }
                    assert(name_bytes(ls).len() >= total + len + 1);
                }
                return Err(EncodeError::NameTooLong);
            }
            total = total + len + 1;
            i = i + 1;
            proof {
                assert(ls.take(i as int).drop_last() =~= ls.take(i as int - 1));
                assert(ls.take(i as int) =~= ls.take(i as int - 1) + seq![ls[i as int - 1]]);
                lemma_labels_bytes_append(ls.take(i as int - 1), seq![ls[i as int - 1]]);
                assert(labels_bytes(seq![ls[i as int - 1]]).len() == 1 + ls[i as int - 1].len())
                    by {
                    assert(labels_bytes(seq![ls[i as int - 1]]) == seq![
                        ls[i as int - 1].len() as u8,
                    ] + ls[i as int - 1] + labels_bytes(
                        seq![ls[i as int - 1]].drop_first(),
                    ));
                    assert(seq![ls[i as int - 1]].drop_first() =~= Seq::<Seq<u8>>::empty());
                }
            }
        }
        proof {
            assert(ls.take(labels.len() as int) =~= ls);
        }
        Ok(())
    }

    /// Build a name from its labels. Succeeds exactly when the labels form a
    /// well-formed name: no empty or over-63-byte label, at most 255 encoded
    /// bytes.
    pub fn from_labels(labels: Vec<Vec<u8>>) -> (r: Result<Name, EncodeError>)
        ensures
            r is Ok <==> name_wf(labels_view(labels)),
            r matches Ok(n) ==> n@ == labels_view(labels) && n.wf(),
    {
        match Self::check_labels(&labels) {
            Ok(()) => Ok(Name { labels }),
            Err(e) => Err(e),
        }
    }

    /// Check the name's well-formedness as a value.
    pub fn check(&self) -> (r: Result<(), EncodeError>)
        ensures
            r is Ok <==> self.wf(),
    {
        Self::check_labels(&self.labels)
    }

    /// How many labels the name has.
    pub fn label_count(&self) -> (r: usize)
        ensures
            r == self@.len(),
    {
        self.labels.len()
    }

    /// Decode a name from the wire, following compression pointers.
    ///
    /// A pointer must point strictly backwards (each target lies before the
    /// previous one), so pointer cycles and forward references are rejected
    /// as `MalformedName` instead of looping: a first byte that is a pointer
    /// to the cursor or past it, or a reserved length byte, is exactly a
    /// `MalformedName`. When the name at the cursor is pointer-free and fits
    /// in 255 bytes, exactly its encoding is consumed and exactly its labels
    /// are returned.
    pub fn read(d: &mut BinDecoder) -> (r: Result<Name, DecodeError>)
        requires
            old(d).wf(),
        ensures
            final(d).wf(),
            final(d).bytes() == old(d).bytes(),
            r matches Ok(n) ==> n.wf(),
            r is Ok ==> old(d).position() < final(d).position() <= old(d).bytes().len(),
            (old(d).position() + 2 <= old(d).bytes().len() && old(d).bytes()[old(
                d,
            ).position()] >= 192 && (old(d).bytes()[old(d).position()] - 192) * 256 + old(
                d,
            ).bytes()[old(d).position() + 1] >= old(d).position()) ==> r == Err::<
                Name,
                DecodeError,
            >(DecodeError::MalformedName),
            (old(d).position() < old(d).bytes().len() && 64 <= old(d).bytes()[old(
                d,
            ).position()] < 192) ==> r == Err::<Name, DecodeError>(DecodeError::MalformedName),
            match take_labels(old(d).bytes().skip(old(d).position())) {
                Some(p) => if name_bytes(p.0).len() <= 255 {
                    r matches Ok(n) && n@ == p.0 && final(d).position() == old(d).position()
                        + p.1
                } else {
                    r matches Err(e) && e == DecodeError::MalformedName
                },
                None => true,
            },
    {
        let ghost start = old(d).position();
        let mut labels: Vec<Vec<u8>> = Vec::new();
        let mut total: usize = 1;
        let mut jumped: bool = false;
        let mut restore: usize = 0;
        let mut barrier: usize = d.offset();
        proof {
            assert(labels_view(labels) =~= Seq::<Seq<u8>>::empty());
        }
        loop
            invariant
                d.wf(),
                d.bytes() == old(d).bytes(),
                start == old(d).position(),
                0 <= start <= d.bytes().len(),
                barrier as int <= d.bytes().len(),
                jumped ==> restore as int <= d.bytes().len(),
                jumped ==> start + 2 <= restore as int,
                (start + 2 <= d.bytes().len() && d.bytes()[start] >= 192 && (d.bytes()[start]
                    - 192) * 256 + d.bytes()[start + 1] >= start) ==> !jumped && d.position()
                    == start && barrier as int == start,
                (start < d.bytes().len() && 64 <= d.bytes()[start] < 192) ==> !jumped
                    && d.position() == start,
                labels_wf(labels_view(labels)),
                total as int == name_bytes(labels_view(labels)).len(),
                total <= 255,
                !jumped ==> start <= d.position(),
                !jumped ==> match take_labels(d.bytes().skip(d.position())) {
                    Some(p2) => take_labels(d.bytes().skip(start)) == Some(
                        (
                            labels_view(labels) + p2.0,
                            d.position() - start + p2.1,
                        ),
                    ),
                    None => take_labels(d.bytes().skip(start)) is None,
                },
                jumped ==> take_labels(d.bytes().skip(start)) is None,
            decreases barrier, d.bytes().len() - d.position(),
        {
            let ghost pos0 = d.position();
            let ghost here = d.bytes().skip(pos0);
            let b = match d.pop() {
                Ok(b) => b,
                Err(_) => {
                    proof {
                        assert(here.len() == 0);
                        assert(take_labels(here) is None);
                    }
                    return Err(DecodeError::Truncated);
                },
            };
            proof {
                assert(here[0] == b);
            }
            if b == 0 {
                // terminator: the name is complete
                proof {
                    if !jumped {
                        assert(take_labels(here) == Some((Seq::<Seq<u8>>::empty(), 1int)));
                        assert(labels_view(labels) + Seq::<Seq<u8>>::empty() =~= labels_view(
                            labels,
                        ));
                    }
                }
                if jumped {
                    d.seek(restore);
                }
                let n = Name { labels };
                return Ok(n);
            } else if b >= 192 {
                // a compression pointer: two bytes, top two bits set
                let b2 = match d.pop() {
                    Ok(b2) => b2,
                    Err(_) => {
                        proof {
                            assert(take_labels(here) is None);
                        }
                        return Err(DecodeError::Truncated);
                    },
                };
                proof {
                    assert(take_labels(here) is None);
                }
                let target = (b as usize - 192) * 256 + b2 as usize;
                if target >= barrier {
                    return Err(DecodeError::MalformedName);
                }
                if !jumped {
                    restore = d.offset();
                    jumped = true;
                }
                barrier = target;
                d.seek(target);
            } else if b >= 64 {
                // 0x40..0xC0 is reserved on the wire
                proof {
                    assert(take_labels(here) is None);
                }
                return Err(DecodeError::MalformedName);
            } else {
                // an ordinary label of b bytes
                if total + b as usize + 1 > 255 {
                    proof {
                        if !jumped && take_labels(d.bytes().skip(start)) is Some {
                            let p2 = take_labels(here).unwrap();
                            let full = take_labels(d.bytes().skip(start)).unwrap();
                            assert(take_labels(here) is Some);
                            assert(here.len() >= 1 + b);
                            assert(p2.0 == seq![here.subrange(1, 1 + b as int)]
                                + take_labels(here.skip(1 + b as int)).unwrap().0);
                            assert(p2.0[0].len() == b as int);
                            assert(labels_bytes(p2.0) == seq![p2.0[0].len() as u8] + p2.0[0]
                                + labels_bytes(p2.0.drop_first()));
                            assert(labels_bytes(p2.0).len() >= 1 + b);
                            lemma_labels_bytes_append(labels_view(labels), p2.0);
                            assert(full.0 == labels_view(labels) + p2.0);
                            assert(name_bytes(full.0).len() >= total + b + 1 > 255);
                        }
                    }
                    return Err(DecodeError::MalformedName);
                }
                let label = match d.read_bytes(b as usize) {
                    Ok(l) => l,
                    Err(_) => {
                        proof {
                            assert(here.len() < 1 + b);
                            assert(take_labels(here) is None);
                        }
                        return Err(DecodeError::Truncated);
                    },
                };
                proof {
                    assert(label@ =~= here.subrange(1, 1 + b as int));
                }
                let ghost old_view = labels_view(labels);
                labels.push(label);
                total = total + b as usize + 1;
                proof {
                    assert(labels_view(labels) =~= old_view.push(label@));
                    assert(old_view.push(label@) =~= old_view + seq![label@]);
                    lemma_labels_bytes_append(old_view, seq![label@]);
                    assert(labels_bytes(seq![label@]) == seq![label@.len() as u8] + label@
                        + labels_bytes(seq![label@].drop_first()));
                    assert(seq![label@].drop_first() =~= Seq::<Seq<u8>>::empty());
                    assert(labels_bytes(seq![label@]).len() == 1 + b);
                    assert(total as int == name_bytes(labels_view(labels)).len());
                    if !jumped {
                        assert(here.skip(1 + b as int) =~= d.bytes().skip(d.position()));
                        match take_labels(d.bytes().skip(d.position())) {
                            Some(p3) => {
                                assert(take_labels(here) == Some(
                                    (seq![label@] + p3.0, 1 + b + p3.1),
                                ));
                                assert(labels_view(labels) + p3.0 =~= old_view + (seq![label@]
                                    + p3.0));
                            },
                            None => {
                                assert(take_labels(here) is None);
                            },
                        }
                    }
                }
            }
        }
    }

    /// Encode the name: each label length-prefixed, then a zero terminator.
    /// Succeeds exactly when the name is well-formed; nothing is written on
    /// failure.
    pub fn emit(&self, e: &mut BinEncoder) -> (r: Result<(), EncodeError>)
        ensures
            r is Ok <==> self.wf(),
            r is Ok ==> final(e).bytes() == old(e).bytes() + name_bytes(self@),
            r is Err ==> final(e).bytes() == old(e).bytes(),
    {
        match Self::check_labels(&self.labels) {
            Ok(()) => {},
            Err(err) => {
                return Err(err);
            },
        }
        let mut i: usize = 0;
        while i < self.labels.len()
            invariant
                i <= self.labels.len(),
                self.wf(),
                e.bytes() == old(e).bytes() + labels_bytes(self@.take(i as int)),
            decreases self.labels.len() - i,
        {
            let len = self.labels[i].len();
            proof {
                assert(self@[i as int].len() == len);
                assert(len <= 63);
            }
            e.emit(len as u8);
            e.emit_bytes(&self.labels[i]);
            i = i + 1;
            proof {
                assert(self@.take(i as int) =~= self@.take(i as int - 1) + seq![
                    self@[i as int - 1],
                ]);
                lemma_labels_bytes_append(self@.take(i as int - 1), seq![self@[i as int - 1]]);
                assert(labels_bytes(seq![self@[i as int - 1]]) == seq![
                    self@[i as int - 1].len() as u8,
                ] + self@[i as int - 1] + labels_bytes(seq![self@[i as int - 1]].drop_first()));
                assert(seq![self@[i as int - 1]].drop_first() =~= Seq::<Seq<u8>>::empty());
                assert(labels_bytes(seq![self@[i as int - 1]]) =~= seq![
                    self@[i as int - 1].len() as u8,
                ] + self@[i as int - 1]);
                assert(e.bytes() =~= old(e).bytes() + labels_bytes(self@.take(i as int)));
            }
        }
        e.emit(0);
        proof {
            assert(self@.take(self.labels.len() as int) =~= self@);
            assert(e.bytes() =~= old(e).bytes() + name_bytes(self@));
        }
        Ok(())
    }

    /// The display text of the name: labels joined and terminated by dots,
    /// original case preserved, dots and backslashes inside a label escaped.
    /// The root name is a single dot.
    pub fn to_text(&self) -> (r: Vec<u8>)
        ensures
            r@ == name_text(self@),
    {
        let mut out: Vec<u8> = Vec::new();
        if self.labels.len() == 0 {
            out.push(46);
            proof {
                assert(out@ =~= name_text(self@));
            }
            return out;
        }
        let mut i: usize = 0;
        while i < self.labels.len()
            invariant
                i <= self.labels.len(),
                self.labels.len() > 0,
                out@ == labels_text(self@.take(i as int)),
            decreases self.labels.len() - i,
        {
            let ghost before = out@;
            let label = &self.labels[i];
            let mut j: usize = 0;
            while j < label.len()
                invariant
                    j <= label.len(),
                    out@ == before + label_text(label@.take(j as int)),
                decreases label.len() - j,
            {
                let b = label[j];
                if b == 46 || b == 92 {
                    out.push(92);
                }
                out.push(b);
                j = j + 1;
                proof {
                    assert(label@.take(j as int) =~= label@.take(j as int - 1) + seq![
                        label@[j as int - 1],
                    ]);
                    lemma_label_text_append(label@.take(j as int - 1), seq![label@[j as int - 1]]);
                    assert(seq![label@[j as int - 1]].drop_first() =~= Seq::<u8>::empty());
                    assert(label_text(Seq::<u8>::empty()) == Seq::<u8>::empty());
                    assert(label_text(seq![label@[j as int - 1]]) == escape_byte(
                        label@[j as int - 1],
                    ) + label_text(seq![label@[j as int - 1]].drop_first()));
                    assert(label_text(seq![label@[j as int - 1]]) =~= escape_byte(
                        label@[j as int - 1],
                    ));
                    assert(out@ =~= before + label_text(label@.take(j as int)));
                }
            }
            out.push(46);
            i = i + 1;
            proof {
                assert(label@.take(label@.len() as int) =~= label@);
                assert(self@.take(i as int) =~= self@.take(i as int - 1) + seq![
                    self@[i as int - 1],
                ]);
                lemma_labels_text_append(self@.take(i as int - 1), seq![self@[i as int - 1]]);
                assert(seq![self@[i as int - 1]].drop_first() =~= Seq::<Seq<u8>>::empty());
                assert(labels_text(seq![self@[i as int - 1]]) =~= label_text(self@[i as int - 1])
                    + seq![46u8] + labels_text(Seq::<Seq<u8>>::empty()));
                assert(out@ =~= labels_text(self@.take(i as int)));
            }
        }
        proof {
            assert(self@.take(self.labels.len() as int) =~= self@);
        }
        out
    }

    /// Case-insensitive hash: depends only on the ASCII-folded labels, so
    /// names that compare equal hash identically.
    pub fn case_hash(&self) -> (r: u64)
        ensures
            r == name_hash(lower_name(self@)),
    {
        let ghost folded = lower_name(self@);
        let mut h: u64 = 0;
        let mut i: usize = 0;
        proof {
            assert(folded.skip(0) =~= folded);
        }
        while i < self.labels.len()
            invariant
                i <= self.labels.len(),
                folded == lower_name(self@),
                folded.len() == self.labels.len(),
                name_hash(folded) == hash_labels(folded.skip(i as int), h),
            decreases self.labels.len() - i,
        {
            let label = &self.labels[i];
            proof {
                assert(folded[i as int] == lower_label(label@));
            }
            let ghost fl = lower_label(label@);
            let ghost h0 = h;
            let mut j: usize = 0;
            proof {
                assert(fl.skip(0) =~= fl);
            }
            while j < label.len()
                invariant
                    j <= label.len(),
                    fl == lower_label(label@),
                    fl.len() == label.len(),
                    hash_bytes(fl, h0) == hash_bytes(fl.skip(j as int), h),
                decreases label.len() - j,
            {
                let b = label[j];
                let x: u64 = if 65 <= b && b <= 90 {
                    (b + 32) as u64
                } else {
                    b as u64
                };
                proof {
                    assert(fl.skip(j as int)[0] == lower_byte(label@[j as int]));
                    assert(fl.skip(j as int).drop_first() =~= fl.skip(j as int + 1));
                }
                h = (h % 0x100000000) * 31 + x;
                j = j + 1;
            }
            proof {
                assert(fl.skip(label@.len() as int) =~= Seq::<u8>::empty());
                assert(hash_bytes(fl, h0) == h);
                assert(folded.skip(i as int)[0] == fl);
                assert(folded.skip(i as int).drop_first() =~= folded.skip(i as int + 1));
                assert(hash_labels(folded.skip(i as int), h0) == hash_labels(
                    folded.skip(i as int + 1),
                    mix(h, 256),
                ));
            }
            h = (h % 0x100000000) * 31 + 256;
            i = i + 1;
        }
        proof {
            assert(folded.skip(self.labels.len() as int) =~= Seq::<Seq<u8>>::empty());
        }
        h
    }

    /// Parse a name from master-file text: exactly the `spec_parse_name`
    /// grammar. A trailing unescaped dot makes the name fully qualified;
    /// otherwise the origin's labels are appended. Backslash escapes are
    /// processed: `\DDD` is the byte with that decimal value, and any other
    /// escaped byte (for example an escaped dot) stands for itself inside
    /// the label.
    pub fn parse(text: &Vec<u8>, origin: &Name) -> (r: Result<Name, ParseError>)
        ensures
            r is Ok <==> spec_parse_name(text@, origin@) is Some,
            r matches Ok(n) ==> Some(n@) == spec_parse_name(text@, origin@) && n.wf(),
    {
        if text.len() == 0 {
            return Err(ParseError::MissingToken);
        }
        if text.len() == 1 && text[0] == 46 {
            proof {
                assert(text@ =~= seq![46u8]);
                assert(name_wf(Seq::<Seq<u8>>::empty())) by {
                    assert(labels_bytes(Seq::<Seq<u8>>::empty()) =~= Seq::<u8>::empty());
                }
            }
            return Ok(Name::root());
        }
        proof {
            assert(text@ != seq![46u8]);
        }
        let ghost whole = take_text_labels(text@, Seq::empty(), Seq::empty(), false);
        let mut labels: Vec<Vec<u8>> = Vec::new();
        let mut label: Vec<u8> = Vec::new();
        let mut fqdn = false;
        let mut i: usize = 0;
        proof {
            assert(text@.skip(0) =~= text@);
            assert(label@ =~= Seq::<u8>::empty());
            assert(labels_view(labels) =~= Seq::<Seq<u8>>::empty());
        }
        while i < text.len()
            invariant
                i <= text.len(),
                text@.len() > 0,
                text@ != seq![46u8],
                whole == take_text_labels(text@, Seq::empty(), Seq::empty(), false),
                whole == take_text_labels(text@.skip(i as int), label@, labels_view(labels), fqdn),
            decreases text.len() - i,
        {
            let ghost here = text@.skip(i as int);
            let ghost before = labels_view(labels);
            let b = text[i];
            proof {
                assert(here[0] == b);
            }
            if b == 92 {
                // backslash escape
                if text.len() - i <= 1 {
                    proof {
                        assert(here.len() < 2);
                    }
                    return Err(ParseError::UnexpectedToken);
                }
                let c = text[i + 1];
                proof {
                    assert(here[1] == c);
                }
                if 48 <= c && c <= 57 {
                    // \DDD: exactly three decimal digits
                    if text.len() - i <= 3 {
                        proof {
                            assert(here.len() < 4);
                        }
                        return Err(ParseError::UnexpectedToken);
                    }
                    let c2 = text[i + 2];
                    let c3 = text[i + 3];
                    proof {
                        assert(here[2] == c2 && here[3] == c3);
                    }
                    if !(48 <= c2 && c2 <= 57 && 48 <= c3 && c3 <= 57) {
                        return Err(ParseError::UnexpectedToken);
                    }
                    let v: u32 = (c - 48) as u32 * 100 + (c2 - 48) as u32 * 10 + (c3
                        - 48) as u32;
                    if v > 255 {
                        return Err(ParseError::UnexpectedToken);
                    }
                    label.push(v as u8);
                    i = i + 4;
                    proof {
                        assert(here.skip(4) =~= text@.skip(i as int));
                    }
                } else {
                    label.push(c);
                    i = i + 2;
                    proof {
                        assert(here.skip(2) =~= text@.skip(i as int));
                    }
                }
                fqdn = false;
            } else if b == 46 {
                // unescaped dot: end of a label
                if label.len() == 0 {
                    return Err(ParseError::UnexpectedToken);
                }
                let ghost done = label@;
                labels.push(label);
                label = Vec::new();
                fqdn = true;
                i = i + 1;
                proof {
                    assert(labels_view(labels) =~= before.push(done));
                    assert(label@ =~= Seq::<u8>::empty());
                    assert(here.skip(1) =~= text@.skip(i as int));
                }
            } else {
                label.push(b);
                fqdn = false;
                i = i + 1;
                proof {
                    assert(here.skip(1) =~= text@.skip(i as int));
                }
            }
        }
        proof {
            assert(text@.skip(text@.len() as int) =~= Seq::<u8>::empty());
        }
        if label.len() > 0 {
            let ghost done = label@;
            let ghost before = labels_view(labels);
            labels.push(label);
            proof {
                assert(labels_view(labels) =~= before.push(done));
            }
        }
        let ghost parsed = labels_view(labels);
        proof {
            assert(whole == Some((parsed, fqdn)));
        }
        if !fqdn {
            // relative: qualify against the origin
            let mut k: usize = 0;
            proof {
                assert(parsed + origin@.take(0) =~= parsed);
            }
            while k < origin.labels.len()
                invariant
                    k <= origin.labels.len(),
                    labels_view(labels) == parsed + origin@.take(k as int),
                decreases origin.labels.len() - k,
            {
                let ghost before = labels_view(labels);
                labels.push(copy_bytes(&origin.labels[k]));
                k = k + 1;
                proof {
                    assert(origin@[k as int - 1] == origin.labels@[k as int - 1]@);
                    assert(labels_view(labels) =~= before.push(origin@[k as int - 1]));
                    assert(parsed + origin@.take(k as int) =~= (parsed + origin@.take(
                        k as int - 1,
                    )).push(origin@[k as int - 1]));
                }
            }
            proof {
                assert(origin@.take(origin@.len() as int) =~= origin@);
            }
        }
        match Name::from_labels(labels) {
            Ok(n) => Ok(n),
            Err(_) => Err(ParseError::UnexpectedToken),
        }
    }
}

impl Clone for Name {
    /// Cloning keeps the labels, byte for byte.
    fn clone(&self) -> (r: Self)
        ensures
            r@ == self@,
    {
        let mut out: Vec<Vec<u8>> = Vec::new();
        let mut i: usize = 0;
        while i < self.labels.len()
            invariant
                i <= self.labels.len(),
                out@.len() == i as int,
                forall|k: int| 0 <= k < i ==> (#[trigger] out@[k])@ == self@[k],
            decreases self.labels.len() - i,
        {
            out.push(copy_bytes(&self.labels[i]));
            i = i + 1;
        }
        let r = Name { labels: out };
        proof {
            assert forall|k: int| 0 <= k < r@.len() implies r@[k] == self@[k] by {
                assert(out@[k]@ == self@[k]);
            }
            assert(r@ =~= self@);
        }
        r
    }
}

/// One label compared byte by byte under ASCII case folding.
fn label_eq(a: &Vec<u8>, b: &Vec<u8>) -> (r: bool)
    ensures
        r == (lower_label(a@) == lower_label(b@)),
{
    if a.len() != b.len() {
        proof {
            assert(lower_label(a@).len() != lower_label(b@).len());
        }
        return false;
    }
    let mut i: usize = 0;
    while i < a.len()
        invariant
            i <= a.len(),
            a@.len() == b@.len(),
            forall|k: int| 0 <= k < i ==> lower_byte(a@[k]) == lower_byte(b@[k]),
        decreases a.len() - i,
    {
        let x = a[i];
        let y = b[i];
        let fx: u8 = if 65 <= x && x <= 90 {
            x + 32
        } else {
            x
        };
        let fy: u8 = if 65 <= y && y <= 90 {
            y + 32
        } else {
            y
        };
        if fx != fy {
            proof {
                assert(lower_label(a@)[i as int] != lower_label(b@)[i as int]);
            }
            return false;
        }
        i = i + 1;
    }
    proof {
        assert(lower_label(a@) =~= lower_label(b@));
    }
    true
}

impl PartialEq for Name {
    /// Names compare ASCII case-insensitively, label by label.
    fn eq(&self, other: &Name) -> (r: bool) {
        if self.labels.len() != other.labels.len() {
            proof {
                assert(lower_name(self@).len() != lower_name(other@).len());
            }
            return false;
        }
        let mut i: usize = 0;
        while i < self.labels.len()
            invariant
                i <= self.labels.len(),
                self@.len() == other@.len(),
                forall|k: int| 0 <= k < i ==> lower_label(self@[k]) == lower_label(other@[k]),
            decreases self.labels.len() - i,
        {
            if !label_eq(&self.labels[i], &other.labels[i]) {
                proof {
                    assert(lower_name(self@)[i as int] != lower_name(other@)[i as int]);
                }
                return false;
            }
            i = i + 1;
        }
        proof {
            assert(lower_name(self@) =~= lower_name(other@));
        }
        true
    }
}

impl vstd::std_specs::cmp::PartialEqSpecImpl for Name {
    open spec fn obeys_eq_spec() -> bool {
        true
    }

    open spec fn eq_spec(&self, other: &Name) -> bool {
        lower_name(self@) == lower_name(other@)
    }
}

impl Eq for Name {

}

/// Name case-insensitivity: two names whose ASCII-folded labels agree are
/// equal under `==` (whose meaning is exactly that fold) and hash
/// identically under `case_hash`, while each keeps its own stored case for
/// display.
pub proof fn lemma_name_case_insensitivity(a: Name, b: Name)
    requires
        lower_name(a@) == lower_name(b@),
    ensures
        a.eq_spec(&b),
        name_hash(lower_name(a@)) == name_hash(lower_name(b@)),
{
}

} // verus!
