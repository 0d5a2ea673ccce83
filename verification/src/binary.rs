//! Bounds-checked, position-tracked wire cursors over byte buffers.
//!
//! `BinDecoder` reads network-byte-order values from a buffer and fails with
//! `DecodeError::Truncated` instead of running past the end; `BinEncoder`
//! appends values to an output buffer. Multi-byte values are composed most
//! significant byte first.

use vstd::prelude::*;

use crate::error::DecodeError;
use crate::error::EncodeError;

verus! {

/// The two big-endian bytes of a 16-bit value.
pub open spec fn u16_bytes(v: u16) -> Seq<u8> {
    seq![(v / 256) as u8, (v % 256) as u8]
}

/// The four big-endian bytes of a 32-bit value.
pub open spec fn u32_bytes(v: u32) -> Seq<u8> {
    seq![
        (v / 0x1000000) as u8,
        ((v / 0x10000) % 256) as u8,
        ((v / 256) % 256) as u8,
        (v % 256) as u8,
    ]
}

/// A character-string on the wire: a one-byte length prefix, then the raw
/// bytes. Meaningful only for strings of at most 255 bytes.
pub open spec fn char_string_bytes(s: Seq<u8>) -> Seq<u8> {
    seq![s.len() as u8] + s
}

/// Big-endian recomposition is the inverse of `u16_bytes`.
pub proof fn lemma_u16_bytes_of(b0: u8, b1: u8)
    ensures
        u16_bytes((b0 as u16 * 256 + b1 as u16) as u16) == seq![b0, b1],
{
    let v: u16 = (b0 as u16 * 256 + b1 as u16) as u16;
    assert(v as int == b0 as int * 256 + b1 as int);
    assert(v as int / 256 == b0 as int) by (nonlinear_arith)
        requires
            v as int == b0 as int * 256 + b1 as int,
            0 <= b1 < 256,
            0 <= b0 < 256,
    ;
    assert(v as int % 256 == b1 as int) by (nonlinear_arith)
        requires
            v as int == b0 as int * 256 + b1 as int,
            0 <= b1 < 256,
            0 <= b0 < 256,
    ;
    assert(u16_bytes(v) =~= seq![b0, b1]);
}

/// Big-endian recomposition is the inverse of `u32_bytes`.
pub proof fn lemma_u32_bytes_of(b0: u8, b1: u8, b2: u8, b3: u8)
    ensures
        u32_bytes(
            (b0 as u32 * 0x1000000 + b1 as u32 * 0x10000 + b2 as u32 * 256 + b3 as u32) as u32,
        ) == seq![b0, b1, b2, b3],
{
    let v: u32 = (b0 as u32 * 0x1000000 + b1 as u32 * 0x10000 + b2 as u32 * 256
        + b3 as u32) as u32;
    let n: int = v as int;
    assert(n == b0 as int * 0x1000000 + b1 as int * 0x10000 + b2 as int * 256 + b3 as int);
    assert(n / 0x1000000 == b0 as int && (n / 0x10000) % 256 == b1 as int && (n / 256) % 256
        == b2 as int && n % 256 == b3 as int) by (nonlinear_arith)
        requires
            n == b0 as int * 0x1000000 + b1 as int * 0x10000 + b2 as int * 256 + b3 as int,
            0 <= b0 < 256,
            0 <= b1 < 256,
            0 <= b2 < 256,
            0 <= b3 < 256,
    ;
    assert(u32_bytes(v) =~= seq![b0, b1, b2, b3]);
}

/// A read cursor over a byte buffer. `Truncated` is returned, never a panic,
/// when a read would pass the end of the buffer.
pub struct BinDecoder {
    buffer: Vec<u8>,
    index: usize,
}

impl BinDecoder {
    /// The whole underlying buffer; reads never change it.
    pub closed spec fn bytes(&self) -> Seq<u8> {
        self.buffer@
    }

    /// The current read position.
    pub closed spec fn position(&self) -> int {
        self.index as int
    }

    pub open spec fn wf(&self) -> bool {
        0 <= self.position() <= self.bytes().len()
    }

    pub fn new(buffer: Vec<u8>) -> (r: BinDecoder)
        ensures
            r.wf(),
            r.bytes() == buffer@,
            r.position() == 0,
    {
        BinDecoder { buffer, index: 0 }
    }

    /// The current read position, as a value.
    pub fn offset(&self) -> (r: usize)
        ensures
            r as int == self.position(),
    {
        self.index
    }

    /// Move the cursor to an absolute offset inside the buffer.
    pub fn seek(&mut self, index: usize)
        requires
            old(self).wf(),
            index as int <= old(self).bytes().len(),
        ensures
            final(self).wf(),
            final(self).bytes() == old(self).bytes(),
            final(self).position() == index as int,
    {
        self.index = index;
    }

    /// Read the next byte; `Truncated` exactly when the buffer is exhausted.
    pub fn pop(&mut self) -> (r: Result<u8, DecodeError>)
        requires
            old(self).wf(),
        ensures
            final(self).wf(),
            final(self).bytes() == old(self).bytes(),
            r is Ok <==> old(self).position() + 1 <= old(self).bytes().len(),
            r matches Ok(b) ==> b == old(self).bytes()[old(self).position()] && final(self).position() == old(self).position() + 1,
            r matches Err(e) ==> e == DecodeError::Truncated && *final(self) == *old(self),
    {
        if self.index < self.buffer.len() {
            let b = self.buffer[self.index];
            self.index = self.index + 1;
            Ok(b)
        } else {
            Err(DecodeError::Truncated)
        }
    }

    /// Read a 16-bit value, most significant byte first.
    pub fn read_u16(&mut self) -> (r: Result<u16, DecodeError>)
        requires
            old(self).wf(),
        ensures
            final(self).wf(),
            final(self).bytes() == old(self).bytes(),
            r is Ok <==> old(self).position() + 2 <= old(self).bytes().len(),
            r matches Ok(v) ==> final(self).position() == old(self).position() + 2 && u16_bytes(v) == old(self).bytes().subrange(old(self).position(), old(self).position() + 2),
            r is Err ==> r matches Err(DecodeError::Truncated),
    {
        let b0 = match self.pop() {
            Ok(b) => b,
            Err(e) => { return Err(e) },
        };
        let b1 = match self.pop() {
            Ok(b) => b,
            Err(e) => { return Err(e) },
        };
        let v: u16 = b0 as u16 * 256 + b1 as u16;
        proof {
            lemma_u16_bytes_of(b0, b1);
            assert(old(self).bytes().subrange(old(self).position(), old(self).position() + 2)
                =~= seq![b0, b1]);
        }
        Ok(v)
    }

    /// Read a 32-bit value, most significant byte first.
    pub fn read_u32(&mut self) -> (r: Result<u32, DecodeError>)
        requires
            old(self).wf(),
        ensures
            final(self).wf(),
            final(self).bytes() == old(self).bytes(),
            r is Ok <==> old(self).position() + 4 <= old(self).bytes().len(),
            r matches Ok(v) ==> final(self).position() == old(self).position() + 4 && u32_bytes(v) == old(self).bytes().subrange(old(self).position(), old(self).position() + 4),
            r is Err ==> r matches Err(DecodeError::Truncated),
    {
        let b0 = match self.pop() {
            Ok(b) => b,
            Err(e) => { return Err(e) },
        };
        let b1 = match self.pop() {
            Ok(b) => b,
            Err(e) => { return Err(e) },
        };
        let b2 = match self.pop() {
            Ok(b) => b,
            Err(e) => { return Err(e) },
        };
        let b3 = match self.pop() {
            Ok(b) => b,
            Err(e) => { return Err(e) },
        };
        let v: u32 = b0 as u32 * 0x1000000 + b1 as u32 * 0x10000 + b2 as u32 * 256 + b3 as u32;
        proof {
            lemma_u32_bytes_of(b0, b1, b2, b3);
            assert(old(self).bytes().subrange(old(self).position(), old(self).position() + 4)
                =~= seq![b0, b1, b2, b3]);
        }
        Ok(v)
    }

    /// Read `n` raw bytes.
    pub fn read_bytes(&mut self, n: usize) -> (r: Result<Vec<u8>, DecodeError>)
        requires
            old(self).wf(),
        ensures
            final(self).wf(),
            final(self).bytes() == old(self).bytes(),
            r is Ok <==> old(self).position() + n as int <= old(self).bytes().len(),
            r matches Ok(v) ==> final(self).position() == old(self).position() + n as int && v@
                == old(self).bytes().subrange(
                old(self).position(),
                old(self).position() + n as int,
            ),
            r matches Err(e) ==> e == DecodeError::Truncated && *final(self) == *old(self),
    {
        if n > self.buffer.len() - self.index {
            return Err(DecodeError::Truncated);
        }
        let mut out: Vec<u8> = Vec::new();
        let mut i: usize = 0;
        while i < n
            invariant
                self == old(self),
                self.wf(),
                i <= n,
                self.position() + n as int <= self.bytes().len(),
                out@ == self.bytes().subrange(self.position(), self.position() + i as int),
            decreases n - i,
        {
            let blen = self.buffer.len();
            proof {
                assert(self.index + i < blen);
            }
            out.push(self.buffer[self.index + i]);
            i = i + 1;
            proof {
                assert(out@ =~= self.bytes().subrange(
                    self.position(),
                    self.position() + i as int,
                ));
            }
        }
        self.index = self.index + n;
        Ok(out)
    }

    /// Read a length-prefixed character-string: one length byte, then that
    /// many raw bytes.
    pub fn read_character_data(&mut self) -> (r: Result<Vec<u8>, DecodeError>)
        requires
            old(self).wf(),
        ensures
            final(self).wf(),
            final(self).bytes() == old(self).bytes(),
            r is Ok <==> old(self).position() < old(self).bytes().len() && old(self).position()
                + 1 + old(self).bytes()[old(self).position()] as int <= old(self).bytes().len(),
            r matches Ok(v) ==> v@.len() <= 255 && char_string_bytes(v@) == old(
                self,
            ).bytes().subrange(
                old(self).position(),
                old(self).position() + 1 + v@.len() as int,
            ) && final(self).position() == old(self).position() + 1 + v@.len() as int,
            r is Err ==> r matches Err(DecodeError::Truncated),
    {
        let len = match self.pop() {
            Ok(b) => b,
            Err(e) => { return Err(e) },
        };
        let ghost mid = self.position();
        match self.read_bytes(len as usize) {
            Ok(v) => {
                proof {
                    assert(char_string_bytes(v@) =~= old(self).bytes().subrange(
                        old(self).position(),
                        old(self).position() + 1 + v@.len() as int,
                    ));
                }
                Ok(v)
            },
            Err(e) => Err(e),
        }
    }

    /// How many bytes are left to read.
    pub fn remaining(&self) -> (r: usize)
        requires
            self.wf(),
        ensures
            r as int == self.bytes().len() - self.position(),
    {
        self.buffer.len() - self.index
    }

    /// Whether the cursor has reached the end of the buffer.
    pub fn is_empty(&self) -> (r: bool)
        requires
            self.wf(),
        ensures
            r <==> self.position() == self.bytes().len(),
    {
        self.index == self.buffer.len()
    }
}

/// A write cursor: appends big-endian values to a growing output buffer.
pub struct BinEncoder {
    buffer: Vec<u8>,
}

impl BinEncoder {
    /// Everything written so far.
    pub closed spec fn bytes(&self) -> Seq<u8> {
        self.buffer@
    }

    pub fn new() -> (r: BinEncoder)
        ensures
            r.bytes() == Seq::<u8>::empty(),
    {
        let e = BinEncoder { buffer: Vec::new() };
        proof {
            assert(e.bytes() =~= Seq::<u8>::empty());
        }
        e
    }

    /// Append one byte.
    pub fn emit(&mut self, b: u8)
        ensures
            final(self).bytes() == old(self).bytes().push(b),
    {
        self.buffer.push(b);
    }

    /// Append a 16-bit value, most significant byte first.
    pub fn emit_u16(&mut self, v: u16)
        ensures
            final(self).bytes() == old(self).bytes() + u16_bytes(v),
    {
        self.emit((v / 256) as u8);
        self.emit((v % 256) as u8);
        proof {
            assert(self.bytes() =~= old(self).bytes() + u16_bytes(v));
        }
    }

    /// Append a 32-bit value, most significant byte first.
    pub fn emit_u32(&mut self, v: u32)
        ensures
            final(self).bytes() == old(self).bytes() + u32_bytes(v),
    {
        self.emit((v / 0x1000000) as u8);
        self.emit(((v / 0x10000) % 256) as u8);
        self.emit(((v / 256) % 256) as u8);
        self.emit((v % 256) as u8);
        proof {
            assert(self.bytes() =~= old(self).bytes() + u32_bytes(v));
        }
    }

    /// Append raw bytes.
    pub fn emit_bytes(&mut self, bytes: &Vec<u8>)
        ensures
            final(self).bytes() == old(self).bytes() + bytes@,
    {
        let mut i: usize = 0;
        while i < bytes.len()
            invariant
                i <= bytes.len(),
                self.bytes() == old(self).bytes() + bytes@.subrange(0, i as int),
            decreases bytes.len() - i,
        {
            self.emit(bytes[i]);
            i = i + 1;
            proof {
                assert(self.bytes() =~= old(self).bytes() + bytes@.subrange(0, i as int));
            }
        }
        proof {
            assert(bytes@.subrange(0, bytes@.len() as int) =~= bytes@);
        }
    }

    /// Append a character-string: a one-byte length prefix, then the bytes.
    /// Fails exactly when the string is longer than 255 bytes.
    pub fn emit_character_data(&mut self, s: &Vec<u8>) -> (r: Result<(), EncodeError>)
        ensures
            r is Ok <==> s@.len() <= 255,
            r is Ok ==> final(self).bytes() == old(self).bytes() + char_string_bytes(s@),
            r is Err ==> final(self).bytes() == old(self).bytes() && r matches Err(
                EncodeError::CharDataTooLong,
            ),
    {
        if s.len() > 255 {
            return Err(EncodeError::CharDataTooLong);
        }
        self.emit(s.len() as u8);
        self.emit_bytes(s);
        proof {
            assert(self.bytes() =~= old(self).bytes() + char_string_bytes(s@));
        }
        Ok(())
    }

    /// Hand out the finished buffer.
    pub fn into_bytes(self) -> (r: Vec<u8>)
        ensures
            r@ == self.bytes(),
    {
        self.buffer
    }

    /// How many bytes have been written.
    pub fn len(&self) -> (r: usize)
        ensures
            r as int == self.bytes().len(),
    {
        self.buffer.len()
    }
}

} // verus!
