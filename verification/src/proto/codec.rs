//! Little-endian cursors over a datagram.
//!
//! Every multi-byte field on the wire is little-endian. Decoding never panics
//! on short input: a truncated datagram is an error value, because anything
//! arriving on a UDP socket is attacker- or bug-controlled.
use vstd::prelude::*;

verus! {

/// Everything that can go wrong while reading or writing a frame.
#[derive(Debug, Clone, Copy, PartialEq, Eq)]
pub enum ProtoError {
    /// `need` more bytes were required at offset `at`.
    Truncated { at: usize, need: usize },
    UnknownFrame(u8),
    UnknownRecord(u8),
    InvalidValue { field: &'static str, value: u32 },
    VersionMismatch { got: u8, expected: u8 },
    TooLarge { size: usize, max: usize },
}

impl ProtoError {
    /// Shorthand for the common "this byte is not a valid X" case.
    pub fn invalid(field: &'static str, value: u32) -> (e: ProtoError)
        ensures
            e == (ProtoError::InvalidValue { field, value }),
    {
        ProtoError::InvalidValue { field, value }
    }
}

// ---------------------------------------------------------------------------
// Little-endian byte layouts
// ---------------------------------------------------------------------------

pub open spec fn le16(v: u16) -> Seq<u8> {
    seq![(v & 0xff) as u8, ((v >> 8u16) & 0xff) as u8]
}

pub open spec fn le32(v: u32) -> Seq<u8> {
    seq![
        (v & 0xff) as u8,
        ((v >> 8u32) & 0xff) as u8,
        ((v >> 16u32) & 0xff) as u8,
        ((v >> 24u32) & 0xff) as u8,
    ]
}

pub open spec fn le64(v: u64) -> Seq<u8> {
    seq![
        (v & 0xff) as u8,
        ((v >> 8u64) & 0xff) as u8,
        ((v >> 16u64) & 0xff) as u8,
        ((v >> 24u64) & 0xff) as u8,
        ((v >> 32u64) & 0xff) as u8,
        ((v >> 40u64) & 0xff) as u8,
        ((v >> 48u64) & 0xff) as u8,
        ((v >> 56u64) & 0xff) as u8,
    ]
}

pub open spec fn from_le16(b0: u8, b1: u8) -> u16 {
    (b0 as u16) | ((b1 as u16) << 8u16)
}

pub open spec fn from_le32(b0: u8, b1: u8, b2: u8, b3: u8) -> u32 {
    (b0 as u32) | ((b1 as u32) << 8u32) | ((b2 as u32) << 16u32) | ((b3 as u32) << 24u32)
}

pub open spec fn from_le64(b: Seq<u8>) -> u64 {
    (b[0] as u64) | ((b[1] as u64) << 8u64) | ((b[2] as u64) << 16u64) | ((b[3] as u64)
        << 24u64) | ((b[4] as u64) << 32u64) | ((b[5] as u64) << 40u64) | ((b[6] as u64)
        << 48u64) | ((b[7] as u64) << 56u64)
}

/// Little-endian bytes read back as the value written.
pub proof fn lemma_le16_roundtrip(v: u16)
    ensures
        from_le16(le16(v)[0], le16(v)[1]) == v,
{
    assert(((v & 0xff) as u8) as u16 | (((v >> 8u16) & 0xff) as u8 as u16) << 8u16 == v)
        by (bit_vector);
}

/// Little-endian bytes read back as the value written.
pub proof fn lemma_le32_roundtrip(v: u32)
    ensures
        from_le32(le32(v)[0], le32(v)[1], le32(v)[2], le32(v)[3]) == v,
{
    assert(((v & 0xff) as u8) as u32 | (((v >> 8u32) & 0xff) as u8 as u32) << 8u32 | (((v
        >> 16u32) & 0xff) as u8 as u32) << 16u32 | (((v >> 24u32) & 0xff) as u8 as u32)
        << 24u32 == v) by (bit_vector);
}

/// Little-endian bytes read back as the value written.
pub proof fn lemma_le64_roundtrip(v: u64)
    ensures
        from_le64(le64(v)) == v,
{
    let b = le64(v);
    assert(((v & 0xff) as u8) as u64 | (((v >> 8u64) & 0xff) as u8 as u64) << 8u64 | (((v
        >> 16u64) & 0xff) as u8 as u64) << 16u64 | (((v >> 24u64) & 0xff) as u8 as u64)
        << 24u64 | (((v >> 32u64) & 0xff) as u8 as u64) << 32u64 | (((v >> 40u64) & 0xff)
        as u8 as u64) << 40u64 | (((v >> 48u64) & 0xff) as u8 as u64) << 48u64 | (((v
        >> 56u64) & 0xff) as u8 as u64) << 56u64 == v) by (bit_vector);
}

// ---------------------------------------------------------------------------
// Reading
// ---------------------------------------------------------------------------

/// The error a read of `n` bytes at `pos` reports when `buf` is too short.
pub open spec fn truncated(buf: Seq<u8>, pos: int, n: int) -> ProtoError {
    ProtoError::Truncated { at: pos as usize, need: (n - (buf.len() - pos)) as usize }
}

/// Reading `n` bytes at `pos`: the position after them, or the truncation.
pub open spec fn spec_take(buf: Seq<u8>, pos: int, n: int) -> Result<int, ProtoError> {
    if buf.len() - pos < n {
        Err(truncated(buf, pos, n))
    } else {
        Ok(pos + n)
    }
}

pub open spec fn spec_u8(buf: Seq<u8>, pos: int) -> Result<(u8, int), ProtoError> {
    match spec_take(buf, pos, 1) {
        Ok(p) => Ok((buf[pos], p)),
        Err(e) => Err(e),
    }
}

pub open spec fn spec_u16(buf: Seq<u8>, pos: int) -> Result<(u16, int), ProtoError> {
    match spec_take(buf, pos, 2) {
        Ok(p) => Ok((from_le16(buf[pos], buf[pos + 1]), p)),
        Err(e) => Err(e),
    }
}

pub open spec fn spec_u32(buf: Seq<u8>, pos: int) -> Result<(u32, int), ProtoError> {
    match spec_take(buf, pos, 4) {
        Ok(p) => Ok((from_le32(buf[pos], buf[pos + 1], buf[pos + 2], buf[pos + 3]), p)),
        Err(e) => Err(e),
    }
}

pub open spec fn spec_u64(buf: Seq<u8>, pos: int) -> Result<(u64, int), ProtoError> {
    match spec_take(buf, pos, 8) {
        Ok(p) => Ok((from_le64(buf.subrange(pos, pos + 8)), p)),
        Err(e) => Err(e),
    }
}

/// A cursor over a borrowed datagram.
pub struct Reader<'a> {
    buf: &'a [u8],
    pos: usize,
}

impl<'a> View for Reader<'a> {
    /// The bytes, and the offset of the next unread one.
    type V = (Seq<u8>, int);

    closed spec fn view(&self) -> (Seq<u8>, int) {
        (self.buf@, self.pos as int)
    }
}

impl<'a> Reader<'a> {
    #[verifier::type_invariant]
    spec fn inv(&self) -> bool {
        self.pos <= self.buf@.len()
    }

    pub fn new(buf: &'a [u8]) -> (r: Self)
        ensures
            r@ == (buf@, 0int),
    {
        Reader { buf, pos: 0 }
    }

    pub fn remaining(&self) -> (n: usize)
        ensures
            0 <= self@.1 <= self@.0.len(),
            n == self@.0.len() - self@.1,
    {
        proof {
            use_type_invariant(self);
        }
        self.buf.len() - self.pos
    }

    /// The next unread byte, if any, without reading it.
    pub fn peek(&self) -> (b: Option<u8>)
        ensures
            0 <= self@.1 <= self@.0.len(),
            b == if self@.1 < self@.0.len() {
                Some(self@.0[self@.1])
            } else {
                None::<u8>
            },
    {
        proof {
            use_type_invariant(self);
        }
        if self.pos < self.buf.len() {
            Some(self.buf[self.pos])
        } else {
            None
        }
    }

    fn take(&mut self, n: usize) -> (res: Result<&'a [u8], ProtoError>)
        ensures
            final(self)@.0 == old(self)@.0,
            0 <= old(self)@.1 <= old(self)@.0.len(),
            0 <= final(self)@.1 <= final(self)@.0.len(),
            match spec_take(old(self)@.0, old(self)@.1, n as int) {
                Ok(p) => res matches Ok(out) && out@ == old(self)@.0.subrange(old(self)@.1, p)
                    && final(self)@.1 == p,
                Err(e) => res == Err::<&'a [u8], ProtoError>(e) && final(self)@ == old(self)@,
            },
    {
        proof {
            use_type_invariant(&*self);
        }
        let remaining = self.buf.len() - self.pos;
        if remaining < n {
            return Err(ProtoError::Truncated { at: self.pos, need: n - remaining });
        }
        let out = vstd::slice::slice_subrange(self.buf, self.pos, self.pos + n);
        self.pos = self.pos + n;
        Ok(out)
    }

    pub fn u8(&mut self) -> (res: Result<u8, ProtoError>)
        ensures
            final(self)@.0 == old(self)@.0,
            0 <= old(self)@.1 <= old(self)@.0.len(),
            0 <= final(self)@.1 <= final(self)@.0.len(),
            match spec_u8(old(self)@.0, old(self)@.1) {
                Ok((v, p)) => res == Ok::<u8, ProtoError>(v) && final(self)@.1 == p,
                Err(e) => res == Err::<u8, ProtoError>(e) && final(self)@ == old(self)@,
            },
    {
        proof {
            use_type_invariant(&*self);
        }
        let b = self.take(1)?;
        Ok(b[0])
    }

    pub fn u16(&mut self) -> (res: Result<u16, ProtoError>)
        ensures
            final(self)@.0 == old(self)@.0,
            0 <= old(self)@.1 <= old(self)@.0.len(),
            0 <= final(self)@.1 <= final(self)@.0.len(),
            match spec_u16(old(self)@.0, old(self)@.1) {
                Ok((v, p)) => res == Ok::<u16, ProtoError>(v) && final(self)@.1 == p,
                Err(e) => res == Err::<u16, ProtoError>(e) && final(self)@ == old(self)@,
            },
    {
        proof {
            use_type_invariant(&*self);
        }
        let b = self.take(2)?;
        Ok((b[0] as u16) | ((b[1] as u16) << 8u16))
    }

    pub fn u32(&mut self) -> (res: Result<u32, ProtoError>)
        ensures
            final(self)@.0 == old(self)@.0,
            0 <= old(self)@.1 <= old(self)@.0.len(),
            0 <= final(self)@.1 <= final(self)@.0.len(),
            match spec_u32(old(self)@.0, old(self)@.1) {
                Ok((v, p)) => res == Ok::<u32, ProtoError>(v) && final(self)@.1 == p,
                Err(e) => res == Err::<u32, ProtoError>(e) && final(self)@ == old(self)@,
            },
    {
        proof {
            use_type_invariant(&*self);
        }
        let b = self.take(4)?;
        Ok((b[0] as u32) | ((b[1] as u32) << 8u32) | ((b[2] as u32) << 16u32) | ((b[3] as u32)
            << 24u32))
    }

    pub fn u64(&mut self) -> (res: Result<u64, ProtoError>)
        ensures
            final(self)@.0 == old(self)@.0,
            0 <= old(self)@.1 <= old(self)@.0.len(),
            0 <= final(self)@.1 <= final(self)@.0.len(),
            match spec_u64(old(self)@.0, old(self)@.1) {
                Ok((v, p)) => res == Ok::<u64, ProtoError>(v) && final(self)@.1 == p,
                Err(e) => res == Err::<u64, ProtoError>(e) && final(self)@ == old(self)@,
            },
    {
        proof {
            use_type_invariant(&*self);
        }
        let b = self.take(8)?;
        let v = (b[0] as u64) | ((b[1] as u64) << 8u64) | ((b[2] as u64) << 16u64) | ((b[3]
            as u64) << 24u64) | ((b[4] as u64) << 32u64) | ((b[5] as u64) << 40u64) | ((b[6]
            as u64) << 48u64) | ((b[7] as u64) << 56u64);
        assert(b@ =~= old(self)@.0.subrange(old(self)@.1, old(self)@.1 + 8));
        Ok(v)
    }

    pub fn bytes(&mut self, n: usize) -> (res: Result<&'a [u8], ProtoError>)
        ensures
            final(self)@.0 == old(self)@.0,
            0 <= old(self)@.1 <= old(self)@.0.len(),
            0 <= final(self)@.1 <= final(self)@.0.len(),
            match spec_take(old(self)@.0, old(self)@.1, n as int) {
                Ok(p) => res matches Ok(out) && out@ == old(self)@.0.subrange(old(self)@.1, p)
                    && final(self)@.1 == p,
                Err(e) => res == Err::<&'a [u8], ProtoError>(e) && final(self)@ == old(self)@,
            },
    {
        proof {
            use_type_invariant(&*self);
        }
        self.take(n)
    }
}

// ---------------------------------------------------------------------------
// Writing
// ---------------------------------------------------------------------------

/// A growing output buffer.
pub struct Writer {
    buf: Vec<u8>,
}

impl View for Writer {
    type V = Seq<u8>;

    closed spec fn view(&self) -> Seq<u8> {
        self.buf@
    }
}

impl Default for Writer {
    fn default() -> (w: Self)
        ensures
            w@ == Seq::<u8>::empty(),
    {
        Writer { buf: Vec::new() }
    }
}

impl Writer {
    pub fn new() -> (w: Self)
        ensures
            w@ == Seq::<u8>::empty(),
    {
        Writer { buf: Vec::new() }
    }

    pub fn u8(&mut self, v: u8) -> (r: &mut Self)
        ensures
            r@ == old(self)@.push(v),
            final(self)@ == final(r)@,
    {
        self.buf.push(v);
        self
    }

    pub fn u16(&mut self, v: u16) -> (r: &mut Self)
        ensures
            r@ == old(self)@ + le16(v),
            final(self)@ == final(r)@,
    {
        self.buf.push((v & 0xff) as u8);
        self.buf.push(((v >> 8u16) & 0xff) as u8);
        assert(self@ =~= old(self)@ + le16(v));
        self
    }

    pub fn u32(&mut self, v: u32) -> (r: &mut Self)
        ensures
            r@ == old(self)@ + le32(v),
            final(self)@ == final(r)@,
    {
        self.buf.push((v & 0xff) as u8);
        self.buf.push(((v >> 8u32) & 0xff) as u8);
        self.buf.push(((v >> 16u32) & 0xff) as u8);
        self.buf.push(((v >> 24u32) & 0xff) as u8);
        assert(self@ =~= old(self)@ + le32(v));
        self
    }

    pub fn u64(&mut self, v: u64) -> (r: &mut Self)
        ensures
            r@ == old(self)@ + le64(v),
            final(self)@ == final(r)@,
    {
        self.buf.push((v & 0xff) as u8);
        self.buf.push(((v >> 8u64) & 0xff) as u8);
        self.buf.push(((v >> 16u64) & 0xff) as u8);
        self.buf.push(((v >> 24u64) & 0xff) as u8);
        self.buf.push(((v >> 32u64) & 0xff) as u8);
        self.buf.push(((v >> 40u64) & 0xff) as u8);
        self.buf.push(((v >> 48u64) & 0xff) as u8);
        self.buf.push(((v >> 56u64) & 0xff) as u8);
        assert(self@ =~= old(self)@ + le64(v));
        self
    }

    pub fn bytes(&mut self, v: &[u8]) -> (r: &mut Self)
        ensures
            r@ == old(self)@ + v@,
            final(self)@ == final(r)@,
    {
        let mut i: usize = 0;
        while i < v.len()
            invariant
                i <= v@.len(),
                self@ == old(self)@ + v@.subrange(0, i as int),
            decreases v@.len() - i,
        {
            self.buf.push(v[i]);
            i = i + 1;
            assert(self@ =~= old(self)@ + v@.subrange(0, i as int));
        }
        assert(v@.subrange(0, v@.len() as int) =~= v@);
        self
    }

    /// Patch a length written earlier as a placeholder.
    pub fn patch_u16(&mut self, at: usize, v: u16)
        requires
            at + 2 <= old(self)@.len(),
        ensures
            final(self)@ == old(self)@.update(at as int, le16(v)[0]).update(
                at as int + 1,
                le16(v)[1],
            ),
    {
        let _n = self.buf.len();
        self.buf.set(at, (v & 0xff) as u8);
        self.buf.set(at + 1, ((v >> 8u16) & 0xff) as u8);
    }

    pub fn len(&self) -> (n: usize)
        ensures
            n == self@.len(),
    {
        self.buf.len()
    }

    pub fn is_empty(&self) -> (b: bool)
        ensures
            b == (self@.len() == 0),
    {
        self.buf.len() == 0
    }

    pub fn finish(self) -> (out: Vec<u8>)
        ensures
            out@ == self@,
    {
        self.buf
    }
}

} // verus!
