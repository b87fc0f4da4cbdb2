//! A byte buffer with a read cursor, and the integer encodings used on the wire.
use vstd::prelude::*;
use vstd::utf8::{decode_utf8, encode_utf8, valid_utf8};
use crate::text::{decimal, decimal_string};

verus! {

// ---------------------------------------------------------------------------
// Integer encodings
// ---------------------------------------------------------------------------

/// Little-endian bytes of a 16-bit value.
pub open spec fn u16_le(v: u16) -> Seq<u8> {
    seq![(v & 0xff) as u8, ((v >> 8u16) & 0xff) as u8]
}

/// Big-endian bytes of a 16-bit value.
pub open spec fn u16_be(v: u16) -> Seq<u8> {
    seq![((v >> 8u16) & 0xff) as u8, (v & 0xff) as u8]
}

/// Little-endian bytes of the low 24 bits of a value.
pub open spec fn u24_le(v: u32) -> Seq<u8> {
    seq![(v & 0xff) as u8, ((v >> 8u32) & 0xff) as u8, ((v >> 16u32) & 0xff) as u8]
}

/// Little-endian bytes of a 32-bit value.
pub open spec fn u32_le(v: u32) -> Seq<u8> {
    seq![
        (v & 0xff) as u8,
        ((v >> 8u32) & 0xff) as u8,
        ((v >> 16u32) & 0xff) as u8,
        ((v >> 24u32) & 0xff) as u8,
    ]
}

/// Big-endian bytes of a 32-bit value.
pub open spec fn u32_be(v: u32) -> Seq<u8> {
    seq![
        ((v >> 24u32) & 0xff) as u8,
        ((v >> 16u32) & 0xff) as u8,
        ((v >> 8u32) & 0xff) as u8,
        (v & 0xff) as u8,
    ]
}

/// Little-endian bytes of a 64-bit value.
pub open spec fn u64_le(v: u64) -> Seq<u8> {
    seq![
        (v & 0xff) as u8,
        ((v >> 8u64) & 0xff) as u8,
        ((v >> 16u64) & 0xff) as u8,
        ((v >> 24u64) & 0xff) as u8,
        ((v >> 32u64) & 0xff) as u8,
        ((v >> 40u64) & 0xff) as u8,
        ((v >> 48u64) & 0xff) as u8,
        ((v >> 56u64) & 0xff) as u8,
    ]
}

/// Big-endian bytes of a 64-bit value.
pub open spec fn u64_be(v: u64) -> Seq<u8> {
    seq![
        ((v >> 56u64) & 0xff) as u8,
        ((v >> 48u64) & 0xff) as u8,
        ((v >> 40u64) & 0xff) as u8,
        ((v >> 32u64) & 0xff) as u8,
        ((v >> 24u64) & 0xff) as u8,
        ((v >> 16u64) & 0xff) as u8,
        ((v >> 8u64) & 0xff) as u8,
        (v & 0xff) as u8,
    ]
}

/// The 16-bit value of the first two bytes, little-endian.
pub open spec fn le_u16(b: Seq<u8>) -> u16 {
    (b[0] as u16) | ((b[1] as u16) << 8u16)
}

/// The 16-bit value of the first two bytes, big-endian.
pub open spec fn be_u16(b: Seq<u8>) -> u16 {
    ((b[0] as u16) << 8u16) | (b[1] as u16)
}

/// The 24-bit value of the first three bytes, little-endian.
pub open spec fn le_u24(b: Seq<u8>) -> u32 {
    (b[0] as u32) | ((b[1] as u32) << 8u32) | ((b[2] as u32) << 16u32)
}

/// The 32-bit value of the first four bytes, little-endian.
pub open spec fn le_u32(b: Seq<u8>) -> u32 {
    (b[0] as u32) | ((b[1] as u32) << 8u32) | ((b[2] as u32) << 16u32) | ((b[3] as u32)
        << 24u32)
}

/// The 32-bit value of the first four bytes, big-endian.
pub open spec fn be_u32(b: Seq<u8>) -> u32 {
    ((b[0] as u32) << 24u32) | ((b[1] as u32) << 16u32) | ((b[2] as u32) << 8u32) | (b[3] as u32)
}

/// The 64-bit value of the first eight bytes, little-endian.
pub open spec fn le_u64(b: Seq<u8>) -> u64 {
    (b[0] as u64) | ((b[1] as u64) << 8u64) | ((b[2] as u64) << 16u64) | ((b[3] as u64)
        << 24u64) | ((b[4] as u64) << 32u64) | ((b[5] as u64) << 40u64) | ((b[6] as u64)
        << 48u64) | ((b[7] as u64) << 56u64)
}

/// The 64-bit value of the first eight bytes, big-endian.
pub open spec fn be_u64(b: Seq<u8>) -> u64 {
    ((b[0] as u64) << 56u64) | ((b[1] as u64) << 48u64) | ((b[2] as u64) << 40u64) | ((
    b[3] as u64) << 32u64) | ((b[4] as u64) << 24u64) | ((b[5] as u64) << 16u64) | ((b[6] as u64)
        << 8u64) | (b[7] as u64)
}

pub proof fn lemma_u16_le(v: u16)
    ensures
        u16_le(v).len() == 2,
        le_u16(u16_le(v)) == v,
{
    assert(((((v & 0xff) as u8) as u16) | ((((v >> 8u16) & 0xff) as u8) as u16) << 8u16) == v)
        by (bit_vector);
}

pub proof fn lemma_u16_be(v: u16)
    ensures
        u16_be(v).len() == 2,
        be_u16(u16_be(v)) == v,
{
    assert((((((v >> 8u16) & 0xff) as u8) as u16) << 8u16) | (((v & 0xff) as u8) as u16) == v)
        by (bit_vector);
}

pub proof fn lemma_u24_le(v: u32)
    requires
        v < 0x100_0000,
    ensures
        u24_le(v).len() == 3,
        le_u24(u24_le(v)) == v,
{
    assert(v < 0x100_0000 ==> ((((v & 0xff) as u8) as u32) | ((((v >> 8u32) & 0xff) as u8) as u32)
        << 8u32 | ((((v >> 16u32) & 0xff) as u8) as u32) << 16u32) == v) by (bit_vector);
}

/// A 24-bit value is below 2^24.
pub proof fn lemma_le_u24_bound(b: Seq<u8>)
    requires
        b.len() >= 3,
    ensures
        le_u24(b) < 0x100_0000,
{
    let b0 = b[0];
    let b1 = b[1];
    let b2 = b[2];
    assert((b0 as u32) | ((b1 as u32) << 8u32) | ((b2 as u32) << 16u32) < 0x100_0000)
        by (bit_vector);
}

pub proof fn lemma_u32_le(v: u32)
    ensures
        u32_le(v).len() == 4,
        le_u32(u32_le(v)) == v,
{
    assert(((((v & 0xff) as u8) as u32) | ((((v >> 8u32) & 0xff) as u8) as u32) << 8u32
        | ((((v >> 16u32) & 0xff) as u8) as u32) << 16u32 | ((((v >> 24u32) & 0xff) as u8) as u32)
        << 24u32) == v) by (bit_vector);
}

pub proof fn lemma_u32_be(v: u32)
    ensures
        u32_be(v).len() == 4,
        be_u32(u32_be(v)) == v,
{
    assert((((((v >> 24u32) & 0xff) as u8) as u32) << 24u32 | ((((v >> 16u32) & 0xff) as u8) as u32)
        << 16u32 | ((((v >> 8u32) & 0xff) as u8) as u32) << 8u32 | (((v & 0xff) as u8) as u32))
        == v) by (bit_vector);
}

pub proof fn lemma_u64_le(v: u64)
    ensures
        u64_le(v).len() == 8,
        le_u64(u64_le(v)) == v,
{
    assert(((((v & 0xff) as u8) as u64) | ((((v >> 8u64) & 0xff) as u8) as u64) << 8u64
        | ((((v >> 16u64) & 0xff) as u8) as u64) << 16u64 | ((((v >> 24u64) & 0xff) as u8) as u64)
        << 24u64 | ((((v >> 32u64) & 0xff) as u8) as u64) << 32u64 | ((((v >> 40u64) & 0xff) as u8)
        as u64) << 40u64 | ((((v >> 48u64) & 0xff) as u8) as u64) << 48u64 | ((((v >> 56u64)
        & 0xff) as u8) as u64) << 56u64) == v) by (bit_vector);
}

pub proof fn lemma_u64_be(v: u64)
    ensures
        u64_be(v).len() == 8,
        be_u64(u64_be(v)) == v,
{
    assert((((((v >> 56u64) & 0xff) as u8) as u64) << 56u64 | ((((v >> 48u64) & 0xff) as u8) as u64)
        << 48u64 | ((((v >> 40u64) & 0xff) as u8) as u64) << 40u64 | ((((v >> 32u64) & 0xff) as u8)
        as u64) << 32u64 | ((((v >> 24u64) & 0xff) as u8) as u64) << 24u64 | ((((v >> 16u64) & 0xff)
        as u8) as u64) << 16u64 | ((((v >> 8u64) & 0xff) as u8) as u64) << 8u64 | (((v & 0xff) as u8)
        as u64)) == v) by (bit_vector);
}


// ---------------------------------------------------------------------------
// The stream
// ---------------------------------------------------------------------------

/// Why a read from a [`BinaryStream`] failed.
#[derive(Debug, Clone, PartialEq, Eq)]
pub enum BinaryUtilError {
    /// Fewer bytes are left than the read needs.
    NotEnoughData { needed: usize, have: usize },
    /// The bytes are there but do not form a valid value.
    InvalidData(String),
}

/// Calls std's `String::from_utf8`. Its documentation says the bytes become a `String`
/// exactly when they are valid UTF-8; the string then holds the characters they encode.
#[verifier::external_body]
pub(crate) fn string_from_utf8(bytes: Vec<u8>) -> (r: Option<String>)
    ensures
        r is Some <==> valid_utf8(bytes@),
        r matches Some(s) ==> s@ == decode_utf8(bytes@),
{
    String::from_utf8(bytes).ok()
}

/// The text of a read error: how many bytes were needed and how many were left, or what
/// was invalid.
pub open spec fn error_text(e: BinaryUtilError) -> Seq<char> {
    match e {
        BinaryUtilError::NotEnoughData { needed, have } => "Not enough data: needed "@ + decimal(
            needed as nat,
        ) + " bytes, have "@ + decimal(have as nat),
        BinaryUtilError::InvalidData(m) => m@,
    }
}

impl BinaryUtilError {
    /// The error's text; see `error_text`.
    pub fn to_string(&self) -> (r: String)
        ensures
            r@ == error_text(*self),
    {
        match self {
            BinaryUtilError::NotEnoughData { needed, have } => {
                let mut text = "Not enough data: needed ".to_owned();
                text.append(decimal_string(*needed as u64).as_str());
                text.append(" bytes, have ");
                text.append(decimal_string(*have as u64).as_str());
                text
            },
            BinaryUtilError::InvalidData(m) => m.clone(),
        }
    }

    /// The error says the bytes ran out.
    pub open spec fn is_short(&self) -> bool {
        self is NotEnoughData
    }

    /// Whether the error says the bytes ran out.
    pub fn is_not_enough_data(&self) -> (r: bool)
        ensures
            r == self.is_short(),
    {
        match self {
            BinaryUtilError::NotEnoughData { .. } => true,
            BinaryUtilError::InvalidData(_) => false,
        }
    }
}

/// Reads a string as this protocol writes it: a big-endian 16-bit byte length, then that
/// many UTF-8 bytes. An error says whether the bytes ran out (`true`) or were not UTF-8.
pub open spec fn parse_str16(s: Seq<u8>) -> Result<(Seq<char>, nat), bool> {
    if s.len() < 2 {
        Err(true)
    } else if s.len() < 2 + be_u16(s) {
        Err(true)
    } else if valid_utf8(s.subrange(2, 2 + be_u16(s))) {
        Ok((decode_utf8(s.subrange(2, 2 + be_u16(s))), (2 + be_u16(s)) as nat))
    } else {
        Err(false)
    }
}

/// A string as this protocol writes it.
pub open spec fn enc_str16(s: Seq<char>) -> Seq<u8> {
    u16_be(encode_utf8(s).len() as u16) + encode_utf8(s)
}

/// A byte-vector result taken by its contents.
pub open spec fn bytes_result(r: Result<Vec<u8>, BinaryUtilError>) -> Result<Seq<u8>, BinaryUtilError> {
    match r {
        Ok(v) => Ok(v@),
        Err(e) => Err(e),
    }
}

/// A growable byte buffer with a read offset.
pub struct BinaryStream {
    buffer: Vec<u8>,
    offset: usize,
}

impl BinaryStream {
    /// All bytes held by the stream.
    pub closed spec fn data(&self) -> Seq<u8> {
        self.buffer@
    }

    /// The read offset. It never lies past the end of the bytes.
    pub closed spec fn pos(&self) -> nat {
        if self.offset <= self.buffer@.len() {
            self.offset as nat
        } else {
            self.buffer@.len()
        }
    }

    /// The read offset lies within the bytes.
    pub proof fn lemma_pos(&self)
        ensures
            self.pos() <= self.data().len(),
    {
    }

    /// The bytes from the read offset to the end.
    pub open spec fn remaining(&self) -> Seq<u8> {
        self.data().subrange(self.pos() as int, self.data().len() as int)
    }

    /// The read offset, never past the end.
    fn cursor(&self) -> (r: usize)
        ensures
            r == self.pos(),
            r <= self.buffer@.len(),
            self.buffer@.len() <= usize::MAX,
    {
        let len = self.buffer.len();
        if self.offset <= len {
            self.offset
        } else {
            len
        }
    }

    /// After a stream advances by `n`, the bytes left are the old ones less the first `n`.
    pub proof fn lemma_advanced(before: Self, after: Self, n: nat)
        requires
            Self::advanced(before, after, n),
        ensures
            n <= before.remaining().len(),
            after.remaining() == before.remaining().skip(n as int),
    {
        after.lemma_pos();
        assert(after.remaining() =~= before.remaining().skip(n as int));
    }

    /// A stream that reads `before`'s bytes, advanced by `n`, with nothing else changed.
    pub open spec fn advanced(before: Self, after: Self, n: nat) -> bool {
        &&& after.data() == before.data()
        &&& after.pos() == before.pos() + n
    }

    /// The outcome of a read of `n` bytes whose value is `ok_val` when they are there.
    pub open spec fn read_outcome<T>(
        before: Self,
        after: Self,
        n: nat,
        r: Result<T, BinaryUtilError>,
        ok_val: T,
    ) -> bool {
        if before.remaining().len() >= n {
            r == Ok::<T, BinaryUtilError>(ok_val) && Self::advanced(before, after, n)
        } else {
            r == Err::<T, BinaryUtilError>(
                BinaryUtilError::NotEnoughData {
                    needed: n as usize,
                    have: before.remaining().len() as usize,
                },
            ) && after == before
        }
    }

    pub fn new() -> (r: Self)
        ensures
            r.data() == Seq::<u8>::empty(),
            r.pos() == 0,
    {
        BinaryStream { buffer: Vec::new(), offset: 0 }
    }

    pub fn from_vec(buffer: Vec<u8>) -> (r: Self)
        ensures
            r.data() == buffer@,
            r.pos() == 0,
    {
        BinaryStream { buffer, offset: 0 }
    }

    pub fn from_slice(buffer: &[u8]) -> (r: Self)
        ensures
            r.data() == buffer@,
            r.pos() == 0,
    {
        BinaryStream { buffer: vstd::slice::slice_to_vec(buffer), offset: 0 }
    }

    pub fn get_buffer(&self) -> (r: &[u8])
        ensures
            r@ == self.data(),
    {
        self.buffer.as_slice()
    }

    pub fn into_inner(self) -> (r: Vec<u8>)
        ensures
            r@ == self.data(),
    {
        self.buffer
    }

    pub fn len(&self) -> (r: usize)
        ensures
            r == self.data().len(),
    {
        self.buffer.len()
    }

    pub fn get_offset(&self) -> (r: usize)
        ensures
            r == self.pos(),
    {
        self.cursor()
    }

    /// The number of bytes left to read.
    pub fn remaining_len(&self) -> (r: usize)
        ensures
            r == self.remaining().len(),
    {
        self.buffer.len() - self.cursor()
    }

    /// Moves the read offset back to the start.
    pub fn rewind(&mut self)
        ensures
            final(self).data() == old(self).data(),
            final(self).pos() == 0,
    {
        self.offset = 0;
    }

    /// Whether every byte has been read.
    pub fn feof(&self) -> (r: bool)
        ensures
            r == (self.pos() >= self.data().len()),
    {
        self.cursor() >= self.buffer.len()
    }

    /// Reads the next `n` bytes.
    pub fn get(&mut self, n: usize) -> (r: Result<Vec<u8>, BinaryUtilError>)
        ensures
            Self::read_outcome(
                *old(self),
                *final(self),
                n as nat,
                bytes_result(r),
                old(self).remaining().take(n as int),
            ),
    {
        if !self.can_read(n) {
            return Err(self.short_error(n));
        }
        let mut out: Vec<u8> = Vec::with_capacity(n);
        let start = self.cursor();
        let mut i: usize = 0;
        while i < n
            invariant
                i <= n,
                start + n <= self.buffer@.len(),
                self.buffer@.len() <= usize::MAX,
                out@ == self.buffer@.subrange(start as int, start + i),
            decreases n - i,
        {
            out.push(self.buffer[start + i]);
            i = i + 1;
        }
        self.offset = start + n;
        proof {
            assert(out@ =~= old(self).remaining().take(n as int));
        }
        Ok(out)
    }

    /// Reads every byte left.
    pub fn get_remaining(&mut self) -> (r: Result<Vec<u8>, BinaryUtilError>)
        ensures
            r matches Ok(v) && v@ == old(self).remaining(),
            final(self).pos() == old(self).data().len(),
            final(self).data() == old(self).data(),
    {
        let n = self.remaining_len();
        let r = self.get(n);
        proof {
            assert(old(self).remaining().take(n as int) =~= old(self).remaining());
        }
        r
    }

    pub fn get_u8(&mut self) -> (r: Result<u8, BinaryUtilError>)
        ensures
            Self::read_outcome(*old(self), *final(self), 1, r, old(self).remaining()[0]),
    {
        if !self.can_read(1) {
            return Err(self.short_error(1));
        }
        let at = self.cursor();
        let b = self.buffer[at];
        self.offset = at + 1;
        Ok(b)
    }

    pub fn get_byte(&mut self) -> (r: Result<u8, BinaryUtilError>)
        ensures
            Self::read_outcome(*old(self), *final(self), 1, r, old(self).remaining()[0]),
    {
        self.get_u8()
    }

    pub fn get_signed_byte(&mut self) -> (r: Result<i8, BinaryUtilError>)
        ensures
            Self::read_outcome(*old(self), *final(self), 1, r, old(self).remaining()[0] as i8),
    {
        match self.get_u8() {
            Ok(b) => Ok(b as i8),
            Err(e) => Err(e),
        }
    }

    /// Whether the next `n` bytes can be read.
    fn can_read(&self, n: usize) -> (r: bool)
        ensures
            r == (self.remaining().len() >= n),
            r ==> self.pos() + n <= self.buffer@.len(),
            self.buffer@.len() <= usize::MAX,
    {
        self.buffer.len() - self.cursor() >= n
    }

    /// Reads `n` bytes without copying them out, when they are there.
    fn take_n(&mut self, n: usize) -> (r: Option<usize>)
        ensures
            old(self).remaining().len() >= n
                ==> r == Some(old(self).pos() as usize) && Self::advanced(
                *old(self),
                *final(self),
                n as nat,
            ) && old(self).pos() + n <= old(self).data().len(),
            old(self).remaining().len() < n
                ==> r is None && *final(self) == *old(self),
    {
        if !self.can_read(n) {
            None
        } else {
            let start = self.cursor();
            self.offset = start + n;
            Some(start)
        }
    }

    fn short_error(&self, n: usize) -> (r: BinaryUtilError)
        ensures
            r == (BinaryUtilError::NotEnoughData {
                needed: n,
                have: self.remaining().len() as usize,
            }),
    {
        BinaryUtilError::NotEnoughData { needed: n, have: self.remaining_len() }
    }

    pub fn get_u16_le(&mut self) -> (r: Result<u16, BinaryUtilError>)
        ensures
            Self::read_outcome(*old(self), *final(self), 2, r, le_u16(old(self).remaining())),
    {
        match self.take_n(2) {
            None => Err(self.short_error(2)),
            Some(s) => Ok((self.buffer[s] as u16) | ((self.buffer[s + 1] as u16) << 8u16)),
        }
    }

    pub fn get_u16_be(&mut self) -> (r: Result<u16, BinaryUtilError>)
        ensures
            Self::read_outcome(*old(self), *final(self), 2, r, be_u16(old(self).remaining())),
    {
        match self.take_n(2) {
            None => Err(self.short_error(2)),
            Some(s) => Ok(((self.buffer[s] as u16) << 8u16) | (self.buffer[s + 1] as u16)),
        }
    }

    /// Reads a signed little-endian 16-bit value.
    pub fn get_signed_lshort(&mut self) -> (r: Result<i16, BinaryUtilError>)
        ensures
            Self::read_outcome(
                *old(self),
                *final(self),
                2,
                r,
                le_u16(old(self).remaining()) as i16,
            ),
    {
        match self.get_u16_le() {
            Ok(v) => Ok(v as i16),
            Err(e) => Err(e),
        }
    }

    pub fn get_u24_le(&mut self) -> (r: Result<u32, BinaryUtilError>)
        ensures
            Self::read_outcome(*old(self), *final(self), 3, r, le_u24(old(self).remaining())),
    {
        match self.take_n(3) {
            None => Err(self.short_error(3)),
            Some(s) => Ok((self.buffer[s] as u32) | ((self.buffer[s + 1] as u32) << 8u32) | ((
            self.buffer[s + 2] as u32) << 16u32)),
        }
    }

    pub fn get_u32_le(&mut self) -> (r: Result<u32, BinaryUtilError>)
        ensures
            Self::read_outcome(*old(self), *final(self), 4, r, le_u32(old(self).remaining())),
    {
        match self.take_n(4) {
            None => Err(self.short_error(4)),
            Some(s) => Ok((self.buffer[s] as u32) | ((self.buffer[s + 1] as u32) << 8u32) | ((
            self.buffer[s + 2] as u32) << 16u32) | ((self.buffer[s + 3] as u32) << 24u32)),
        }
    }

    pub fn get_u32_be(&mut self) -> (r: Result<u32, BinaryUtilError>)
        ensures
            Self::read_outcome(*old(self), *final(self), 4, r, be_u32(old(self).remaining())),
    {
        match self.take_n(4) {
            None => Err(self.short_error(4)),
            Some(s) => Ok(((self.buffer[s] as u32) << 24u32) | ((self.buffer[s + 1] as u32)
                << 16u32) | ((self.buffer[s + 2] as u32) << 8u32) | (self.buffer[s + 3] as u32)),
        }
    }

    /// Reads a signed little-endian 32-bit value.
    pub fn get_lint(&mut self) -> (r: Result<i32, BinaryUtilError>)
        ensures
            Self::read_outcome(
                *old(self),
                *final(self),
                4,
                r,
                le_u32(old(self).remaining()) as i32,
            ),
    {
        match self.get_u32_le() {
            Ok(v) => Ok(v as i32),
            Err(e) => Err(e),
        }
    }

    pub fn get_u64_le(&mut self) -> (r: Result<u64, BinaryUtilError>)
        ensures
            Self::read_outcome(*old(self), *final(self), 8, r, le_u64(old(self).remaining())),
    {
        match self.take_n(8) {
            None => Err(self.short_error(8)),
            Some(s) => {
                let b = &self.buffer;
                Ok((b[s] as u64) | ((b[s + 1] as u64) << 8u64) | ((b[s + 2] as u64) << 16u64) | ((
                b[s + 3] as u64) << 24u64) | ((b[s + 4] as u64) << 32u64) | ((b[s + 5] as u64)
                    << 40u64) | ((b[s + 6] as u64) << 48u64) | ((b[s + 7] as u64) << 56u64))
            },
        }
    }

    pub fn get_u64_be(&mut self) -> (r: Result<u64, BinaryUtilError>)
        ensures
            Self::read_outcome(*old(self), *final(self), 8, r, be_u64(old(self).remaining())),
    {
        match self.take_n(8) {
            None => Err(self.short_error(8)),
            Some(s) => {
                let b = &self.buffer;
                Ok(((b[s] as u64) << 56u64) | ((b[s + 1] as u64) << 48u64) | ((b[s + 2] as u64)
                    << 40u64) | ((b[s + 3] as u64) << 32u64) | ((b[s + 4] as u64) << 24u64) | ((
                b[s + 5] as u64) << 16u64) | ((b[s + 6] as u64) << 8u64) | (b[s + 7] as u64))
            },
        }
    }

    /// Reads a signed little-endian 64-bit value.
    pub fn get_llong(&mut self) -> (r: Result<i64, BinaryUtilError>)
        ensures
            Self::read_outcome(
                *old(self),
                *final(self),
                8,
                r,
                le_u64(old(self).remaining()) as i64,
            ),
    {
        match self.get_u64_le() {
            Ok(v) => Ok(v as i64),
            Err(e) => Err(e),
        }
    }

    /// Reads a signed big-endian 64-bit value.
    pub fn get_i64_be(&mut self) -> (r: Result<i64, BinaryUtilError>)
        ensures
            Self::read_outcome(
                *old(self),
                *final(self),
                8,
                r,
                be_u64(old(self).remaining()) as i64,
            ),
    {
        match self.get_u64_be() {
            Ok(v) => Ok(v as i64),
            Err(e) => Err(e),
        }
    }

    // --- writing ---

    /// Appends bytes.
    pub fn put(&mut self, bytes: &[u8])
        ensures
            final(self).data() == old(self).data() + bytes@,
            final(self).pos() == old(self).pos(),
    {
        let tail = vstd::slice::slice_to_vec(bytes);
        self.put_seq(tail);
    }

    fn put_seq(&mut self, mut tail: Vec<u8>)
        ensures
            final(self).data() == old(self).data() + tail@,
            final(self).pos() == old(self).pos(),
    {
        self.offset = self.cursor();
        self.buffer.append(&mut tail);
    }

    pub fn put_u8(&mut self, v: u8)
        ensures
            final(self).data() == old(self).data() + seq![v],
            final(self).pos() == old(self).pos(),
    {
        self.put_seq(vec![v]);
    }

    pub fn put_byte(&mut self, v: u8)
        ensures
            final(self).data() == old(self).data() + seq![v],
            final(self).pos() == old(self).pos(),
    {
        self.put_seq(vec![v]);
    }

    pub fn put_u16_le(&mut self, v: u16)
        ensures
            final(self).data() == old(self).data() + u16_le(v),
            final(self).pos() == old(self).pos(),
    {
        self.put_seq(vec![(v & 0xff) as u8, ((v >> 8u16) & 0xff) as u8]);
    }

    pub fn put_u16_be(&mut self, v: u16)
        ensures
            final(self).data() == old(self).data() + u16_be(v),
            final(self).pos() == old(self).pos(),
    {
        self.put_seq(vec![((v >> 8u16) & 0xff) as u8, (v & 0xff) as u8]);
    }

    /// Appends a signed 16-bit value, little-endian.
    pub fn put_signed_lshort(&mut self, v: i16)
        ensures
            final(self).data() == old(self).data() + u16_le(v as u16),
            final(self).pos() == old(self).pos(),
    {
        self.put_u16_le(v as u16);
    }

    /// Appends the low 24 bits of a value, little-endian.
    pub fn put_u24_le(&mut self, v: u32)
        ensures
            final(self).data() == old(self).data() + u24_le(v),
            final(self).pos() == old(self).pos(),
    {
        self.put_seq(vec![(v & 0xff) as u8, ((v >> 8u32) & 0xff) as u8, ((v >> 16u32) & 0xff) as u8]);
    }

    pub fn put_u32_le(&mut self, v: u32)
        ensures
            final(self).data() == old(self).data() + u32_le(v),
            final(self).pos() == old(self).pos(),
    {
        self.put_seq(
            vec![
                (v & 0xff) as u8,
                ((v >> 8u32) & 0xff) as u8,
                ((v >> 16u32) & 0xff) as u8,
                ((v >> 24u32) & 0xff) as u8,
            ],
        );
    }

    pub fn put_u32_be(&mut self, v: u32)
        ensures
            final(self).data() == old(self).data() + u32_be(v),
            final(self).pos() == old(self).pos(),
    {
        self.put_seq(
            vec![
                ((v >> 24u32) & 0xff) as u8,
                ((v >> 16u32) & 0xff) as u8,
                ((v >> 8u32) & 0xff) as u8,
                (v & 0xff) as u8,
            ],
        );
    }

    /// Appends a signed 32-bit value, little-endian.
    pub fn put_lint(&mut self, v: i32)
        ensures
            final(self).data() == old(self).data() + u32_le(v as u32),
            final(self).pos() == old(self).pos(),
    {
        self.put_u32_le(v as u32);
    }

    pub fn put_u64_le(&mut self, v: u64)
        ensures
            final(self).data() == old(self).data() + u64_le(v),
            final(self).pos() == old(self).pos(),
    {
        self.put_seq(
            vec![
                (v & 0xff) as u8,
                ((v >> 8u64) & 0xff) as u8,
                ((v >> 16u64) & 0xff) as u8,
                ((v >> 24u64) & 0xff) as u8,
                ((v >> 32u64) & 0xff) as u8,
                ((v >> 40u64) & 0xff) as u8,
                ((v >> 48u64) & 0xff) as u8,
                ((v >> 56u64) & 0xff) as u8,
            ],
        );
    }

    pub fn put_u64_be(&mut self, v: u64)
        ensures
            final(self).data() == old(self).data() + u64_be(v),
            final(self).pos() == old(self).pos(),
    {
        self.put_seq(
            vec![
                ((v >> 56u64) & 0xff) as u8,
                ((v >> 48u64) & 0xff) as u8,
                ((v >> 40u64) & 0xff) as u8,
                ((v >> 32u64) & 0xff) as u8,
                ((v >> 24u64) & 0xff) as u8,
                ((v >> 16u64) & 0xff) as u8,
                ((v >> 8u64) & 0xff) as u8,
                (v & 0xff) as u8,
            ],
        );
    }

    /// Appends a signed 64-bit value, little-endian.
    pub fn put_llong(&mut self, v: i64)
        ensures
            final(self).data() == old(self).data() + u64_le(v as u64),
            final(self).pos() == old(self).pos(),
    {
        self.put_u64_le(v as u64);
    }

    /// Appends a signed 64-bit value, big-endian.
    pub fn put_i64_be(&mut self, v: i64)
        ensures
            final(self).data() == old(self).data() + u64_be(v as u64),
            final(self).pos() == old(self).pos(),
    {
        self.put_u64_be(v as u64);
    }

    /// Reads a string: a big-endian 16-bit byte length, then that many UTF-8 bytes.
    pub fn get_string(&mut self) -> (r: Result<String, BinaryUtilError>)
        ensures
            final(self).data() == old(self).data(),
            match parse_str16(old(self).remaining()) {
                Ok((v, n)) => (r matches Ok(x) && x@ == v) && Self::advanced(
                    *old(self),
                    *final(self),
                    n,
                ),
                Err(short) => r matches Err(e) && e.is_short() == short,
            },
    {
        let len = self.get_u16_be()?;
        let bytes = self.get(len as usize)?;
        proof {
            self.lemma_pos();
            assert(bytes@ =~= old(self).remaining().subrange(2, 2 + len));
        }
        match string_from_utf8(bytes) {
            Some(v) => Ok(v),
            None => Err(BinaryUtilError::InvalidData("invalid UTF-8 in string".to_owned())),
        }
    }

    /// Appends a string: its big-endian 16-bit byte length, then its UTF-8 bytes. A
    /// string longer than 65535 bytes is refused and nothing is written.
    pub fn put_string(&mut self, v: &str) -> (r: Result<(), BinaryUtilError>)
        ensures
            final(self).pos() == old(self).pos(),
            encode_utf8(v@).len() > 0xffff ==> r is Err && final(self).data() == old(self).data(),
            encode_utf8(v@).len() <= 0xffff ==> r is Ok && final(self).data() == old(self).data()
                + enc_str16(v@),
    {
        let bytes = v.as_bytes();
        if bytes.len() > 0xffff {
            return Err(BinaryUtilError::InvalidData("string too long".to_owned()));
        }
        self.put_u16_be(bytes.len() as u16);
        self.put(bytes);
        proof {
            assert(self.data() =~= old(self).data() + enc_str16(v@));
        }
        Ok(())
    }
}

} // verus!
