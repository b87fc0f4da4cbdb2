//! Reading and writing tag trees in the little-endian NBT encoding.
use crate::binary::{
    le_u16, le_u32, le_u64, string_from_utf8, u16_le, u32_le, u64_le, BinaryStream, BinaryUtilError,
};
use crate::nbt::codec::{
    array_len, enc_ints, enc_string, ints_of, lemma_enc_ints_push, max_array_len, parse_string,
    string_err,
};
use crate::nbt::error::{NbtError, NbtErrorKind};
use vstd::prelude::*;
use vstd::utf8::{decode_utf8, encode_utf8, valid_utf8};

verus! {

/// Reads and writes NBT in little-endian byte order over a byte stream.
pub struct LittleEndianNbtSerializer {
    stream: BinaryStream,
}

/// The error of a failed read of the stream.
fn io_error(e: BinaryUtilError) -> (r: NbtError)
    ensures
        r == NbtError::IoError(e),
        r.kind() == NbtErrorKind::Io,
{
    NbtError::IoError(e)
}

impl LittleEndianNbtSerializer {
    /// All bytes held.
    pub closed spec fn data(&self) -> Seq<u8> {
        self.stream.data()
    }

    /// The read offset.
    pub closed spec fn pos(&self) -> nat {
        self.stream.pos()
    }

    /// The bytes not yet read.
    pub closed spec fn remaining(&self) -> Seq<u8> {
        self.stream.remaining()
    }

    /// `after` is `before` with `n` more bytes read.
    pub open spec fn read_step(before: Self, after: Self, n: nat) -> bool {
        &&& after.data() == before.data()
        &&& after.pos() == before.pos() + n
        &&& after.remaining() == before.remaining().skip(n as int)
    }

    /// The outcome of reading `n` bytes whose value is `v` when they are there.
    pub open spec fn read_result<T>(
        before: Self,
        after: Self,
        n: nat,
        r: Result<T, NbtError>,
        v: T,
    ) -> bool {
        if before.remaining().len() >= n {
            r == Ok::<T, NbtError>(v) && Self::read_step(before, after, n)
        } else {
            (r matches Err(e) && e.kind() == NbtErrorKind::Io) && after.data() == before.data()
        }
    }

    /// The read offset lies within the bytes, and the bytes after it are the rest.
    pub proof fn lemma_pos(&self)
        ensures
            self.pos() <= self.data().len(),
            self.remaining().len() == self.data().len() - self.pos(),
    {
        self.stream.lemma_pos();
    }

    proof fn lemma_remaining(before: Self, after: Self, n: nat)
        requires
            BinaryStream::advanced(before.stream, after.stream, n),
        ensures
            Self::read_step(before, after, n),
            before.remaining().len() >= n,
    {
        before.stream.lemma_pos();
        after.stream.lemma_pos();
        assert(after.remaining() =~= before.remaining().skip(n as int));
    }

    pub fn new(stream: BinaryStream) -> (r: Self)
        ensures
            r.data() == stream.data(),
            r.pos() == stream.pos(),
    {
        LittleEndianNbtSerializer { stream }
    }

    pub fn from_bytes(buffer: &[u8]) -> (r: Self)
        ensures
            r.data() == buffer@,
            r.pos() == 0,
            r.remaining() == buffer@,
    {
        let r = Self::new(BinaryStream::from_slice(buffer));
        proof {
            assert(r.remaining() =~= buffer@);
        }
        r
    }

    pub fn get_buffer(&self) -> (r: &[u8])
        ensures
            r@ == self.data(),
    {
        self.stream.get_buffer()
    }

    /// Moves the read offset back to the start.
    pub(crate) fn restart(&mut self)
        ensures
            final(self).data() == old(self).data(),
            final(self).pos() == 0,
            final(self).remaining() == old(self).data(),
    {
        self.stream.rewind();
        proof {
            assert(self.remaining() =~= self.data());
        }
    }

    /// Drops every byte held.
    pub(crate) fn clear(&mut self)
        ensures
            final(self).data() == Seq::<u8>::empty(),
            final(self).pos() == 0,
    {
        self.stream = BinaryStream::new();
    }

    /// Whether every byte has been read.
    pub(crate) fn at_end(&self) -> (r: bool)
        ensures
            r == (self.remaining().len() == 0),
    {
        proof {
            self.stream.lemma_pos();
        }
        self.stream.feof()
    }

    /// A copy of every byte held.
    pub(crate) fn to_bytes(&self) -> (r: Vec<u8>)
        ensures
            r@ == self.data(),
    {
        vstd::slice::slice_to_vec(self.stream.get_buffer())
    }

    // --- reading ---

    pub fn read_byte(&mut self) -> (r: Result<u8, NbtError>)
        ensures
            Self::read_result(*old(self), *final(self), 1, r, old(self).remaining()[0]),
    {
        match self.stream.get_byte() {
            Ok(b) => {
                proof {
                    Self::lemma_remaining(*old(self), *self, 1);
                }
                Ok(b)
            },
            Err(e) => Err(io_error(e)),
        }
    }

    pub fn read_signed_byte(&mut self) -> (r: Result<i8, NbtError>)
        ensures
            Self::read_result(*old(self), *final(self), 1, r, old(self).remaining()[0] as i8),
    {
        match self.stream.get_signed_byte() {
            Ok(b) => {
                proof {
                    Self::lemma_remaining(*old(self), *self, 1);
                }
                Ok(b)
            },
            Err(e) => Err(io_error(e)),
        }
    }

    pub fn read_short(&mut self) -> (r: Result<i16, NbtError>)
        ensures
            Self::read_result(
                *old(self),
                *final(self),
                2,
                r,
                le_u16(old(self).remaining()) as i16,
            ),
    {
        match self.stream.get_signed_lshort() {
            Ok(b) => {
                proof {
                    Self::lemma_remaining(*old(self), *self, 2);
                }
                Ok(b)
            },
            Err(e) => Err(io_error(e)),
        }
    }

    pub fn read_signed_short(&mut self) -> (r: Result<i16, NbtError>)
        ensures
            Self::read_result(
                *old(self),
                *final(self),
                2,
                r,
                le_u16(old(self).remaining()) as i16,
            ),
    {
        self.read_short()
    }

    pub fn read_int(&mut self) -> (r: Result<i32, NbtError>)
        ensures
            Self::read_result(
                *old(self),
                *final(self),
                4,
                r,
                le_u32(old(self).remaining()) as i32,
            ),
    {
        match self.stream.get_lint() {
            Ok(b) => {
                proof {
                    Self::lemma_remaining(*old(self), *self, 4);
                }
                Ok(b)
            },
            Err(e) => Err(io_error(e)),
        }
    }

    pub fn read_long(&mut self) -> (r: Result<i64, NbtError>)
        ensures
            Self::read_result(
                *old(self),
                *final(self),
                8,
                r,
                le_u64(old(self).remaining()) as i64,
            ),
    {
        match self.stream.get_llong() {
            Ok(b) => {
                proof {
                    Self::lemma_remaining(*old(self), *self, 8);
                }
                Ok(b)
            },
            Err(e) => Err(io_error(e)),
        }
    }

    /// Reads the IEEE-754 bits of a 32-bit float.
    pub fn read_float_bits(&mut self) -> (r: Result<u32, NbtError>)
        ensures
            Self::read_result(*old(self), *final(self), 4, r, le_u32(old(self).remaining())),
    {
        match self.stream.get_u32_le() {
            Ok(b) => {
                proof {
                    Self::lemma_remaining(*old(self), *self, 4);
                }
                Ok(b)
            },
            Err(e) => Err(io_error(e)),
        }
    }

    /// Reads the IEEE-754 bits of a 64-bit float.
    pub fn read_double_bits(&mut self) -> (r: Result<u64, NbtError>)
        ensures
            Self::read_result(*old(self), *final(self), 8, r, le_u64(old(self).remaining())),
    {
        match self.stream.get_u64_le() {
            Ok(b) => {
                proof {
                    Self::lemma_remaining(*old(self), *self, 8);
                }
                Ok(b)
            },
            Err(e) => Err(io_error(e)),
        }
    }

    /// Reads `n` raw bytes.
    fn read_raw(&mut self, n: usize) -> (r: Result<Vec<u8>, NbtError>)
        ensures
            final(self).data() == old(self).data(),
            old(self).remaining().len() >= n ==> (r matches Ok(v) && v@ == old(self).remaining().take(
                n as int,
            )) && Self::read_step(*old(self), *final(self), n as nat),
            old(self).remaining().len() < n ==> (r matches Err(e) && e.kind() == NbtErrorKind::Io),
    {
        match self.stream.get(n) {
            Ok(b) => {
                proof {
                    Self::lemma_remaining(*old(self), *self, n as nat);
                }
                Ok(b)
            },
            Err(e) => Err(io_error(e)),
        }
    }

    /// Reads a byte array: a signed 32-bit length, then that many bytes.
    pub fn read_byte_array(&mut self) -> (r: Result<Vec<u8>, NbtError>)
        ensures
            final(self).data() == old(self).data(),
            ({
                let s = old(self).remaining();
                if s.len() < 4 {
                    r matches Err(e) && e.kind() == NbtErrorKind::Io
                } else if array_len(s) < 0 {
                    r matches Err(e) && e.kind() == NbtErrorKind::Data
                } else if s.len() < 4 + array_len(s) {
                    r matches Err(e) && e.kind() == NbtErrorKind::Io
                } else {
                    (r matches Ok(v) && v@ == s.subrange(4, 4 + array_len(s))) && Self::read_step(
                        *old(self),
                        *final(self),
                        (4 + array_len(s)) as nat,
                    )
                }
            }),
    {
        let length = self.read_int()?;
        if length < 0 {
            return Err(NbtError::new_data_error("ByteArray length cannot be less than zero"));
        }
        let r = self.read_raw(length as usize);
        proof {
            let s = old(self).remaining();
            if s.len() >= 4 + array_len(s) {
                assert(r matches Ok(v) && v@ =~= s.subrange(4, 4 + array_len(s)));
                assert(self.remaining() =~= s.skip(4 + array_len(s)));
            }
        }
        r
    }

    /// Reads a string: a signed 16-bit byte length, then that many UTF-8 bytes.
    pub fn read_string(&mut self) -> (r: Result<String, NbtError>)
        ensures
            final(self).data() == old(self).data(),
            match parse_string(old(self).remaining()) {
                Ok((v, n)) => (r matches Ok(x) && x@ == v) && Self::read_step(
                    *old(self),
                    *final(self),
                    n,
                ),
                Err(k) => r matches Err(e) && e.kind() == k,
            },
    {
        let length = self.read_short()?;
        if length < 0 {
            return Err(NbtError::new_data_error("NBT string length cannot be negative"));
        }
        let bytes = self.read_raw(length as usize)?;
        proof {
            let s = old(self).remaining();
            assert(bytes@ =~= s.subrange(2, 2 + length));
            assert(self.remaining() =~= s.skip(2 + length));
        }
        match string_from_utf8(bytes) {
            Some(v) => Ok(v),
            None => Err(NbtError::Utf8Error("invalid UTF-8 in NBT string".to_owned())),
        }
    }

    /// Reads an int array: a signed 32-bit length, then that many 32-bit values.
    pub fn read_int_array(&mut self) -> (r: Result<Vec<i32>, NbtError>)
        ensures
            final(self).data() == old(self).data(),
            ({
                let s = old(self).remaining();
                if s.len() < 4 {
                    r matches Err(e) && e.kind() == NbtErrorKind::Io
                } else if array_len(s) < 0 {
                    r matches Err(e) && e.kind() == NbtErrorKind::Data
                } else if s.len() < 4 + 4 * array_len(s) {
                    r matches Err(e) && e.kind() == NbtErrorKind::Io
                } else {
                    (r matches Ok(v) && v@ == ints_of(s.skip(4), array_len(s) as nat))
                        && Self::read_step(
                        *old(self),
                        *final(self),
                        (4 + 4 * array_len(s)) as nat,
                    )
                }
            }),
    {
        let length = self.read_int()?;
        if length < 0 {
            return Err(NbtError::new_data_error("IntArray length cannot be less than zero"));
        }
        let ghost s = old(self).remaining();
        let ghost body = s.skip(4);
        let n = length as usize;
        let mut result: Vec<i32> = Vec::new();
        let mut i: usize = 0;
        while i < n
            invariant
                i <= n,
                n == array_len(s),
                s == old(self).remaining(),
                self.data() == old(self).data(),
                s.len() >= 4 + 4 * i,
                body == s.skip(4),
                Self::read_step(*old(self), *self, (4 + 4 * i) as nat),
                result@ == ints_of(body, i as nat),
            decreases n - i,
        {
            let ghost before = *self;
            match self.read_int() {
                Ok(v) => {
                    proof {
                        assert(before.remaining().len() >= 4);
                        assert(s.len() >= 4 + 4 * i + 4);
                        assert(before.remaining() =~= body.skip(4 * i));
                        assert(le_u32(before.remaining()) == le_u32(
                            body.subrange(4 * i, 4 * i + 4),
                        ));
                    }
                    result.push(v);
                    proof {
                        assert(result@ =~= ints_of(body, (i + 1) as nat));
                        assert(self.remaining() =~= s.skip(4 + 4 * (i + 1)));
                    }
                },
                Err(e) => {
                    proof {
                        assert(before.remaining().len() < 4);
                        assert(s.len() < 4 + 4 * array_len(s));
                    }
                    return Err(e);
                },
            }
            i = i + 1;
        }
        Ok(result)
    }

    // --- writing ---

    pub fn write_byte(&mut self, v: u8) -> (r: Result<(), NbtError>)
        ensures
            r is Ok,
            final(self).data() == old(self).data() + seq![v],
            final(self).pos() == old(self).pos(),
    {
        self.stream.put_byte(v);
        Ok(())
    }

    pub fn write_signed_byte(&mut self, v: i8) -> (r: Result<(), NbtError>)
        ensures
            r is Ok,
            final(self).data() == old(self).data() + seq![v as u8],
            final(self).pos() == old(self).pos(),
    {
        self.stream.put_byte(v as u8);
        Ok(())
    }

    pub fn write_short(&mut self, v: i16) -> (r: Result<(), NbtError>)
        ensures
            r is Ok,
            final(self).data() == old(self).data() + u16_le(v as u16),
            final(self).pos() == old(self).pos(),
    {
        self.stream.put_signed_lshort(v);
        Ok(())
    }

    pub fn write_int(&mut self, v: i32) -> (r: Result<(), NbtError>)
        ensures
            r is Ok,
            final(self).data() == old(self).data() + u32_le(v as u32),
            final(self).pos() == old(self).pos(),
    {
        self.stream.put_lint(v);
        Ok(())
    }

    pub fn write_long(&mut self, v: i64) -> (r: Result<(), NbtError>)
        ensures
            r is Ok,
            final(self).data() == old(self).data() + u64_le(v as u64),
            final(self).pos() == old(self).pos(),
    {
        self.stream.put_llong(v);
        Ok(())
    }

    /// Writes the IEEE-754 bits of a 32-bit float.
    pub fn write_float_bits(&mut self, v: u32) -> (r: Result<(), NbtError>)
        ensures
            r is Ok,
            final(self).data() == old(self).data() + u32_le(v),
            final(self).pos() == old(self).pos(),
    {
        self.stream.put_u32_le(v);
        Ok(())
    }

    /// Writes the IEEE-754 bits of a 64-bit float.
    pub fn write_double_bits(&mut self, v: u64) -> (r: Result<(), NbtError>)
        ensures
            r is Ok,
            final(self).data() == old(self).data() + u64_le(v),
            final(self).pos() == old(self).pos(),
    {
        self.stream.put_u64_le(v);
        Ok(())
    }

    /// Writes a byte array: its length as a signed 32-bit value, then its bytes.
    pub fn write_byte_array(&mut self, v: &[u8]) -> (r: Result<(), NbtError>)
        ensures
            final(self).pos() == old(self).pos(),
            v@.len() > max_array_len() ==> (r matches Err(e) && e.kind()
                == NbtErrorKind::InvalidTagValue) && final(self).data() == old(self).data(),
            v@.len() <= max_array_len() ==> r is Ok && final(self).data() == old(self).data()
                + u32_le(v@.len() as u32) + v@,
    {
        if v.len() > 0x7fff_ffff {
            return Err(NbtError::new_invalid_tag_value("ByteArray length too large for i32"));
        }
        self.write_int(v.len() as i32)?;
        self.stream.put(v);
        Ok(())
    }

    /// Writes a string: its UTF-8 length as a signed 16-bit value, then its UTF-8 bytes.
    pub fn write_string(&mut self, v: &str) -> (r: Result<(), NbtError>)
        ensures
            final(self).pos() == old(self).pos(),
            string_err(v@) is Some ==> (r matches Err(e) && e.kind()
                == NbtErrorKind::InvalidTagValue) && final(self).data() == old(self).data(),
            string_err(v@) is None ==> r is Ok && final(self).data() == old(self).data()
                + enc_string(v@),
    {
        let bytes = v.as_bytes();
        if bytes.len() > 0x7fff {
            return Err(NbtError::new_invalid_tag_value("NBT string length too large"));
        }
        self.write_short(bytes.len() as i16)?;
        self.stream.put(bytes);
        proof {
            assert(self.data() =~= old(self).data() + enc_string(v@));
        }
        Ok(())
    }

    /// Writes an int array: its length as a signed 32-bit value, then each value.
    pub fn write_int_array(&mut self, v: &[i32]) -> (r: Result<(), NbtError>)
        ensures
            final(self).pos() == old(self).pos(),
            v@.len() > max_array_len() ==> (r matches Err(e) && e.kind()
                == NbtErrorKind::InvalidTagValue) && final(self).data() == old(self).data(),
            v@.len() <= max_array_len() ==> r is Ok && final(self).data() == old(self).data()
                + u32_le(v@.len() as u32) + enc_ints(v@),
    {
        if v.len() > 0x7fff_ffff {
            return Err(NbtError::new_invalid_tag_value("IntArray length too large for i32"));
        }
        self.write_int(v.len() as i32)?;
        let ghost base = self.data();
        let mut i: usize = 0;
        proof {
            assert(v@.take(0) =~= Seq::<i32>::empty());
            assert(self.data() =~= base + enc_ints(v@.take(0)));
        }
        while i < v.len()
            invariant
                i <= v@.len(),
                self.pos() == old(self).pos(),
                self.data() == base + enc_ints(v@.take(i as int)),
            decreases v@.len() - i,
        {
            self.write_int(v[i])?;
            proof {
                assert(v@.take(i + 1) =~= v@.take(i as int).push(v@[i as int]));
                lemma_enc_ints_push(v@.take(i as int), v@[i as int]);
                assert(self.data() =~= base + enc_ints(v@.take(i + 1)));
            }
            i = i + 1;
        }
        proof {
            assert(v@.take(v@.len() as int) =~= v@);
        }
        Ok(())
    }
}

} // verus!
