//! Reading tags from, and writing tags to, a little-endian NBT serializer.
use crate::binary::{le_u16, le_u32, le_u64};
use crate::nbt::codec::{
    array_len, enc_entries, enc_list, enc_payload, entries_err, ints_of, lemma_enc_entries_push,
    lemma_enc_list_push, lemma_entries_err_prefix, lemma_entries_err_push, lemma_list_err_prefix,
    lemma_list_err_push, list_err, parse_elems, parse_entries, parse_list_body, parse_payload,
    parse_string, shifted, write_err, all_err, enc_all, enc_root, lemma_all_err_prefix,
    lemma_all_err_push, lemma_enc_all_push, parse_all, parse_headless, parse_root, root_err,
};
use crate::nbt::roundtrip::lemma_parse_string_writable;
use crate::nbt::tree_root::TreeRoot;
use crate::binary::BinaryStream;
use crate::nbt::compound_tag::CompoundTag;
use crate::nbt::error::{NbtError, NbtErrorKind};
use crate::nbt::list_tag::ListTag;
use crate::nbt::reader_tracker::ReaderTracker;
use crate::nbt::serializer::LittleEndianNbtSerializer;
use crate::nbt::tag::{
    lemma_entries_view, lemma_tags_view, tag_view, tags_view, ByteArrayTag, ByteTag, IntArrayTag, IntTag, LongTag,
    NbtValue, ShortTag, StringTag, Tag, TagType,
};
use vstd::prelude::*;

verus! {

impl ByteTag {
    pub fn read(reader: &mut LittleEndianNbtSerializer) -> (r: Result<ByteTag, NbtError>)
        ensures
            LittleEndianNbtSerializer::read_result(
                *old(reader),
                *final(reader),
                1,
                r,
                ByteTag { value: old(reader).remaining()[0] as i8 },
            ),
    {
        match reader.read_signed_byte() {
            Ok(v) => Ok(ByteTag::new(v)),
            Err(e) => Err(e),
        }
    }
}

impl ShortTag {
    pub fn read(reader: &mut LittleEndianNbtSerializer) -> (r: Result<ShortTag, NbtError>)
        ensures
            LittleEndianNbtSerializer::read_result(
                *old(reader),
                *final(reader),
                2,
                r,
                ShortTag { value: le_u16(old(reader).remaining()) as i16 },
            ),
    {
        match reader.read_signed_short() {
            Ok(v) => Ok(ShortTag::new(v)),
            Err(e) => Err(e),
        }
    }
}

impl IntTag {
    pub fn read(reader: &mut LittleEndianNbtSerializer) -> (r: Result<IntTag, NbtError>)
        ensures
            LittleEndianNbtSerializer::read_result(
                *old(reader),
                *final(reader),
                4,
                r,
                IntTag { value: le_u32(old(reader).remaining()) as i32 },
            ),
    {
        match reader.read_int() {
            Ok(v) => Ok(IntTag::new(v)),
            Err(e) => Err(e),
        }
    }
}

impl LongTag {
    pub fn read(reader: &mut LittleEndianNbtSerializer) -> (r: Result<LongTag, NbtError>)
        ensures
            LittleEndianNbtSerializer::read_result(
                *old(reader),
                *final(reader),
                8,
                r,
                LongTag { value: le_u64(old(reader).remaining()) as i64 },
            ),
    {
        match reader.read_long() {
            Ok(v) => Ok(LongTag::new(v)),
            Err(e) => Err(e),
        }
    }
}

impl ByteArrayTag {
    pub fn read(reader: &mut LittleEndianNbtSerializer) -> (r: Result<ByteArrayTag, NbtError>)
        ensures
            final(reader).data() == old(reader).data(),
            match parse_payload(TagType::ByteArray, old(reader).remaining(), 0, 0) {
                Ok((v, n)) => (r matches Ok(t) && NbtValue::ByteArray(t.value@) == v)
                    && LittleEndianNbtSerializer::read_step(*old(reader), *final(reader), n),
                Err(k) => r matches Err(e) && e.kind() == k,
            },
    {
        match reader.read_byte_array() {
            Ok(v) => Ok(ByteArrayTag::new(v)),
            Err(e) => Err(e),
        }
    }
}

impl StringTag {
    pub fn read(reader: &mut LittleEndianNbtSerializer) -> (r: Result<StringTag, NbtError>)
        ensures
            final(reader).data() == old(reader).data(),
            match parse_string(old(reader).remaining()) {
                Ok((v, n)) => (r matches Ok(t) && t.value@ == v)
                    && LittleEndianNbtSerializer::read_step(*old(reader), *final(reader), n),
                Err(k) => r matches Err(e) && e.kind() == k,
            },
    {
        match reader.read_string() {
            Ok(v) => Ok(StringTag::new(v)),
            Err(e) => Err(e),
        }
    }
}

impl IntArrayTag {
    pub fn read(reader: &mut LittleEndianNbtSerializer) -> (r: Result<IntArrayTag, NbtError>)
        ensures
            final(reader).data() == old(reader).data(),
            match parse_payload(TagType::IntArray, old(reader).remaining(), 0, 0) {
                Ok((v, n)) => (r matches Ok(t) && NbtValue::IntArray(t.value@) == v)
                    && LittleEndianNbtSerializer::read_step(*old(reader), *final(reader), n),
                Err(k) => r matches Err(e) && e.kind() == k,
            },
    {
        match reader.read_int_array() {
            Ok(v) => Ok(IntArrayTag::new(v)),
            Err(e) => Err(e),
        }
    }
}

/// The views of tags, one more tag pushed.
proof fn lemma_tags_view_push(s: Seq<Tag>, t: Tag)
    ensures
        tags_view(s.push(t)) == tags_view(s).push(tag_view(t)),
{
    lemma_tags_view(s);
    lemma_tags_view(s.push(t));
    assert(tags_view(s.push(t)) =~= tags_view(s).push(tag_view(t)));
}

/// Reads the payload of a tag of the given type: the tag, or the first error met.
/// Lists and compounds count one level of nesting against the tracker's limit.
pub fn create_tag(
    tag_type: TagType,
    reader: &mut LittleEndianNbtSerializer,
    tracker: &mut ReaderTracker,
) -> (r: Result<Tag, NbtError>)
    ensures
        final(reader).data() == old(reader).data(),
        final(tracker).depth() == old(tracker).depth(),
        final(tracker).max() == old(tracker).max(),
        r matches Ok(t) ==> t@.tag_type() == tag_type,
        tag_type == TagType::End ==> *final(reader) == *old(reader) && *final(tracker) == *old(
            tracker,
        ) && r matches Err(NbtError::DataError(_)),
        match parse_payload(
            tag_type,
            old(reader).remaining(),
            old(tracker).depth(),
            old(tracker).max(),
        ) {
            Ok((v, n)) => (r matches Ok(t) && t@ == v) && n > 0
                && LittleEndianNbtSerializer::read_step(*old(reader), *final(reader), n),
            Err(k) => r matches Err(e) && e.kind() == k,
        },
    decreases old(reader).remaining().len(), 1nat,
{
    match tag_type {
        TagType::Byte => match ByteTag::read(reader) {
            Ok(t) => Ok(Tag::Byte(t)),
            Err(e) => Err(e),
        },
        TagType::Short => match ShortTag::read(reader) {
            Ok(t) => Ok(Tag::Short(t)),
            Err(e) => Err(e),
        },
        TagType::Int => match IntTag::read(reader) {
            Ok(t) => Ok(Tag::Int(t)),
            Err(e) => Err(e),
        },
        TagType::Long => match LongTag::read(reader) {
            Ok(t) => Ok(Tag::Long(t)),
            Err(e) => Err(e),
        },
        TagType::Float => match reader.read_float_bits() {
            Ok(b) => Ok(Tag::Float(b)),
            Err(e) => Err(e),
        },
        TagType::Double => match reader.read_double_bits() {
            Ok(b) => Ok(Tag::Double(b)),
            Err(e) => Err(e),
        },
        TagType::ByteArray => match ByteArrayTag::read(reader) {
            Ok(t) => Ok(Tag::ByteArray(t)),
            Err(e) => Err(e),
        },
        TagType::String => match StringTag::read(reader) {
            Ok(t) => Ok(Tag::String(t)),
            Err(e) => Err(e),
        },
        TagType::IntArray => match IntArrayTag::read(reader) {
            Ok(t) => Ok(Tag::IntArray(t)),
            Err(e) => Err(e),
        },
        TagType::List => {
            tracker.increase_depth()?;
            let result = ListTag::read(reader, tracker);
            tracker.decrease_depth();
            match result {
                Ok(l) => Ok(Tag::List(l)),
                Err(e) => Err(e),
            }
        },
        TagType::Compound => {
            tracker.increase_depth()?;
            let result = CompoundTag::read(reader, tracker);
            tracker.decrease_depth();
            match result {
                Ok(c) => Ok(Tag::Compound(c)),
                Err(e) => Err(e),
            }
        },
        TagType::End => Err(NbtError::new_data_error("Cannot create TagType::End")),
    }
}

impl ListTag {
    /// Reads a list: its element type, its size, then that many payloads.
    pub(crate) fn read(reader: &mut LittleEndianNbtSerializer, tracker: &mut ReaderTracker) -> (r:
        Result<ListTag, NbtError>)
        ensures
            final(reader).data() == old(reader).data(),
            final(tracker).depth() == old(tracker).depth(),
            final(tracker).max() == old(tracker).max(),
            match parse_list_body(old(reader).remaining(), old(tracker).depth(), old(tracker).max()) {
                Ok((v, n)) => (r matches Ok(l) && l@ == v) && n > 0
                    && LittleEndianNbtSerializer::read_step(*old(reader), *final(reader), n),
                Err(k) => r matches Err(e) && e.kind() == k,
            },
        decreases old(reader).remaining().len(), 0nat,
    {
        let ghost s = reader.remaining();
        let ghost d = tracker.depth();
        let ghost m = tracker.max();
        proof {
            reader.lemma_pos();
        }
        let tag_type_id = reader.read_byte()?;
        let size = reader.read_int()?;
        proof {
            reader.lemma_pos();
            assert(s.skip(1).skip(4) =~= s.skip(5));
        }
        let tag_type = match TagType::from_id(tag_type_id) {
            Some(t) => t,
            None => {
                return Err(NbtError::new_data_error("Invalid tag type ID in ListTag"));
            },
        };
        if size < 0 {
            return Err(NbtError::new_data_error("Invalid negative size for ListTag"));
        }
        let count = size as usize;
        if count > 0 && tag_type == TagType::End {
            return Err(NbtError::new_data_error("Unexpected non-empty list of TAG_End"));
        }
        let ghost body = s.skip(5);
        let mut values: Vec<Tag> = Vec::new();
        let ghost mut c: nat = 0;
        let mut i: usize = 0;
        proof {
            assert(tags_view(values@) =~= Seq::<NbtValue>::empty());
            assert(reader.remaining() =~= body);
        }
        while i < count
            invariant
                i <= count,
                count == size,
                size >= 0,
                s == old(reader).remaining(),
                TagType::spec_from_id(s[0]) == Some(tag_type),
                size == array_len(s.skip(1)),
                count > 0 ==> tag_type != TagType::End,
                s.len() >= 5 + c,
                body == s.skip(5),
                d == old(tracker).depth(),
                m == old(tracker).max(),
                tracker.depth() == d,
                tracker.max() == m,
                reader.data() == old(reader).data(),
                LittleEndianNbtSerializer::read_step(*old(reader), *reader, 5 + c),
                reader.remaining() == body.skip(c as int),
                parse_elems(tag_type, count as nat, Seq::empty(), body, d, m) == shifted(
                    parse_elems(tag_type, (count - i) as nat, tags_view(values@), reader.remaining(), d, m),
                    c,
                ),
            decreases count - i,
        {
            let ghost cur = reader.remaining();
            let ghost before = *reader;
            let element = match create_tag(tag_type, reader, tracker) {
                Ok(t) => t,
                Err(e) => {
                    return Err(e);
                },
            };
            if element.get_type() != tag_type {
                return Err(NbtError::new_unexpected_tag_type("List tag type mismatch"));
            }
            let ghost n: nat = match parse_payload(tag_type, cur, d, m) {
                Ok((_, k)) => k,
                Err(_) => 0,
            };
            proof {
                reader.lemma_pos();
                before.lemma_pos();
                lemma_tags_view_push(values@, element);
                assert(body.skip(c as int).skip(n as int) =~= body.skip((c + n) as int));
                assert(s.skip((5 + c + n) as int) =~= body.skip((c + n) as int));
            }
            values.push(element);
            proof {
                c = c + n;
            }
            i = i + 1;
        }
        Ok(ListTag::from_parts(tag_type, values))
    }
}

impl CompoundTag {
    /// Reads a compound: named tags up to an end byte. A name read twice keeps its
    /// first place and its last value.
    pub(crate) fn read(reader: &mut LittleEndianNbtSerializer, tracker: &mut ReaderTracker) -> (r:
        Result<CompoundTag, NbtError>)
        ensures
            final(reader).data() == old(reader).data(),
            final(tracker).depth() == old(tracker).depth(),
            final(tracker).max() == old(tracker).max(),
            match parse_entries(
                Seq::empty(),
                old(reader).remaining(),
                old(tracker).depth(),
                old(tracker).max(),
            ) {
                Ok((es, n)) => (r matches Ok(c) && c@ == es && c.wf()) && n > 0
                    && LittleEndianNbtSerializer::read_step(*old(reader), *final(reader), n),
                Err(k) => r matches Err(e) && e.kind() == k,
            },
        decreases old(reader).remaining().len(), 0nat,
    {
        let ghost s = reader.remaining();
        let ghost d = tracker.depth();
        let ghost m = tracker.max();
        let mut compound = CompoundTag::new();
        let ghost mut c: nat = 0;
        proof {
            reader.lemma_pos();
            assert(s.skip(0) =~= s);
        }
        loop
            invariant
                s == old(reader).remaining(),
                s.len() >= c,
                d == old(tracker).depth(),
                m == old(tracker).max(),
                tracker.depth() == d,
                tracker.max() == m,
                reader.data() == old(reader).data(),
                LittleEndianNbtSerializer::read_step(*old(reader), *reader, c),
                reader.remaining() == s.skip(c as int),
                parse_entries(Seq::empty(), s, d, m) == shifted(
                    parse_entries(compound@, reader.remaining(), d, m),
                    c,
                ),
                compound.wf(),
            decreases s.len() - c,
        {
            let ghost cur = reader.remaining();
            let ghost before = *reader;
            let type_id = reader.read_byte()?;
            let tag_type = match TagType::from_id(type_id) {
                Some(t) => t,
                None => {
                    return Err(NbtError::new_data_error("Invalid tag type ID in CompoundTag"));
                },
            };
            if tag_type == TagType::End {
                proof {
                    reader.lemma_pos();
                    assert(s.skip(c as int).skip(1) =~= s.skip((c + 1) as int));
                }
                return Ok(compound);
            }
            let name = reader.read_string()?;
            let ghost k: nat = match parse_string(cur.skip(1)) {
                Ok((_, j)) => j,
                Err(_) => 0,
            };
            proof {
                reader.lemma_pos();
                assert(cur.skip(1).skip(k as int) =~= cur.skip((1 + k) as int));
            }
            let tag = create_tag(tag_type, reader, tracker)?;
            let ghost n: nat = match parse_payload(tag_type, cur.skip((1 + k) as int), d, m) {
                Ok((_, j)) => j,
                Err(_) => 0,
            };
            proof {
                reader.lemma_pos();
                before.lemma_pos();
                assert(cur.skip((1 + k) as int).skip(n as int) =~= cur.skip((1 + k + n) as int));
                assert(s.skip(c as int).skip((1 + k + n) as int) =~= s.skip((c + 1 + k + n) as int));
            }
            compound.insert_entry(name, tag);
            proof {
                c = c + 1 + k + n;
            }
        }
    }
}


impl Tag {
    /// Writes the tag's payload; nothing is promised of the bytes after an error.
    pub fn write(&self, writer: &mut LittleEndianNbtSerializer) -> (r: Result<(), NbtError>)
        ensures
            final(writer).pos() == old(writer).pos(),
            write_err(self@) is None ==> r is Ok && final(writer).data() == old(writer).data()
                + enc_payload(self@),
            write_err(self@) matches Some(k) ==> (r matches Err(e) && e.kind() == k),
        decreases self,
    {
        match self {
            Tag::Byte(t) => writer.write_signed_byte(t.value),
            Tag::Short(t) => writer.write_short(t.value),
            Tag::Int(t) => writer.write_int(t.value),
            Tag::Long(t) => writer.write_long(t.value),
            Tag::Float(b) => writer.write_float_bits(*b),
            Tag::Double(b) => writer.write_double_bits(*b),
            Tag::ByteArray(t) => writer.write_byte_array(t.value.as_slice()),
            Tag::String(t) => writer.write_string(t.value.as_str()),
            Tag::List(l) => l.write(writer),
            Tag::Compound(c) => c.write(writer),
            Tag::IntArray(t) => writer.write_int_array(t.value.as_slice()),
        }
    }
}

impl ListTag {
    /// Writes the list: its element type, its size, then each payload.
    pub fn write(&self, writer: &mut LittleEndianNbtSerializer) -> (r: Result<(), NbtError>)
        ensures
            final(writer).pos() == old(writer).pos(),
            write_err(self@) is None ==> r is Ok && final(writer).data() == old(writer).data()
                + enc_payload(self@),
            write_err(self@) matches Some(k) ==> (r matches Err(e) && e.kind() == k),
        decreases self,
    {
        let ghost vs = tags_view(self.elems());
        proof {
            lemma_tags_view(self.elems());
        }
        let items = self.iter();
        writer.write_byte(self.get_tag_type().id())?;
        if items.len() > 0x7fff_ffff {
            return Err(NbtError::new_data_error("ListTag size too large for i32"));
        }
        writer.write_int(items.len() as i32)?;
        let ghost base = writer.data();
        let mut i: usize = 0;
        proof {
            assert(vs.take(0) =~= Seq::<NbtValue>::empty());
            assert(writer.data() =~= base + enc_list(vs.take(0)));
        }
        while i < items.len()
            invariant
                i <= items@.len(),
                items@.len() <= 0x7fff_ffff,
                items@ == self.elems(),
                vs == tags_view(self.elems()),
                vs.len() == items@.len(),
                forall|j: int| 0 <= j < items@.len() ==> #[trigger] vs[j] == tag_view(items@[j]),
                writer.pos() == old(writer).pos(),
                writer.data() == base + enc_list(vs.take(i as int)),
                list_err(vs.take(i as int)) is None,
            decreases items@.len() - i,
        {
            proof {
                self.lemma_elems_decreases();
                assert(decreases_to!(self.elems() => self.elems()[i as int]));
                assert(vs.take(i + 1) =~= vs.take(i as int).push(vs[i as int]));
                lemma_list_err_push(vs.take(i as int), vs[i as int]);
                lemma_enc_list_push(vs.take(i as int), vs[i as int]);
            }
            match items[i].write(writer) {
                Ok(()) => {},
                Err(e) => {
                    proof {
                        lemma_list_err_prefix(vs, i + 1);
                    }
                    return Err(e);
                },
            }
            i = i + 1;
        }
        proof {
            assert(vs.take(vs.len() as int) =~= vs);
        }
        Ok(())
    }
}

impl CompoundTag {
    /// Writes each entry as its type byte, its name and its payload, then an end byte.
    pub fn write(&self, writer: &mut LittleEndianNbtSerializer) -> (r: Result<(), NbtError>)
        ensures
            final(writer).pos() == old(writer).pos(),
            write_err(NbtValue::Compound(self@)) is None ==> r is Ok && final(writer).data() == old(
                writer,
            ).data() + enc_payload(NbtValue::Compound(self@)),
            write_err(NbtValue::Compound(self@)) matches Some(k) ==> (r matches Err(e) && e.kind()
                == k),
        decreases self,
    {
        let ghost vs = self@;
        proof {
            lemma_entries_view(self.entries());
        }
        let items = self.iter();
        let ghost base = writer.data();
        let mut i: usize = 0;
        proof {
            assert(vs.take(0) =~= Seq::<(Seq<char>, NbtValue)>::empty());
            assert(writer.data() =~= base + enc_entries(vs.take(0)));
        }
        while i < items.len()
            invariant
                i <= items@.len(),
                items@ == self.entries(),
                vs == self@,
                vs.len() == items@.len(),
                forall|j: int|
                    0 <= j < items@.len() ==> #[trigger] vs[j] == (
                        items@[j].0@,
                        tag_view(items@[j].1),
                    ),
                writer.pos() == old(writer).pos(),
                writer.data() == base + enc_entries(vs.take(i as int)),
                entries_err(vs.take(i as int)) is None,
            decreases items@.len() - i,
        {
            proof {
                self.lemma_entries_decreases();
                assert(decreases_to!(self.entries() => self.entries()[i as int]));
                assert(decreases_to!(self.entries()[i as int] => self.entries()[i as int].1));
                assert(vs.take(i + 1) =~= vs.take(i as int).push(vs[i as int]));
                lemma_entries_err_push(vs.take(i as int), vs[i as int]);
                lemma_enc_entries_push(vs.take(i as int), vs[i as int]);
            }
            let ghost before = writer.data();
            let entry = &items[i];
            writer.write_byte(entry.1.get_type().id())?;
            match writer.write_string(entry.0.as_str()) {
                Ok(()) => {},
                Err(e) => {
                    proof {
                        lemma_entries_err_prefix(vs, i + 1);
                    }
                    return Err(e);
                },
            }
            match entry.1.write(writer) {
                Ok(()) => {},
                Err(e) => {
                    proof {
                        lemma_entries_err_prefix(vs, i + 1);
                    }
                    return Err(e);
                },
            }
            proof {
                assert(writer.data() =~= base + enc_entries(vs.take(i + 1)));
            }
            i = i + 1;
        }
        writer.write_byte(0)?;
        proof {
            assert(vs.take(vs.len() as int) =~= vs);
        }
        Ok(())
    }
}

/// The views of named roots.
pub open spec fn roots_view(rs: Seq<TreeRoot>) -> Seq<(Seq<char>, NbtValue)> {
    rs.map_values(|t: TreeRoot| t@)
}

impl LittleEndianNbtSerializer {
    /// Reads a named root from the read offset on.
    fn read_root(&mut self, max_depth: usize) -> (r: Result<TreeRoot, NbtError>)
        ensures
            final(self).data() == old(self).data(),
            match parse_root(old(self).remaining(), max_depth as nat) {
                Ok((t, n)) => (r matches Ok(root) && root@ == t && root.wf())
                    && LittleEndianNbtSerializer::read_step(*old(self), *final(self), n),
                Err(k) => r matches Err(e) && e.kind() == k,
            },
    {
        let ghost s = self.remaining();
        proof {
            self.lemma_pos();
        }
        let type_id = self.read_byte()?;
        if type_id == 0 {
            return Err(NbtError::new_data_error("Found TAG_End at the start of buffer"));
        }
        let tag_type = match TagType::from_id(type_id) {
            Some(t) => t,
            None => {
                return Err(NbtError::new_data_error("Invalid root tag type ID"));
            },
        };
        let root_name = self.read_string()?;
        let ghost k: nat = match parse_string(s.skip(1)) {
            Ok((_, j)) => j,
            Err(_) => 0,
        };
        proof {
            self.lemma_pos();
            lemma_parse_string_writable(s.skip(1));
            assert(s.skip(1).skip(k as int) =~= s.skip((1 + k) as int));
        }
        let mut tracker = ReaderTracker::new(max_depth);
        let root_tag = create_tag(tag_type, self, &mut tracker)?;
        proof {
            self.lemma_pos();
            let n = match parse_payload(tag_type, s.skip((1 + k) as int), 0, max_depth as nat) {
                Ok((_, j)) => j,
                Err(_) => 0,
            };
            assert(s.skip((1 + k) as int).skip(n as int) =~= s.skip((1 + k + n) as int));
        }
        TreeRoot::new(root_name, root_tag)
    }

    /// Writes a named root.
    fn write_root(&mut self, root: &TreeRoot) -> (r: Result<(), NbtError>)
        ensures
            final(self).pos() == old(self).pos(),
            root_err(root@.0, root@.1) is None ==> r is Ok && final(self).data() == old(self).data()
                + enc_root(root@.0, root@.1),
            root_err(root@.0, root@.1) matches Some(k) ==> (r matches Err(e) && e.kind() == k),
    {
        let tag = root.get_tag();
        self.write_byte(tag.get_type().id())?;
        self.write_string(root.get_name())?;
        tag.write(self)?;
        proof {
            assert(self.data() =~= old(self).data() + enc_root(root@.0, root@.1));
        }
        Ok(())
    }

    /// Reads a named root from the start of the bytes.
    pub fn read(&mut self, max_depth: usize) -> (r: Result<TreeRoot, NbtError>)
        ensures
            final(self).data() == old(self).data(),
            match parse_root(old(self).data(), max_depth as nat) {
                Ok((t, n)) => (r matches Ok(root) && root@ == t && root.wf()) && final(self).pos() == n,
                Err(k) => r matches Err(e) && e.kind() == k,
            },
    {
        self.restart();
        self.read_root(max_depth)
    }

    /// Reads a named root from the start of a buffer.
    pub fn read_from_buffer(buffer: &[u8], max_depth: usize) -> (r: Result<TreeRoot, NbtError>)
        ensures
            match parse_root(buffer@, max_depth as nat) {
                Ok((t, _)) => r matches Ok(root) && root@ == t && root.wf(),
                Err(k) => r matches Err(e) && e.kind() == k,
            },
    {
        let mut serializer = Self::from_bytes(buffer);
        serializer.read_root(max_depth)
    }

    /// Replaces the bytes held with those of a named root.
    pub fn write(&mut self, data: &TreeRoot) -> (r: Result<(), NbtError>)
        ensures
            final(self).pos() == 0,
            root_err(data@.0, data@.1) is None ==> r is Ok && final(self).data() == enc_root(
                data@.0,
                data@.1,
            ),
            root_err(data@.0, data@.1) matches Some(k) ==> (r matches Err(e) && e.kind() == k),
    {
        self.clear();
        self.write_root(data)?;
        proof {
            assert(Seq::<u8>::empty() + enc_root(data@.0, data@.1) =~= enc_root(data@.0, data@.1));
        }
        Ok(())
    }

    /// The bytes of a named root.
    pub fn write_to_bytes(data: &TreeRoot) -> (r: Result<Vec<u8>, NbtError>)
        ensures
            root_err(data@.0, data@.1) is None ==> (r matches Ok(b) && b@ == enc_root(
                data@.0,
                data@.1,
            )),
            root_err(data@.0, data@.1) matches Some(k) ==> (r matches Err(e) && e.kind() == k),
    {
        let mut serializer = Self::new(BinaryStream::new());
        serializer.write(data)?;
        Ok(serializer.to_bytes())
    }

    /// Reads a payload whose type is given apart, from the read offset on.
    pub fn read_headless(&mut self, root_type_id: u8, max_depth: usize) -> (r: Result<Tag, NbtError>)
        ensures
            final(self).data() == old(self).data(),
            match parse_headless(root_type_id, old(self).remaining(), max_depth as nat) {
                Ok((v, n)) => (r matches Ok(t) && t@ == v) && LittleEndianNbtSerializer::read_step(
                    *old(self),
                    *final(self),
                    n,
                ),
                Err(k) => r matches Err(e) && e.kind() == k,
            },
    {
        let root_type = match TagType::from_id(root_type_id) {
            Some(t) => t,
            None => {
                return Err(NbtError::new_data_error("Invalid headless root tag type ID"));
            },
        };
        if root_type == TagType::End {
            return Err(NbtError::new_data_error("Cannot read headless TAG_End"));
        }
        let mut tracker = ReaderTracker::new(max_depth);
        create_tag(root_type, self, &mut tracker)
    }

    /// Reads a payload whose type is given apart, from the start of a buffer.
    pub fn read_headless_from_buffer(buffer: &[u8], root_type_id: u8, max_depth: usize) -> (r:
        Result<Tag, NbtError>)
        ensures
            match parse_headless(root_type_id, buffer@, max_depth as nat) {
                Ok((v, _)) => r matches Ok(t) && t@ == v,
                Err(k) => r matches Err(e) && e.kind() == k,
            },
    {
        let mut serializer = Self::from_bytes(buffer);
        serializer.read_headless(root_type_id, max_depth)
    }

    /// Replaces the bytes held with a tag's payload.
    pub fn write_headless(&mut self, data: &Tag) -> (r: Result<(), NbtError>)
        ensures
            final(self).pos() == 0,
            write_err(data@) is None ==> r is Ok && final(self).data() == enc_payload(data@),
            write_err(data@) matches Some(k) ==> (r matches Err(e) && e.kind() == k),
    {
        self.clear();
        let r = data.write(self);
        proof {
            assert(Seq::<u8>::empty() + enc_payload(data@) =~= enc_payload(data@));
        }
        r
    }

    /// The bytes of a tag's payload.
    pub fn write_headless_to_bytes(data: &Tag) -> (r: Result<Vec<u8>, NbtError>)
        ensures
            write_err(data@) is None ==> (r matches Ok(b) && b@ == enc_payload(data@)),
            write_err(data@) matches Some(k) ==> (r matches Err(e) && e.kind() == k),
    {
        let mut serializer = Self::new(BinaryStream::new());
        serializer.write_headless(data)?;
        Ok(serializer.to_bytes())
    }

    /// Reads named roots one after another, from the read offset to the end of the bytes.
    pub fn read_multiple(&mut self, max_depth: usize) -> (r: Result<Vec<TreeRoot>, NbtError>)
        ensures
            final(self).data() == old(self).data(),
            match parse_all(Seq::empty(), old(self).remaining(), max_depth as nat) {
                Ok(rs) => r matches Ok(v) && roots_view(v@) == rs,
                Err(k) => r matches Err(e) && e.kind() == k,
            },
    {
        let ghost s = self.remaining();
        let mut results: Vec<TreeRoot> = Vec::new();
        let ghost mut c: nat = 0;
        proof {
            self.lemma_pos();
            assert(s.skip(0) =~= s);
            assert(roots_view(results@) =~= Seq::<(Seq<char>, NbtValue)>::empty());
        }
        while !self.at_end()
            invariant
                s == old(self).remaining(),
                s.len() >= c,
                self.data() == old(self).data(),
                self.remaining() == s.skip(c as int),
                parse_all(Seq::empty(), s, max_depth as nat) == parse_all(
                    roots_view(results@),
                    self.remaining(),
                    max_depth as nat,
                ),
            decreases s.len() - c,
        {
            let ghost cur = self.remaining();
            let ghost before = *self;
            let root = self.read_root(max_depth)?;
            let ghost n: nat = match parse_root(cur, max_depth as nat) {
                Ok((_, j)) => j,
                Err(_) => 0,
            };
            proof {
                self.lemma_pos();
                before.lemma_pos();
                assert(n > 0);
                assert(s.skip(c as int).skip(n as int) =~= s.skip((c + n) as int));
                assert(roots_view(results@.push(root)) =~= roots_view(results@).push(root@));
            }
            results.push(root);
            proof {
                c = c + n;
            }
        }
        Ok(results)
    }

    /// Reads named roots one after another from a buffer.
    pub fn read_multiple_from_buffer(buffer: &[u8], max_depth: usize) -> (r: Result<
        Vec<TreeRoot>,
        NbtError,
    >)
        ensures
            match parse_all(Seq::empty(), buffer@, max_depth as nat) {
                Ok(rs) => r matches Ok(v) && roots_view(v@) == rs,
                Err(k) => r matches Err(e) && e.kind() == k,
            },
    {
        let mut serializer = Self::from_bytes(buffer);
        serializer.read_multiple(max_depth)
    }

    /// Replaces the bytes held with named roots, one after another.
    pub fn write_multiple(&mut self, data: &[TreeRoot]) -> (r: Result<(), NbtError>)
        ensures
            final(self).pos() == 0,
            all_err(roots_view(data@)) is None ==> r is Ok && final(self).data() == enc_all(
                roots_view(data@),
            ),
            all_err(roots_view(data@)) matches Some(k) ==> (r matches Err(e) && e.kind() == k),
    {
        let ghost rs = roots_view(data@);
        self.clear();
        let mut i: usize = 0;
        proof {
            assert(rs.take(0) =~= Seq::<(Seq<char>, NbtValue)>::empty());
            assert(self.data() =~= enc_all(rs.take(0)));
        }
        while i < data.len()
            invariant
                i <= data@.len(),
                rs == roots_view(data@),
                self.pos() == 0,
                self.data() == enc_all(rs.take(i as int)),
                all_err(rs.take(i as int)) is None,
            decreases data@.len() - i,
        {
            proof {
                assert(rs.take(i + 1) =~= rs.take(i as int).push(rs[i as int]));
                lemma_all_err_push(rs.take(i as int), rs[i as int]);
                lemma_enc_all_push(rs.take(i as int), rs[i as int]);
            }
            match self.write_root(&data[i]) {
                Ok(()) => {},
                Err(e) => {
                    proof {
                        lemma_all_err_prefix(rs, i + 1);
                    }
                    return Err(e);
                },
            }
            i = i + 1;
        }
        proof {
            assert(rs.take(rs.len() as int) =~= rs);
        }
        Ok(())
    }

    /// The bytes of named roots, one after another.
    pub fn write_multiple_to_bytes(data: &[TreeRoot]) -> (r: Result<Vec<u8>, NbtError>)
        ensures
            all_err(roots_view(data@)) is None ==> (r matches Ok(b) && b@ == enc_all(
                roots_view(data@),
            )),
            all_err(roots_view(data@)) matches Some(k) ==> (r matches Err(e) && e.kind() == k),
    {
        let mut serializer = Self::new(BinaryStream::new());
        serializer.write_multiple(data)?;
        Ok(serializer.to_bytes())
    }
}

} // verus!
