//! Named tags.
use crate::nbt::codec::{
    lemma_name_index, lemma_remove_name, lemma_upsert_distinct, max_string_len, name_index,
    remove_all, remove_name, upsert, upsert_all,
};
use crate::nbt::error::{NbtError, NbtErrorKind};
use crate::nbt::list_tag::ListTag;
use crate::nbt::tag::{
    entries_view, lemma_entries_view, names_distinct, tag_view, ByteArrayTag, ByteTag,
    IntArrayTag, IntTag, LongTag, NbtValue, ShortTag, StringTag, Tag,
};
use vstd::prelude::*;
use vstd::utf8::encode_utf8;

verus! {

/// Tags by name; no two entries share a name. Entries keep the order in which their
/// names were first set.
#[derive(Debug)]
pub struct CompoundTag {
    value: Vec<(String, Tag)>,
}

impl View for CompoundTag {
    type V = Seq<(Seq<char>, NbtValue)>;

    open spec fn view(&self) -> Seq<(Seq<char>, NbtValue)> {
        entries_view(self.entries())
    }
}

/// The outcome of setting `name` to a value of view `v`: a name longer than a string
/// may be is refused and nothing changes; otherwise the name holds `v`.
pub open spec fn set_outcome(
    before: CompoundTag,
    after: CompoundTag,
    r: Result<(), NbtError>,
    name: Seq<char>,
    v: NbtValue,
) -> bool {
    &&& encode_utf8(name).len() > max_string_len() ==> (r matches Err(e) && e.kind()
        == NbtErrorKind::InvalidTagValue) && after@ == before@
    &&& encode_utf8(name).len() <= max_string_len() ==> r is Ok && after@ == upsert(
        before@,
        name,
        v,
    )
    &&& before.wf() ==> after.wf()
}

/// The outcome of asking for a value by name with a fallback: the value if it is there
/// and of the type asked for (as `want` tells), the fallback if the name is absent, and
/// otherwise the error.
pub open spec fn get_outcome<T>(
    found: Option<NbtValue>,
    default: Option<T>,
    r: Result<T, NbtError>,
    want: spec_fn(NbtValue) -> Option<T>,
) -> bool {
    match found {
        None => match default {
            Some(d) => r == Ok::<T, NbtError>(d),
            None => r matches Err(e) && e.kind() == NbtErrorKind::NoSuchTag,
        },
        Some(v) => match want(v) {
            Some(x) => r == Ok::<T, NbtError>(x),
            None => r matches Err(e) && e.kind() == NbtErrorKind::UnexpectedTagType,
        },
    }
}

impl CompoundTag {
    /// The entries, in order.
    pub closed spec fn entries(&self) -> Seq<(String, Tag)> {
        self.value@
    }

    /// The entries of a compound lie below it.
    pub proof fn lemma_entries_decreases(&self)
        ensures
            decreases_to!(*self => self.entries()),
    {
        assert(decreases_to!(self.value => self.value@));
    }

    /// No two entries share a name.
    pub open spec fn wf(&self) -> bool {
        names_distinct(self@)
    }

    /// The value held under a name, if any.
    pub open spec fn lookup(&self, name: Seq<char>) -> Option<NbtValue> {
        let i = name_index(self@, name);
        if i < 0 {
            None
        } else {
            Some(self@[i].1)
        }
    }

    pub fn new() -> (r: Self)
        ensures
            r@ == Seq::<(Seq<char>, NbtValue)>::empty(),
            r.wf(),
    {
        CompoundTag { value: Vec::new() }
    }

    pub fn len(&self) -> (r: usize)
        ensures
            r == self@.len(),
    {
        proof {
            lemma_entries_view(self.entries());
        }
        self.value.len()
    }

    pub fn is_empty(&self) -> (r: bool)
        ensures
            r == (self@.len() == 0),
    {
        proof {
            lemma_entries_view(self.entries());
        }
        self.value.len() == 0
    }

    /// The index of the entry with a name, if any.
    fn find(&self, name: &String) -> (r: Option<usize>)
        ensures
            name_index(self@, name@) < 0 ==> r is None,
            name_index(self@, name@) >= 0 ==> (r matches Some(i) && i == name_index(self@, name@)),
            name_index(self@, name@) < self.entries().len(),
    {
        proof {
            lemma_entries_view(self.entries());
            lemma_name_index(self@, name@);
        }
        let mut i: usize = 0;
        while i < self.value.len()
            invariant
                i <= self.value@.len(),
                entries_view(self.entries()).len() == self.entries().len(),
                forall|j: int|
                    0 <= j < self.entries().len() ==> #[trigger] entries_view(self.entries())[j]
                        == (self.entries()[j].0@, tag_view(self.entries()[j].1)),
                forall|j: int| 0 <= j < i ==> #[trigger] self@[j].0 != name@,
                -1 <= name_index(self@, name@) < self@.len(),
                name_index(self@, name@) >= 0 ==> self@[name_index(self@, name@)].0 == name@,
                forall|j: int|
                    0 <= j < self@.len() && (name_index(self@, name@) < 0 || j < name_index(
                        self@,
                        name@,
                    )) ==> #[trigger] self@[j].0 != name@,
            decreases self.value@.len() - i,
        {
            if self.value[i].0 == *name {
                assert(self@[i as int].0 == name@);
                return Some(i);
            }
            assert(self@[i as int].0 != name@);
            i = i + 1;
        }
        None
    }

    /// Sets `name` to `tag`: in place if the name is there, else as a new last entry.
    pub(crate) fn insert_entry(&mut self, name: String, tag: Tag)
        ensures
            final(self)@ == upsert(old(self)@, name@, tag@),
            old(self).wf() ==> final(self).wf(),
    {
        proof {
            lemma_entries_view(self.entries());
            lemma_name_index(self@, name@);
            if self.wf() {
                lemma_upsert_distinct(self@, name@, tag@);
            }
        }
        match self.find(&name) {
            Some(i) => {
                let ghost nv = name@;
                let ghost tv = tag@;
                self.value[i] = (name, tag);
                proof {
                    lemma_entries_view(self.entries());
                    assert(self.entries() == old(self).entries().update(i as int, (name, tag)));
                    assert(self@[i as int] == (nv, tv));
                    assert forall|j: int| 0 <= j < self@.len() && j != i implies self@[j] == old(self)@[j] by {
                        assert(self.entries()[j] == old(self).entries()[j]);
                    }
                    assert(self@ =~= upsert(old(self)@, nv, tv));
                }
            },
            None => {
                self.value.push((name, tag));
                proof {
                    lemma_entries_view(self.entries());
                    assert(self@ =~= upsert(old(self)@, name@, tag@));
                }
            },
        }
    }

    /// A compound with the given entries.
    pub(crate) fn from_entries(value: Vec<(String, Tag)>) -> (r: Self)
        ensures
            r.entries() == value@,
    {
        CompoundTag { value }
    }

    pub fn contains_key(&self, name: &str) -> (r: bool)
        ensures
            r == (name_index(self@, name@) >= 0),
    {
        let key = name.to_owned();
        self.find(&key).is_some()
    }

    /// The tag held under a name, if any.
    pub fn get_tag(&self, name: &str) -> (r: Option<&Tag>)
        ensures
            name_index(self@, name@) < 0 ==> r is None,
            name_index(self@, name@) >= 0 ==> r == Some(&self.entries()[name_index(self@, name@)].1),
            r matches Some(t) ==> self.lookup(name@) == Some(t@),
    {
        proof {
            lemma_entries_view(self.entries());
        }
        let key = name.to_owned();
        match self.find(&key) {
            Some(i) => Some(&self.value[i].1),
            None => None,
        }
    }

    /// The tag held under a name, to change in place, if any; the name stays.
    pub fn get_tag_mut(&mut self, name: &str) -> (r: Option<&mut Tag>)
        ensures
            name_index(old(self)@, name@) < 0 ==> r is None && final(self).entries() == old(
                self,
            ).entries(),
            name_index(old(self)@, name@) >= 0 ==> r is Some && *r.unwrap() == old(
                self,
            ).entries()[name_index(old(self)@, name@)].1 && final(self).entries() == old(
                self,
            ).entries().update(
                name_index(old(self)@, name@),
                (old(self).entries()[name_index(old(self)@, name@)].0, *final(r.unwrap())),
            ),
    {
        let key = name.to_owned();
        match self.find(&key) {
            Some(i) => Some(&mut self.value[i].1),
            None => None,
        }
    }

    /// The list held under a name: none if the name is absent, an error if the tag there
    /// is not a list.
    pub fn get_list_tag(&self, name: &str) -> (r: Result<Option<&ListTag>, NbtError>)
        ensures
            name_index(self@, name@) < 0 ==> r == Ok::<Option<&ListTag>, NbtError>(None),
            name_index(self@, name@) >= 0 ==> match self.entries()[name_index(self@, name@)].1 {
                Tag::List(l) => r == Ok::<Option<&ListTag>, NbtError>(Some(&l)),
                _ => r matches Err(e) && e.kind() == NbtErrorKind::UnexpectedTagType,
            },
    {
        match self.get_tag(name) {
            None => Ok(None),
            Some(Tag::List(l)) => Ok(Some(l)),
            Some(_) => Err(NbtError::new_unexpected_tag_type("Expected tag to be a ListTag")),
        }
    }

    /// The compound held under a name: none if the name is absent, an error if the tag
    /// there is not a compound.
    pub fn get_compound_tag(&self, name: &str) -> (r: Result<Option<&CompoundTag>, NbtError>)
        ensures
            name_index(self@, name@) < 0 ==> r == Ok::<Option<&CompoundTag>, NbtError>(None),
            name_index(self@, name@) >= 0 ==> match self.entries()[name_index(self@, name@)].1 {
                Tag::Compound(c) => r == Ok::<Option<&CompoundTag>, NbtError>(Some(&c)),
                _ => r matches Err(e) && e.kind() == NbtErrorKind::UnexpectedTagType,
            },
    {
        match self.get_tag(name) {
            None => Ok(None),
            Some(Tag::Compound(c)) => Ok(Some(c)),
            Some(_) => Err(NbtError::new_unexpected_tag_type("Expected tag to be a CompoundTag")),
        }
    }

    pub fn get_byte(&self, name: &str, default: Option<i8>) -> (r: Result<i8, NbtError>)
        ensures
            get_outcome(
                self.lookup(name@),
                default,
                r,
                |v: NbtValue|
                    match v {
                        NbtValue::Byte(x) => Some(x),
                        _ => None,
                    },
            ),
    {
        match self.get_tag(name) {
            None => match default {
                Some(d) => Ok(d),
                None => Err(NbtError::new_no_such_tag("Tag does not exist")),
            },
            Some(Tag::Byte(t)) => Ok(t.value),
            Some(_) => Err(NbtError::new_unexpected_tag_type("Expected tag to be a ByteTag")),
        }
    }

    pub fn get_short(&self, name: &str, default: Option<i16>) -> (r: Result<i16, NbtError>)
        ensures
            get_outcome(
                self.lookup(name@),
                default,
                r,
                |v: NbtValue|
                    match v {
                        NbtValue::Short(x) => Some(x),
                        _ => None,
                    },
            ),
    {
        match self.get_tag(name) {
            None => match default {
                Some(d) => Ok(d),
                None => Err(NbtError::new_no_such_tag("Tag does not exist")),
            },
            Some(Tag::Short(t)) => Ok(t.value),
            Some(_) => Err(NbtError::new_unexpected_tag_type("Expected tag to be a ShortTag")),
        }
    }

    pub fn get_int(&self, name: &str, default: Option<i32>) -> (r: Result<i32, NbtError>)
        ensures
            get_outcome(
                self.lookup(name@),
                default,
                r,
                |v: NbtValue|
                    match v {
                        NbtValue::Int(x) => Some(x),
                        _ => None,
                    },
            ),
    {
        match self.get_tag(name) {
            None => match default {
                Some(d) => Ok(d),
                None => Err(NbtError::new_no_such_tag("Tag does not exist")),
            },
            Some(Tag::Int(t)) => Ok(t.value),
            Some(_) => Err(NbtError::new_unexpected_tag_type("Expected tag to be an IntTag")),
        }
    }

    pub fn get_long(&self, name: &str, default: Option<i64>) -> (r: Result<i64, NbtError>)
        ensures
            get_outcome(
                self.lookup(name@),
                default,
                r,
                |v: NbtValue|
                    match v {
                        NbtValue::Long(x) => Some(x),
                        _ => None,
                    },
            ),
    {
        match self.get_tag(name) {
            None => match default {
                Some(d) => Ok(d),
                None => Err(NbtError::new_no_such_tag("Tag does not exist")),
            },
            Some(Tag::Long(t)) => Ok(t.value),
            Some(_) => Err(NbtError::new_unexpected_tag_type("Expected tag to be a LongTag")),
        }
    }

    pub fn get_byte_array(&self, name: &str, default: Option<Vec<u8>>) -> (r: Result<
        Vec<u8>,
        NbtError,
    >)
        ensures
            get_outcome(
                self.lookup(name@),
                match default {
                    Some(d) => Some(d@),
                    None => None,
                },
                match r {
                    Ok(v) => Ok(v@),
                    Err(e) => Err(e),
                },
                |v: NbtValue|
                    match v {
                        NbtValue::ByteArray(x) => Some(x),
                        _ => None,
                    },
            ),
    {
        match self.get_tag(name) {
            None => match default {
                Some(d) => Ok(d),
                None => Err(NbtError::new_no_such_tag("Tag does not exist")),
            },
            Some(Tag::ByteArray(t)) => {
                let v = t.value.clone();
                assert(v@ =~= t.value@);
                Ok(v)
            },
            Some(_) => Err(NbtError::new_unexpected_tag_type("Expected tag to be a ByteArrayTag")),
        }
    }

    pub fn get_string(&self, name: &str, default: Option<String>) -> (r: Result<String, NbtError>)
        ensures
            get_outcome(
                self.lookup(name@),
                match default {
                    Some(d) => Some(d@),
                    None => None,
                },
                match r {
                    Ok(v) => Ok(v@),
                    Err(e) => Err(e),
                },
                |v: NbtValue|
                    match v {
                        NbtValue::String(x) => Some(x),
                        _ => None,
                    },
            ),
    {
        match self.get_tag(name) {
            None => match default {
                Some(d) => Ok(d),
                None => Err(NbtError::new_no_such_tag("Tag does not exist")),
            },
            Some(Tag::String(t)) => Ok(t.value.clone()),
            Some(_) => Err(NbtError::new_unexpected_tag_type("Expected tag to be a StringTag")),
        }
    }

    pub fn get_int_array(&self, name: &str, default: Option<Vec<i32>>) -> (r: Result<
        Vec<i32>,
        NbtError,
    >)
        ensures
            get_outcome(
                self.lookup(name@),
                match default {
                    Some(d) => Some(d@),
                    None => None,
                },
                match r {
                    Ok(v) => Ok(v@),
                    Err(e) => Err(e),
                },
                |v: NbtValue|
                    match v {
                        NbtValue::IntArray(x) => Some(x),
                        _ => None,
                    },
            ),
    {
        match self.get_tag(name) {
            None => match default {
                Some(d) => Ok(d),
                None => Err(NbtError::new_no_such_tag("Tag does not exist")),
            },
            Some(Tag::IntArray(t)) => {
                let v = t.value.clone();
                assert(v@ =~= t.value@);
                Ok(v)
            },
            Some(_) => Err(NbtError::new_unexpected_tag_type("Expected tag to be an IntArrayTag")),
        }
    }

    /// Sets `name` to `tag`. A name longer than a string may be is refused.
    pub fn set_tag(&mut self, name: String, tag: Tag) -> (r: Result<(), NbtError>)
        ensures
            set_outcome(*old(self), *final(self), r, name@, tag@),
    {
        if name.as_str().as_bytes().len() > 0x7fff {
            return Err(NbtError::new_invalid_tag_value("Tag name must be at most 32767 bytes"));
        }
        self.insert_entry(name, tag);
        Ok(())
    }

    /// Removes and returns the tag held under a name, if any.
    pub fn remove_tag(&mut self, name: &str) -> (r: Option<Tag>)
        ensures
            final(self)@ == remove_name(old(self)@, name@),
            name_index(old(self)@, name@) < 0 ==> r is None,
            name_index(old(self)@, name@) >= 0 ==> r == Some(
                old(self).entries()[name_index(old(self)@, name@)].1,
            ),
            old(self).wf() ==> final(self).wf(),
    {
        proof {
            lemma_entries_view(self.entries());
            if self.wf() {
                lemma_remove_name(self@, name@);
            }
        }
        let key = name.to_owned();
        match self.find(&key) {
            Some(i) => {
                let (_, t) = self.value.remove(i);
                proof {
                    lemma_entries_view(self.entries());
                    assert(self@ =~= remove_name(old(self)@, name@));
                }
                Some(t)
            },
            None => None,
        }
    }

    /// Removes each of the names, in order.
    pub fn remove_tags(&mut self, names: &[&str])
        ensures
            final(self)@ == remove_all(old(self)@, names@.map_values(|n: &str| n@)),
            old(self).wf() ==> final(self).wf(),
    {
        let ghost ns = names@.map_values(|n: &str| n@);
        let mut i: usize = 0;
        while i < names.len()
            invariant
                i <= names@.len(),
                ns == names@.map_values(|n: &str| n@),
                self@ == remove_all(old(self)@, ns.take(i as int)),
                old(self).wf() ==> self.wf(),
            decreases names@.len() - i,
        {
            self.remove_tag(names[i]);
            proof {
                assert(ns.take(i + 1).drop_last() =~= ns.take(i as int));
                assert(ns.take(i + 1).last() == names@[i as int]@);
            }
            i = i + 1;
        }
        proof {
            assert(ns.take(names@.len() as int) =~= ns);
        }
    }

    pub fn set_byte(&mut self, name: String, value: i8) -> (r: Result<(), NbtError>)
        ensures
            set_outcome(*old(self), *final(self), r, name@, NbtValue::Byte(value)),
    {
        self.set_tag(name, Tag::Byte(ByteTag::new(value)))
    }

    pub fn set_short(&mut self, name: String, value: i16) -> (r: Result<(), NbtError>)
        ensures
            set_outcome(*old(self), *final(self), r, name@, NbtValue::Short(value)),
    {
        self.set_tag(name, Tag::Short(ShortTag::new(value)))
    }

    pub fn set_int(&mut self, name: String, value: i32) -> (r: Result<(), NbtError>)
        ensures
            set_outcome(*old(self), *final(self), r, name@, NbtValue::Int(value)),
    {
        self.set_tag(name, Tag::Int(IntTag::new(value)))
    }

    pub fn set_long(&mut self, name: String, value: i64) -> (r: Result<(), NbtError>)
        ensures
            set_outcome(*old(self), *final(self), r, name@, NbtValue::Long(value)),
    {
        self.set_tag(name, Tag::Long(LongTag::new(value)))
    }

    pub fn set_byte_array(&mut self, name: String, value: Vec<u8>) -> (r: Result<(), NbtError>)
        ensures
            set_outcome(*old(self), *final(self), r, name@, NbtValue::ByteArray(value@)),
    {
        self.set_tag(name, Tag::ByteArray(ByteArrayTag::new(value)))
    }

    pub fn set_string(&mut self, name: String, value: String) -> (r: Result<(), NbtError>)
        ensures
            set_outcome(*old(self), *final(self), r, name@, NbtValue::String(value@)),
    {
        self.set_tag(name, Tag::String(StringTag::new(value)))
    }

    pub fn set_int_array(&mut self, name: String, value: Vec<i32>) -> (r: Result<(), NbtError>)
        ensures
            set_outcome(*old(self), *final(self), r, name@, NbtValue::IntArray(value@)),
    {
        self.set_tag(name, Tag::IntArray(IntArrayTag::new(value)))
    }

    pub fn set_list(&mut self, name: String, value: ListTag) -> (r: Result<(), NbtError>)
        ensures
            set_outcome(*old(self), *final(self), r, name@, value@),
    {
        self.set_tag(name, Tag::List(value))
    }

    pub fn set_compound(&mut self, name: String, value: CompoundTag) -> (r: Result<(), NbtError>)
        ensures
            set_outcome(*old(self), *final(self), r, name@, NbtValue::Compound(value@)),
    {
        self.set_tag(name, Tag::Compound(value))
    }

    /// The entries, in order.
    pub fn iter(&self) -> (r: &[(String, Tag)])
        ensures
            r@ == self.entries(),
    {
        self.value.as_slice()
    }

    /// A copy of this compound with each entry of `other` set on top, in order.
    pub fn merge(&self, other: &CompoundTag) -> (r: CompoundTag)
        ensures
            r@ == upsert_all(self@, other@),
            self.wf() ==> r.wf(),
    {
        let mut out = self.clone_compound();
        let mut i: usize = 0;
        proof {
            lemma_entries_view(other.entries());
            assert(other@.take(0) =~= Seq::<(Seq<char>, NbtValue)>::empty());
        }
        while i < other.value.len()
            invariant
                i <= other.entries().len(),
                other@.len() == other.entries().len(),
                forall|j: int|
                    0 <= j < other.entries().len() ==> #[trigger] other@[j] == (
                        other.entries()[j].0@,
                        tag_view(other.entries()[j].1),
                    ),
                out@ == upsert_all(self@, other@.take(i as int)),
                self.wf() ==> out.wf(),
            decreases other.entries().len() - i,
        {
            let name = other.value[i].0.clone();
            let tag = other.value[i].1.clone_tag();
            out.insert_entry(name, tag);
            proof {
                assert(other@.take(i + 1).drop_last() =~= other@.take(i as int));
                assert(other@.take(i + 1).last() == other@[i as int]);
            }
            i = i + 1;
        }
        proof {
            assert(other@.take(other@.len() as int) =~= other@);
        }
        out
    }

    /// A deep copy.
    pub fn clone_compound(&self) -> (r: CompoundTag)
        ensures
            r@ == self@,
        decreases self,
    {
        let mut out: Vec<(String, Tag)> = Vec::new();
        let mut i: usize = 0;
        proof {
            lemma_entries_view(self.entries());
        }
        while i < self.value.len()
            invariant
                i <= self.entries().len(),
                self@.len() == self.entries().len(),
                forall|j: int|
                    0 <= j < self.entries().len() ==> #[trigger] self@[j] == (
                        self.entries()[j].0@,
                        tag_view(self.entries()[j].1),
                    ),
                out@.len() == i,
                forall|j: int|
                    0 <= j < i ==> #[trigger] out@[j].0@ == self.entries()[j].0@ && tag_view(
                        out@[j].1,
                    ) == tag_view(self.entries()[j].1),
            decreases self.entries().len() - i,
        {
            proof {
                self.lemma_entries_decreases();
                assert(decreases_to!(self.entries() => self.entries()[i as int]));
            }
            let name = self.value[i].0.clone();
            let tag = self.value[i].1.clone_tag();
            out.push((name, tag));
            i = i + 1;
        }
        let r = CompoundTag { value: out };
        proof {
            lemma_entries_view(r.entries());
            assert(r@ =~= self@);
        }
        r
    }
}

} // verus!
