//! Tag types, the tag tree and its abstract value.
use crate::nbt::compound_tag::CompoundTag;
use crate::nbt::list_tag::ListTag;
use vstd::prelude::*;

verus! {

/// The type of a tag, as written in one byte before it.
#[derive(Debug, Clone, Copy, PartialEq, Eq, Hash, Structural)]
pub enum TagType {
    End,
    Byte,
    Short,
    Int,
    Long,
    Float,
    Double,
    ByteArray,
    String,
    List,
    Compound,
    IntArray,
}

impl TagType {
    /// The byte that stands for this type.
    pub open spec fn spec_id(self) -> u8 {
        match self {
            TagType::End => 0,
            TagType::Byte => 1,
            TagType::Short => 2,
            TagType::Int => 3,
            TagType::Long => 4,
            TagType::Float => 5,
            TagType::Double => 6,
            TagType::ByteArray => 7,
            TagType::String => 8,
            TagType::List => 9,
            TagType::Compound => 10,
            TagType::IntArray => 11,
        }
    }

    /// The type that a byte stands for, if any.
    pub open spec fn spec_from_id(id: u8) -> Option<TagType> {
        if id == 0 {
            Some(TagType::End)
        } else if id == 1 {
            Some(TagType::Byte)
        } else if id == 2 {
            Some(TagType::Short)
        } else if id == 3 {
            Some(TagType::Int)
        } else if id == 4 {
            Some(TagType::Long)
        } else if id == 5 {
            Some(TagType::Float)
        } else if id == 6 {
            Some(TagType::Double)
        } else if id == 7 {
            Some(TagType::ByteArray)
        } else if id == 8 {
            Some(TagType::String)
        } else if id == 9 {
            Some(TagType::List)
        } else if id == 10 {
            Some(TagType::Compound)
        } else if id == 11 {
            Some(TagType::IntArray)
        } else {
            None
        }
    }

    /// The name of this type.
    pub open spec fn spec_name(self) -> Seq<char> {
        match self {
            TagType::End => "End"@,
            TagType::Byte => "Byte"@,
            TagType::Short => "Short"@,
            TagType::Int => "Int"@,
            TagType::Long => "Long"@,
            TagType::Float => "Float"@,
            TagType::Double => "Double"@,
            TagType::ByteArray => "ByteArray"@,
            TagType::String => "String"@,
            TagType::List => "List"@,
            TagType::Compound => "Compound"@,
            TagType::IntArray => "IntArray"@,
        }
    }

    /// The byte that stands for this type.
    pub fn id(&self) -> (r: u8)
        ensures
            r == self.spec_id(),
    {
        match self {
            TagType::End => 0,
            TagType::Byte => 1,
            TagType::Short => 2,
            TagType::Int => 3,
            TagType::Long => 4,
            TagType::Float => 5,
            TagType::Double => 6,
            TagType::ByteArray => 7,
            TagType::String => 8,
            TagType::List => 9,
            TagType::Compound => 10,
            TagType::IntArray => 11,
        }
    }

    pub fn from_id(id: u8) -> (r: Option<Self>)
        ensures
            r == Self::spec_from_id(id),
    {
        match id {
            0 => Some(TagType::End),
            1 => Some(TagType::Byte),
            2 => Some(TagType::Short),
            3 => Some(TagType::Int),
            4 => Some(TagType::Long),
            5 => Some(TagType::Float),
            6 => Some(TagType::Double),
            7 => Some(TagType::ByteArray),
            8 => Some(TagType::String),
            9 => Some(TagType::List),
            10 => Some(TagType::Compound),
            11 => Some(TagType::IntArray),
            _ => None,
        }
    }

    pub fn get_name(&self) -> (r: &'static str)
        ensures
            r@ == self.spec_name(),
    {
        match self {
            TagType::End => "End",
            TagType::Byte => "Byte",
            TagType::Short => "Short",
            TagType::Int => "Int",
            TagType::Long => "Long",
            TagType::Float => "Float",
            TagType::Double => "Double",
            TagType::ByteArray => "ByteArray",
            TagType::String => "String",
            TagType::List => "List",
            TagType::Compound => "Compound",
            TagType::IntArray => "IntArray",
        }
    }
}

/// Each type's byte names it back.
pub proof fn lemma_tag_type_id_roundtrip(t: TagType)
    ensures
        TagType::spec_from_id(t.spec_id()) == Some(t),
{
}

/// A byte that names a type is that type's byte.
pub proof fn lemma_tag_type_from_id(id: u8)
    ensures
        TagType::spec_from_id(id) matches Some(t) ==> t.spec_id() == id,
        TagType::spec_from_id(id) is Some <==> id <= 11,
{
}

/// The abstract value of a tag. Floating-point payloads are held as their IEEE-754 bits.
pub enum NbtValue {
    Byte(i8),
    Short(i16),
    Int(i32),
    Long(i64),
    Float(u32),
    Double(u64),
    ByteArray(Seq<u8>),
    String(Seq<char>),
    List(TagType, Seq<NbtValue>),
    Compound(Seq<(Seq<char>, NbtValue)>),
    IntArray(Seq<i32>),
}

impl NbtValue {
    /// The type of a value.
    pub open spec fn tag_type(self) -> TagType {
        match self {
            NbtValue::Byte(_) => TagType::Byte,
            NbtValue::Short(_) => TagType::Short,
            NbtValue::Int(_) => TagType::Int,
            NbtValue::Long(_) => TagType::Long,
            NbtValue::Float(_) => TagType::Float,
            NbtValue::Double(_) => TagType::Double,
            NbtValue::ByteArray(_) => TagType::ByteArray,
            NbtValue::String(_) => TagType::String,
            NbtValue::List(_, _) => TagType::List,
            NbtValue::Compound(_) => TagType::Compound,
            NbtValue::IntArray(_) => TagType::IntArray,
        }
    }
}

/// No two entries share a name.
pub open spec fn names_distinct(es: Seq<(Seq<char>, NbtValue)>) -> bool {
    forall|i: int, j: int| 0 <= i < j < es.len() ==> es[i].0 != es[j].0
}

/// A well-formed tree: every list holds values of its own type only (and a list of
/// `End` is empty), and no compound has two entries of one name.
pub open spec fn wf_value(v: NbtValue) -> bool
    decreases v,
{
    match v {
        NbtValue::List(ty, es) => wf_list(ty, es),
        NbtValue::Compound(es) => names_distinct(es) && wf_entries(es),
        _ => true,
    }
}

pub open spec fn wf_list(ty: TagType, es: Seq<NbtValue>) -> bool
    decreases es,
{
    if es.len() == 0 {
        true
    } else {
        ty != TagType::End && es[0].tag_type() == ty && wf_value(es[0]) && wf_list(
            ty,
            es.drop_first(),
        )
    }
}

pub open spec fn wf_entries(es: Seq<(Seq<char>, NbtValue)>) -> bool
    decreases es,
{
    if es.len() == 0 {
        true
    } else {
        wf_value(es[0].1) && wf_entries(es.drop_first())
    }
}

// ---------------------------------------------------------------------------
// The executable tree
// ---------------------------------------------------------------------------

#[derive(Debug, Clone, Copy, PartialEq, Eq)]
pub struct ByteTag {
    pub value: i8,
}

#[derive(Debug, Clone, Copy, PartialEq, Eq)]
pub struct ShortTag {
    pub value: i16,
}

#[derive(Debug, Clone, Copy, PartialEq, Eq)]
pub struct IntTag {
    pub value: i32,
}

#[derive(Debug, Clone, Copy, PartialEq, Eq)]
pub struct LongTag {
    pub value: i64,
}

#[derive(Debug)]
pub struct ByteArrayTag {
    pub value: Vec<u8>,
}

#[derive(Debug)]
pub struct StringTag {
    pub value: String,
}

#[derive(Debug)]
pub struct IntArrayTag {
    pub value: Vec<i32>,
}

impl ByteTag {
    pub fn new(value: i8) -> (r: Self)
        ensures
            r.value == value,
    {
        ByteTag { value }
    }
}

impl ShortTag {
    pub fn new(value: i16) -> (r: Self)
        ensures
            r.value == value,
    {
        ShortTag { value }
    }
}

impl IntTag {
    pub fn new(value: i32) -> (r: Self)
        ensures
            r.value == value,
    {
        IntTag { value }
    }
}

impl LongTag {
    pub fn new(value: i64) -> (r: Self)
        ensures
            r.value == value,
    {
        LongTag { value }
    }
}

impl ByteArrayTag {
    pub fn new(value: Vec<u8>) -> (r: Self)
        ensures
            r.value@ == value@,
    {
        ByteArrayTag { value }
    }
}

impl StringTag {
    pub fn new(value: String) -> (r: Self)
        ensures
            r.value@ == value@,
    {
        StringTag { value }
    }
}

impl IntArrayTag {
    pub fn new(value: Vec<i32>) -> (r: Self)
        ensures
            r.value@ == value@,
    {
        IntArrayTag { value }
    }
}

/// A tag. `Float` and `Double` hold the IEEE-754 bits of their value.
#[derive(Debug)]
pub enum Tag {
    Byte(ByteTag),
    Short(ShortTag),
    Int(IntTag),
    Long(LongTag),
    Float(u32),
    Double(u64),
    ByteArray(ByteArrayTag),
    String(StringTag),
    List(ListTag),
    Compound(CompoundTag),
    IntArray(IntArrayTag),
}

/// The abstract value of a tag.
pub open spec fn tag_view(t: Tag) -> NbtValue
    decreases t,
{
    match t {
        Tag::Byte(b) => NbtValue::Byte(b.value),
        Tag::Short(b) => NbtValue::Short(b.value),
        Tag::Int(b) => NbtValue::Int(b.value),
        Tag::Long(b) => NbtValue::Long(b.value),
        Tag::Float(b) => NbtValue::Float(b),
        Tag::Double(b) => NbtValue::Double(b),
        Tag::ByteArray(b) => NbtValue::ByteArray(b.value@),
        Tag::String(b) => NbtValue::String(b.value@),
        Tag::List(l) => {
            proof {
                l.lemma_elems_decreases();
            }
            NbtValue::List(l.ty(), tags_view(l.elems()))
        },
        Tag::Compound(c) => {
            proof {
                c.lemma_entries_decreases();
            }
            NbtValue::Compound(entries_view(c.entries()))
        },
        Tag::IntArray(b) => NbtValue::IntArray(b.value@),
    }
}

/// The abstract values of a sequence of tags.
pub open spec fn tags_view(s: Seq<Tag>) -> Seq<NbtValue>
    decreases s,
{
    if s.len() == 0 {
        Seq::empty()
    } else {
        seq![tag_view(s[0])] + tags_view(s.drop_first())
    }
}

/// The abstract values of a compound's entries.
pub open spec fn entries_view(s: Seq<(String, Tag)>) -> Seq<(Seq<char>, NbtValue)>
    decreases s,
{
    if s.len() == 0 {
        Seq::empty()
    } else {
        seq![(s[0].0@, tag_view(s[0].1))] + entries_view(s.drop_first())
    }
}

/// The view of a sequence of tags has one value per tag, each that tag's view.
pub proof fn lemma_tags_view(s: Seq<Tag>)
    ensures
        tags_view(s).len() == s.len(),
        forall|i: int| 0 <= i < s.len() ==> #[trigger] tags_view(s)[i] == tag_view(s[i]),
    decreases s.len(),
{
    if s.len() > 0 {
        lemma_tags_view(s.drop_first());
        assert forall|i: int| 0 <= i < s.len() implies #[trigger] tags_view(s)[i] == tag_view(
            s[i],
        ) by {
            if i > 0 {
                assert(s.drop_first()[i - 1] == s[i]);
            }
        }
    }
}

/// The view of a compound's entries has one pair per entry: its name and its value.
pub proof fn lemma_entries_view(s: Seq<(String, Tag)>)
    ensures
        entries_view(s).len() == s.len(),
        forall|i: int|
            0 <= i < s.len() ==> #[trigger] entries_view(s)[i] == (s[i].0@, tag_view(s[i].1)),
    decreases s.len(),
{
    if s.len() > 0 {
        lemma_entries_view(s.drop_first());
        assert forall|i: int| 0 <= i < s.len() implies #[trigger] entries_view(s)[i] == (
            s[i].0@,
            tag_view(s[i].1),
        ) by {
            if i > 0 {
                assert(s.drop_first()[i - 1] == s[i]);
            }
        }
    }
}

impl View for Tag {
    type V = NbtValue;

    open spec fn view(&self) -> NbtValue {
        tag_view(*self)
    }
}

impl Tag {
    /// A deep copy.
    pub fn clone_tag(&self) -> (r: Tag)
        ensures
            r@ == self@,
        decreases self,
    {
        match self {
            Tag::Byte(b) => Tag::Byte(ByteTag { value: b.value }),
            Tag::Short(b) => Tag::Short(ShortTag { value: b.value }),
            Tag::Int(b) => Tag::Int(IntTag { value: b.value }),
            Tag::Long(b) => Tag::Long(LongTag { value: b.value }),
            Tag::Float(b) => Tag::Float(*b),
            Tag::Double(b) => Tag::Double(*b),
            Tag::ByteArray(b) => {
                let v = b.value.clone();
                assert(v@ =~= b.value@);
                Tag::ByteArray(ByteArrayTag { value: v })
            },
            Tag::String(b) => Tag::String(StringTag { value: b.value.clone() }),
            Tag::List(l) => Tag::List(l.clone_list()),
            Tag::Compound(c) => Tag::Compound(c.clone_compound()),
            Tag::IntArray(b) => {
                let v = b.value.clone();
                assert(v@ =~= b.value@);
                Tag::IntArray(IntArrayTag { value: v })
            },
        }
    }

    pub fn get_type(&self) -> (r: TagType)
        ensures
            r == self@.tag_type(),
    {
        match self {
            Tag::Byte(_) => TagType::Byte,
            Tag::Short(_) => TagType::Short,
            Tag::Int(_) => TagType::Int,
            Tag::Long(_) => TagType::Long,
            Tag::Float(_) => TagType::Float,
            Tag::Double(_) => TagType::Double,
            Tag::ByteArray(_) => TagType::ByteArray,
            Tag::String(_) => TagType::String,
            Tag::List(_) => TagType::List,
            Tag::Compound(_) => TagType::Compound,
            Tag::IntArray(_) => TagType::IntArray,
        }
    }
}

} // verus!
