//! The little-endian NBT encoding, stated as functions on abstract values and bytes.
use crate::binary::{le_u16, le_u32, le_u64, u16_le, u32_le, u64_le};
use crate::nbt::error::NbtErrorKind;
use crate::nbt::tag::{names_distinct, NbtValue, TagType};
use vstd::prelude::*;
use vstd::utf8::*;

verus! {

/// The largest length a string may have, in UTF-8 bytes.
pub open spec fn max_string_len() -> nat {
    0x7fff
}

/// The largest length an array or list may have.
pub open spec fn max_array_len() -> nat {
    0x7fff_ffff
}

// ---------------------------------------------------------------------------
// Writing
// ---------------------------------------------------------------------------

/// A string: its UTF-8 length as a little-endian 16-bit value, then its UTF-8 bytes.
pub open spec fn enc_string(s: Seq<char>) -> Seq<u8> {
    u16_le(encode_utf8(s).len() as u16) + encode_utf8(s)
}

/// 32-bit values, each little-endian, one after another.
pub open spec fn enc_ints(a: Seq<i32>) -> Seq<u8>
    decreases a.len(),
{
    if a.len() == 0 {
        Seq::empty()
    } else {
        u32_le(a[0] as u32) + enc_ints(a.drop_first())
    }
}

/// The bytes of a value, without its type byte.
pub open spec fn enc_payload(v: NbtValue) -> Seq<u8>
    decreases v,
{
    match v {
        NbtValue::Byte(b) => seq![b as u8],
        NbtValue::Short(x) => u16_le(x as u16),
        NbtValue::Int(x) => u32_le(x as u32),
        NbtValue::Long(x) => u64_le(x as u64),
        NbtValue::Float(b) => u32_le(b),
        NbtValue::Double(b) => u64_le(b),
        NbtValue::ByteArray(a) => u32_le(a.len() as u32) + a,
        NbtValue::String(s) => enc_string(s),
        NbtValue::List(ty, es) => seq![ty.spec_id()] + u32_le(es.len() as u32) + enc_list(es),
        NbtValue::Compound(es) => enc_entries(es) + seq![0u8],
        NbtValue::IntArray(a) => u32_le(a.len() as u32) + enc_ints(a),
    }
}

/// The payloads of a list's values, one after another.
pub open spec fn enc_list(es: Seq<NbtValue>) -> Seq<u8>
    decreases es,
{
    if es.len() == 0 {
        Seq::empty()
    } else {
        enc_payload(es[0]) + enc_list(es.drop_first())
    }
}

/// A compound's entries, each as type byte, name and payload.
pub open spec fn enc_entries(es: Seq<(Seq<char>, NbtValue)>) -> Seq<u8>
    decreases es,
{
    if es.len() == 0 {
        Seq::empty()
    } else {
        seq![es[0].1.tag_type().spec_id()] + enc_string(es[0].0) + enc_payload(es[0].1)
            + enc_entries(es.drop_first())
    }
}

/// The error, if any, of writing a string.
pub open spec fn string_err(s: Seq<char>) -> Option<NbtErrorKind> {
    if encode_utf8(s).len() > max_string_len() {
        Some(NbtErrorKind::InvalidTagValue)
    } else {
        None
    }
}

/// The first error met while writing a value, if any.
pub open spec fn write_err(v: NbtValue) -> Option<NbtErrorKind>
    decreases v,
{
    match v {
        NbtValue::ByteArray(a) => if a.len() > max_array_len() {
            Some(NbtErrorKind::InvalidTagValue)
        } else {
            None
        },
        NbtValue::String(s) => string_err(s),
        NbtValue::List(ty, es) => if es.len() > max_array_len() {
            Some(NbtErrorKind::Data)
        } else {
            list_err(es)
        },
        NbtValue::Compound(es) => entries_err(es),
        NbtValue::IntArray(a) => if a.len() > max_array_len() {
            Some(NbtErrorKind::InvalidTagValue)
        } else {
            None
        },
        _ => None,
    }
}

pub open spec fn list_err(es: Seq<NbtValue>) -> Option<NbtErrorKind>
    decreases es,
{
    if es.len() == 0 {
        None
    } else if write_err(es[0]) is Some {
        write_err(es[0])
    } else {
        list_err(es.drop_first())
    }
}

pub open spec fn entries_err(es: Seq<(Seq<char>, NbtValue)>) -> Option<NbtErrorKind>
    decreases es,
{
    if es.len() == 0 {
        None
    } else if string_err(es[0].0) is Some {
        string_err(es[0].0)
    } else if write_err(es[0].1) is Some {
        write_err(es[0].1)
    } else {
        entries_err(es.drop_first())
    }
}

/// Encoding one more value appends its bytes.
pub proof fn lemma_enc_ints_push(a: Seq<i32>, x: i32)
    ensures
        enc_ints(a.push(x)) == enc_ints(a) + u32_le(x as u32),
    decreases a.len(),
{
    if a.len() == 0 {
        assert(a.push(x).drop_first() =~= Seq::<i32>::empty());
        assert(enc_ints(a.push(x).drop_first()) =~= Seq::<u8>::empty());
        assert(enc_ints(a) =~= Seq::<u8>::empty());
        assert(enc_ints(a.push(x)) =~= enc_ints(a) + u32_le(x as u32));
    } else {
        assert(a.push(x).drop_first() =~= a.drop_first().push(x));
        lemma_enc_ints_push(a.drop_first(), x);
        assert(enc_ints(a.push(x)) =~= enc_ints(a) + u32_le(x as u32));
    }
}

/// Encoding one more list value appends its payload.
pub proof fn lemma_enc_list_push(es: Seq<NbtValue>, v: NbtValue)
    ensures
        enc_list(es.push(v)) == enc_list(es) + enc_payload(v),
    decreases es.len(),
{
    if es.len() == 0 {
        assert(es.push(v).drop_first() =~= Seq::<NbtValue>::empty());
        assert(enc_list(es.push(v).drop_first()) =~= Seq::<u8>::empty());
        assert(enc_list(es) =~= Seq::<u8>::empty());
        assert(enc_list(es.push(v)) =~= enc_list(es) + enc_payload(v));
    } else {
        assert(es.push(v).drop_first() =~= es.drop_first().push(v));
        lemma_enc_list_push(es.drop_first(), v);
        assert(enc_list(es.push(v)) =~= enc_list(es) + enc_payload(v));
    }
}

/// The first error of a list with one more value.
pub proof fn lemma_list_err_push(es: Seq<NbtValue>, v: NbtValue)
    ensures
        list_err(es.push(v)) == if list_err(es) is Some {
            list_err(es)
        } else {
            write_err(v)
        },
    decreases es.len(),
{
    if es.len() == 0 {
        assert(es.push(v).drop_first() =~= Seq::<NbtValue>::empty());
        assert(list_err(es.push(v).drop_first()) is None);
        assert(es.push(v)[0] == v);
    } else {
        assert(es.push(v).drop_first() =~= es.drop_first().push(v));
        assert(es.push(v)[0] == es[0]);
        lemma_list_err_push(es.drop_first(), v);
    }
}

/// An error among the first values of a list is the list's first error.
pub proof fn lemma_list_err_prefix(es: Seq<NbtValue>, j: int)
    requires
        0 <= j <= es.len(),
        list_err(es.take(j)) is Some,
    ensures
        list_err(es) == list_err(es.take(j)),
    decreases es.len() - j,
{
    if j < es.len() {
        assert(es.take(j + 1) =~= es.take(j).push(es[j]));
        lemma_list_err_push(es.take(j), es[j]);
        lemma_list_err_prefix(es, j + 1);
    } else {
        assert(es.take(j) =~= es);
    }
}

/// Encoding one more entry appends its bytes.
pub proof fn lemma_enc_entries_push(es: Seq<(Seq<char>, NbtValue)>, e: (Seq<char>, NbtValue))
    ensures
        enc_entries(es.push(e)) == enc_entries(es) + (seq![e.1.tag_type().spec_id()] + enc_string(
            e.0,
        ) + enc_payload(e.1)),
    decreases es.len(),
{
    if es.len() == 0 {
        assert(es.push(e).drop_first() =~= Seq::<(Seq<char>, NbtValue)>::empty());
        assert(enc_entries(es.push(e).drop_first()) =~= Seq::<u8>::empty());
        assert(enc_entries(es) =~= Seq::<u8>::empty());
        assert(enc_entries(es.push(e)) =~= enc_entries(es) + (seq![e.1.tag_type().spec_id()]
            + enc_string(e.0) + enc_payload(e.1)));
    } else {
        assert(es.push(e).drop_first() =~= es.drop_first().push(e));
        lemma_enc_entries_push(es.drop_first(), e);
        assert(enc_entries(es.push(e)) =~= enc_entries(es) + (seq![e.1.tag_type().spec_id()]
            + enc_string(e.0) + enc_payload(e.1)));
    }
}

/// The first error of a compound with one more entry.
pub proof fn lemma_entries_err_push(es: Seq<(Seq<char>, NbtValue)>, e: (Seq<char>, NbtValue))
    ensures
        entries_err(es.push(e)) == if entries_err(es) is Some {
            entries_err(es)
        } else if string_err(e.0) is Some {
            string_err(e.0)
        } else {
            write_err(e.1)
        },
    decreases es.len(),
{
    if es.len() == 0 {
        assert(es.push(e).drop_first() =~= Seq::<(Seq<char>, NbtValue)>::empty());
        assert(entries_err(es.push(e).drop_first()) is None);
        assert(es.push(e)[0] == e);
    } else {
        assert(es.push(e).drop_first() =~= es.drop_first().push(e));
        assert(es.push(e)[0] == es[0]);
        lemma_entries_err_push(es.drop_first(), e);
    }
}

/// An error among the first entries is the compound's first error.
pub proof fn lemma_entries_err_prefix(es: Seq<(Seq<char>, NbtValue)>, j: int)
    requires
        0 <= j <= es.len(),
        entries_err(es.take(j)) is Some,
    ensures
        entries_err(es) == entries_err(es.take(j)),
    decreases es.len() - j,
{
    if j < es.len() {
        assert(es.take(j + 1) =~= es.take(j).push(es[j]));
        lemma_entries_err_push(es.take(j), es[j]);
        lemma_entries_err_prefix(es, j + 1);
    } else {
        assert(es.take(j) =~= es);
    }
}

// ---------------------------------------------------------------------------
// Reading
// ---------------------------------------------------------------------------

/// The depth at which a nested list or compound is read, or why it may not be.
/// A limit of 0 means no limit.
pub open spec fn descend(depth: nat, max: nat) -> Result<nat, NbtErrorKind> {
    if max == 0 {
        Ok(depth)
    } else if depth >= usize::MAX {
        Err(NbtErrorKind::Data)
    } else if depth + 1 > max {
        Err(NbtErrorKind::DepthLimitExceeded)
    } else {
        Ok(depth + 1)
    }
}

/// Reads a string: its value and the bytes it took.
pub open spec fn parse_string(s: Seq<u8>) -> Result<(Seq<char>, nat), NbtErrorKind> {
    if s.len() < 2 {
        Err(NbtErrorKind::Io)
    } else {
        let len = le_u16(s) as i16;
        if len < 0 {
            Err(NbtErrorKind::Data)
        } else if s.len() < 2 + len {
            Err(NbtErrorKind::Io)
        } else if valid_utf8(s.subrange(2, 2 + len)) {
            Ok((decode_utf8(s.subrange(2, 2 + len)), (2 + len) as nat))
        } else {
            Err(NbtErrorKind::Utf8)
        }
    }
}

/// The array length at the start of the bytes, read as a signed 32-bit value.
pub open spec fn array_len(s: Seq<u8>) -> i32 {
    le_u32(s) as i32
}

/// The 32-bit values of `count` little-endian words.
pub open spec fn ints_of(s: Seq<u8>, count: nat) -> Seq<i32> {
    Seq::new(count, |i: int| le_u32(s.subrange(4 * i, 4 * i + 4)) as i32)
}

/// Reads the payload of a value of type `ty`, nested `depth` levels deep under a limit
/// of `max`: the value and the bytes it took, or the error met.
pub open spec fn parse_payload(ty: TagType, s: Seq<u8>, depth: nat, max: nat) -> Result<
    (NbtValue, nat),
    NbtErrorKind,
>
    decreases s.len(), 1nat,
{
    match ty {
        TagType::End => Err(NbtErrorKind::Data),
        TagType::Byte => if s.len() >= 1 {
            Ok((NbtValue::Byte(s[0] as i8), 1nat))
        } else {
            Err(NbtErrorKind::Io)
        },
        TagType::Short => if s.len() >= 2 {
            Ok((NbtValue::Short(le_u16(s) as i16), 2nat))
        } else {
            Err(NbtErrorKind::Io)
        },
        TagType::Int => if s.len() >= 4 {
            Ok((NbtValue::Int(le_u32(s) as i32), 4nat))
        } else {
            Err(NbtErrorKind::Io)
        },
        TagType::Long => if s.len() >= 8 {
            Ok((NbtValue::Long(le_u64(s) as i64), 8nat))
        } else {
            Err(NbtErrorKind::Io)
        },
        TagType::Float => if s.len() >= 4 {
            Ok((NbtValue::Float(le_u32(s)), 4nat))
        } else {
            Err(NbtErrorKind::Io)
        },
        TagType::Double => if s.len() >= 8 {
            Ok((NbtValue::Double(le_u64(s)), 8nat))
        } else {
            Err(NbtErrorKind::Io)
        },
        TagType::ByteArray => if s.len() < 4 {
            Err(NbtErrorKind::Io)
        } else if array_len(s) < 0 {
            Err(NbtErrorKind::Data)
        } else if s.len() < 4 + array_len(s) {
            Err(NbtErrorKind::Io)
        } else {
            Ok(
                (
                    NbtValue::ByteArray(s.subrange(4, 4 + array_len(s))),
                    (4 + array_len(s)) as nat,
                ),
            )
        },
        TagType::String => match parse_string(s) {
            Ok((v, n)) => Ok((NbtValue::String(v), n)),
            Err(k) => Err(k),
        },
        TagType::IntArray => if s.len() < 4 {
            Err(NbtErrorKind::Io)
        } else if array_len(s) < 0 {
            Err(NbtErrorKind::Data)
        } else if s.len() < 4 + 4 * array_len(s) {
            Err(NbtErrorKind::Io)
        } else {
            Ok(
                (
                    NbtValue::IntArray(ints_of(s.skip(4), array_len(s) as nat)),
                    (4 + 4 * array_len(s)) as nat,
                ),
            )
        },
        TagType::List => match descend(depth, max) {
            Err(k) => Err(k),
            Ok(d) => parse_list_body(s, d, max),
        },
        TagType::Compound => match descend(depth, max) {
            Err(k) => Err(k),
            Ok(d) => match parse_entries(Seq::empty(), s, d, max) {
                Ok((es, n)) => Ok((NbtValue::Compound(es), n)),
                Err(k) => Err(k),
            },
        },
    }
}

/// Reads a list: its element type, its size, then its elements.
pub open spec fn parse_list_body(s: Seq<u8>, depth: nat, max: nat) -> Result<
    (NbtValue, nat),
    NbtErrorKind,
>
    decreases s.len(), 0nat,
{
    if s.len() < 5 {
        Err(NbtErrorKind::Io)
    } else {
        let size = array_len(s.skip(1));
        match TagType::spec_from_id(s[0]) {
            None => Err(NbtErrorKind::Data),
            Some(ty) => if size < 0 {
                Err(NbtErrorKind::Data)
            } else if size > 0 && ty == TagType::End {
                Err(NbtErrorKind::Data)
            } else {
                match parse_elems(ty, size as nat, Seq::empty(), s.skip(5), depth, max) {
                    Ok((vs, n)) => Ok((NbtValue::List(ty, vs), 5 + n)),
                    Err(k) => Err(k),
                }
            },
        }
    }
}

/// Reads `count` more payloads of type `ty` after those in `acc`.
pub open spec fn parse_elems(
    ty: TagType,
    count: nat,
    acc: Seq<NbtValue>,
    s: Seq<u8>,
    depth: nat,
    max: nat,
) -> Result<(Seq<NbtValue>, nat), NbtErrorKind>
    decreases s.len(), 2nat,
{
    if count == 0 {
        Ok((acc, 0nat))
    } else {
        match parse_payload(ty, s, depth, max) {
            Err(k) => Err(k),
            Ok((v, n)) => if n == 0 || n > s.len() {
                Err(NbtErrorKind::Data)
            } else {
                match parse_elems(ty, (count - 1) as nat, acc.push(v), s.skip(n as int), depth, max) {
                    Err(k) => Err(k),
                    Ok((vs, m)) => Ok((vs, n + m)),
                }
            },
        }
    }
}

/// The index of the entry with a name, or -1.
pub open spec fn name_index(es: Seq<(Seq<char>, NbtValue)>, name: Seq<char>) -> int
    decreases es.len(),
{
    if es.len() == 0 {
        -1
    } else if es[0].0 == name {
        0
    } else {
        let r = name_index(es.drop_first(), name);
        if r < 0 {
            -1
        } else {
            r + 1
        }
    }
}

/// Sets the value of a name: in place if the name is there, else as a new last entry.
pub open spec fn upsert(es: Seq<(Seq<char>, NbtValue)>, name: Seq<char>, v: NbtValue) -> Seq<
    (Seq<char>, NbtValue),
> {
    let i = name_index(es, name);
    if i < 0 {
        es.push((name, v))
    } else {
        es.update(i, (name, v))
    }
}

/// The outcome of a read that comes after `c` bytes already read: the same value,
/// counted with those bytes.
pub open spec fn shifted<T>(r: Result<(T, nat), NbtErrorKind>, c: nat) -> Result<(T, nat), NbtErrorKind> {
    match r {
        Ok((v, n)) => Ok((v, n + c)),
        Err(k) => Err(k),
    }
}

/// Where a name stands among entries: the first entry with that name, or -1.
pub proof fn lemma_name_index(es: Seq<(Seq<char>, NbtValue)>, name: Seq<char>)
    ensures
        -1 <= name_index(es, name) < es.len(),
        name_index(es, name) >= 0 ==> es[name_index(es, name)].0 == name,
        forall|j: int| 0 <= j < es.len() && (name_index(es, name) < 0 || j < name_index(es, name))
            ==> #[trigger] es[j].0 != name,
    decreases es.len(),
{
    if es.len() > 0 {
        lemma_name_index(es.drop_first(), name);
        assert forall|j: int|
            0 <= j < es.len() && (name_index(es, name) < 0 || j < name_index(es, name)) implies #[trigger] es[j].0
            != name by {
            if j > 0 {
                assert(es.drop_first()[j - 1] == es[j]);
            }
        }
    }
}

/// Setting a name keeps the names distinct.
pub proof fn lemma_upsert_distinct(es: Seq<(Seq<char>, NbtValue)>, name: Seq<char>, v: NbtValue)
    requires
        names_distinct(es),
    ensures
        names_distinct(upsert(es, name, v)),
        name_index(upsert(es, name, v), name) >= 0,
        upsert(es, name, v)[name_index(upsert(es, name, v), name)].1 == v,
{
    lemma_name_index(es, name);
    let r = upsert(es, name, v);
    lemma_name_index(r, name);
    let i = name_index(es, name);
    if i < 0 {
        assert(r[es.len() as int].0 == name);
    } else {
        assert(r[i].0 == name);
    }
}

/// Removes the entry with a name, if there is one.
pub open spec fn remove_name(es: Seq<(Seq<char>, NbtValue)>, name: Seq<char>) -> Seq<
    (Seq<char>, NbtValue),
> {
    let i = name_index(es, name);
    if i < 0 {
        es
    } else {
        es.remove(i)
    }
}

/// Removing an entry keeps the names distinct, and leaves no entry of that name.
pub proof fn lemma_remove_name(es: Seq<(Seq<char>, NbtValue)>, name: Seq<char>)
    requires
        names_distinct(es),
    ensures
        names_distinct(remove_name(es, name)),
        name_index(remove_name(es, name), name) < 0,
{
    lemma_name_index(es, name);
    let r = remove_name(es, name);
    lemma_name_index(r, name);
    let i = name_index(es, name);
    if i >= 0 {
        assert forall|a: int, b: int| 0 <= a < b < r.len() implies r[a].0 != r[b].0 by {
            let a2 = if a < i { a } else { a + 1 };
            let b2 = if b < i { b } else { b + 1 };
            assert(r[a] == es[a2]);
            assert(r[b] == es[b2]);
        }
        if name_index(r, name) >= 0 {
            let k = name_index(r, name);
            let k2 = if k < i { k } else { k + 1 };
            assert(r[k] == es[k2]);
        }
    }
}

/// Sets each of `others`, in order, on top of `es`.
pub open spec fn upsert_all(es: Seq<(Seq<char>, NbtValue)>, others: Seq<(Seq<char>, NbtValue)>) -> Seq<
    (Seq<char>, NbtValue),
>
    decreases others.len(),
{
    if others.len() == 0 {
        es
    } else {
        upsert(upsert_all(es, others.drop_last()), others.last().0, others.last().1)
    }
}

/// Removes each of `names`, in order.
pub open spec fn remove_all(es: Seq<(Seq<char>, NbtValue)>, names: Seq<Seq<char>>) -> Seq<
    (Seq<char>, NbtValue),
>
    decreases names.len(),
{
    if names.len() == 0 {
        es
    } else {
        remove_name(remove_all(es, names.drop_last()), names.last())
    }
}

/// Reads a compound's entries up to and including the end byte, after those in `acc`.
pub open spec fn parse_entries(
    acc: Seq<(Seq<char>, NbtValue)>,
    s: Seq<u8>,
    depth: nat,
    max: nat,
) -> Result<(Seq<(Seq<char>, NbtValue)>, nat), NbtErrorKind>
    decreases s.len(), 0nat,
{
    if s.len() < 1 {
        Err(NbtErrorKind::Io)
    } else {
        match TagType::spec_from_id(s[0]) {
            None => Err(NbtErrorKind::Data),
            Some(TagType::End) => Ok((acc, 1nat)),
            Some(ty) => match parse_string(s.skip(1)) {
                Err(k) => Err(k),
                Ok((name, k)) => match parse_payload(ty, s.skip((1 + k) as int), depth, max) {
                    Err(e) => Err(e),
                    Ok((v, n)) => if 1 + k + n > s.len() {
                        Err(NbtErrorKind::Data)
                    } else {
                        match parse_entries(upsert(acc, name, v), s.skip((1 + k + n) as int), depth, max) {
                            Err(e) => Err(e),
                            Ok((es, m)) => Ok((es, 1 + k + n + m)),
                        }
                    },
                },
            },
        }
    }
}


// ---------------------------------------------------------------------------
// Named roots
// ---------------------------------------------------------------------------

/// A named root: its type byte, its name, then its payload.
pub open spec fn enc_root(name: Seq<char>, v: NbtValue) -> Seq<u8> {
    seq![v.tag_type().spec_id()] + enc_string(name) + enc_payload(v)
}

/// The first error met while writing a named root, if any.
pub open spec fn root_err(name: Seq<char>, v: NbtValue) -> Option<NbtErrorKind> {
    if string_err(name) is Some {
        string_err(name)
    } else {
        write_err(v)
    }
}

/// Reads a named root under the nesting limit `max`: the name and value, and the bytes
/// they took.
pub open spec fn parse_root(s: Seq<u8>, max: nat) -> Result<((Seq<char>, NbtValue), nat), NbtErrorKind> {
    if s.len() < 1 {
        Err(NbtErrorKind::Io)
    } else if s[0] == 0 {
        Err(NbtErrorKind::Data)
    } else {
        match TagType::spec_from_id(s[0]) {
            None => Err(NbtErrorKind::Data),
            Some(ty) => match parse_string(s.skip(1)) {
                Err(k) => Err(k),
                Ok((name, k)) => match parse_payload(ty, s.skip((1 + k) as int), 0, max) {
                    Err(e) => Err(e),
                    Ok((v, n)) => Ok(((name, v), 1 + k + n)),
                },
            },
        }
    }
}

/// Reads a payload whose type is given apart from the bytes.
pub open spec fn parse_headless(id: u8, s: Seq<u8>, max: nat) -> Result<(NbtValue, nat), NbtErrorKind> {
    match TagType::spec_from_id(id) {
        None => Err(NbtErrorKind::Data),
        Some(TagType::End) => Err(NbtErrorKind::Data),
        Some(ty) => parse_payload(ty, s, 0, max),
    }
}

/// Reads named roots one after another until the bytes end, after those in `acc`.
pub open spec fn parse_all(acc: Seq<(Seq<char>, NbtValue)>, s: Seq<u8>, max: nat) -> Result<
    Seq<(Seq<char>, NbtValue)>,
    NbtErrorKind,
>
    decreases s.len(),
{
    if s.len() == 0 {
        Ok(acc)
    } else {
        match parse_root(s, max) {
            Err(k) => Err(k),
            Ok((r, n)) => if n == 0 || n > s.len() {
                Err(NbtErrorKind::Data)
            } else {
                parse_all(acc.push(r), s.skip(n as int), max)
            },
        }
    }
}

/// Named roots, one after another.
pub open spec fn enc_all(rs: Seq<(Seq<char>, NbtValue)>) -> Seq<u8>
    decreases rs.len(),
{
    if rs.len() == 0 {
        Seq::empty()
    } else {
        enc_root(rs[0].0, rs[0].1) + enc_all(rs.drop_first())
    }
}

/// The first error met while writing named roots one after another, if any.
pub open spec fn all_err(rs: Seq<(Seq<char>, NbtValue)>) -> Option<NbtErrorKind>
    decreases rs.len(),
{
    if rs.len() == 0 {
        None
    } else if root_err(rs[0].0, rs[0].1) is Some {
        root_err(rs[0].0, rs[0].1)
    } else {
        all_err(rs.drop_first())
    }
}

/// Writing one more root appends its bytes.
pub proof fn lemma_enc_all_push(rs: Seq<(Seq<char>, NbtValue)>, r: (Seq<char>, NbtValue))
    ensures
        enc_all(rs.push(r)) == enc_all(rs) + enc_root(r.0, r.1),
    decreases rs.len(),
{
    if rs.len() == 0 {
        assert(rs.push(r).drop_first() =~= rs);
        assert(enc_all(rs.push(r).drop_first()) =~= Seq::<u8>::empty());
        assert(enc_all(rs) =~= Seq::<u8>::empty());
        assert(enc_all(rs.push(r)) =~= enc_all(rs) + enc_root(r.0, r.1));
    } else {
        assert(rs.push(r).drop_first() =~= rs.drop_first().push(r));
        lemma_enc_all_push(rs.drop_first(), r);
        assert(enc_all(rs.push(r)) =~= enc_all(rs) + enc_root(r.0, r.1));
    }
}

/// The first error of one more root.
pub proof fn lemma_all_err_push(rs: Seq<(Seq<char>, NbtValue)>, r: (Seq<char>, NbtValue))
    ensures
        all_err(rs.push(r)) == if all_err(rs) is Some {
            all_err(rs)
        } else {
            root_err(r.0, r.1)
        },
    decreases rs.len(),
{
    if rs.len() == 0 {
        assert(rs.push(r).drop_first() =~= rs);
        assert(all_err(rs.push(r).drop_first()) is None);
        assert(rs.push(r)[0] == r);
    } else {
        assert(rs.push(r).drop_first() =~= rs.drop_first().push(r));
        assert(rs.push(r)[0] == rs[0]);
        lemma_all_err_push(rs.drop_first(), r);
    }
}

/// An error among the first roots is the first error of them all.
pub proof fn lemma_all_err_prefix(rs: Seq<(Seq<char>, NbtValue)>, j: int)
    requires
        0 <= j <= rs.len(),
        all_err(rs.take(j)) is Some,
    ensures
        all_err(rs) == all_err(rs.take(j)),
    decreases rs.len() - j,
{
    if j < rs.len() {
        assert(rs.take(j + 1) =~= rs.take(j).push(rs[j]));
        lemma_all_err_push(rs.take(j), rs[j]);
        lemma_all_err_prefix(rs, j + 1);
    } else {
        assert(rs.take(j) =~= rs);
    }
}

} // verus!
