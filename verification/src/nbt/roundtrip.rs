//! What is written reads back as itself.
use crate::binary::{
    le_u16, le_u32, le_u64, lemma_u16_le, lemma_u32_le, lemma_u64_le, u16_le, u32_le, u64_le,
};
use crate::nbt::codec::{
    array_len, descend, enc_entries, enc_ints, enc_list, enc_payload, enc_string, entries_err,
    ints_of, lemma_name_index, list_err, max_array_len, name_index, parse_elems, parse_entries,
    parse_list_body, parse_payload, parse_string, shifted, string_err, upsert, write_err, enc_root,
    root_err, parse_root, parse_all, enc_all, parse_headless,
};
use crate::nbt::error::NbtErrorKind;
use crate::nbt::tag::{
    lemma_tag_type_id_roundtrip, names_distinct, wf_entries, wf_list, wf_value, NbtValue, TagType,
};
use vstd::prelude::*;
use vstd::utf8::{
    decode_utf8_encode_utf8, encode_utf8, encode_utf8_decode_utf8, encode_utf8_valid_utf8,
};

verus! {

/// How deeply lists and compounds nest inside a value (0 for a scalar).
pub open spec fn nesting(v: NbtValue) -> nat
    decreases v,
{
    match v {
        NbtValue::List(_, es) => 1 + list_nesting(es),
        NbtValue::Compound(es) => 1 + entries_nesting(es),
        _ => 0,
    }
}

/// The deepest nesting among a list's values.
pub open spec fn list_nesting(es: Seq<NbtValue>) -> nat
    decreases es,
{
    if es.len() == 0 {
        0
    } else {
        let a = nesting(es[0]);
        let b = list_nesting(es.drop_first());
        if a >= b {
            a
        } else {
            b
        }
    }
}

/// The deepest nesting among a compound's values.
pub open spec fn entries_nesting(es: Seq<(Seq<char>, NbtValue)>) -> nat
    decreases es,
{
    if es.len() == 0 {
        0
    } else {
        let a = nesting(es[0].1);
        let b = entries_nesting(es.drop_first());
        if a >= b {
            a
        } else {
            b
        }
    }
}

/// A value read at `depth` stays within the limit `max` (0 meaning no limit).
pub open spec fn fits(v: NbtValue, depth: nat, max: nat) -> bool {
    max == 0 || depth + nesting(v) <= max
}

proof fn lemma_i8_cast(x: i8)
    ensures
        (x as u8) as i8 == x,
{
    assert((x as u8) as i8 == x) by (bit_vector);
}

proof fn lemma_i16_cast(x: i16)
    ensures
        (x as u16) as i16 == x,
{
    assert((x as u16) as i16 == x) by (bit_vector);
}

proof fn lemma_i32_cast(x: i32)
    ensures
        (x as u32) as i32 == x,
{
    assert((x as u32) as i32 == x) by (bit_vector);
}

proof fn lemma_i64_cast(x: i64)
    ensures
        (x as u64) as i64 == x,
{
    assert((x as u64) as i64 == x) by (bit_vector);
}

/// Every payload takes at least one byte.
proof fn lemma_payload_nonempty(v: NbtValue)
    ensures
        enc_payload(v).len() >= 1,
{
    match v {
        NbtValue::Short(x) => lemma_u16_le(x as u16),
        NbtValue::Int(x) => lemma_u32_le(x as u32),
        NbtValue::Long(x) => lemma_u64_le(x as u64),
        NbtValue::Float(b) => lemma_u32_le(b),
        NbtValue::Double(b) => lemma_u64_le(b),
        NbtValue::ByteArray(a) => lemma_u32_le(a.len() as u32),
        NbtValue::String(s) => lemma_u16_le(encode_utf8(s).len() as u16),
        NbtValue::IntArray(a) => lemma_u32_le(a.len() as u32),
        _ => {},
    }
}

/// The bytes of 32-bit values: four per value, each value's in its place.
proof fn lemma_enc_ints(a: Seq<i32>)
    ensures
        enc_ints(a).len() == 4 * a.len(),
        forall|i: int, j: int|
            0 <= i < a.len() && 0 <= j < 4 ==> #[trigger] enc_ints(a)[4 * i + j] == u32_le(
                a[i] as u32,
            )[j],
    decreases a.len(),
{
    if a.len() > 0 {
        lemma_enc_ints(a.drop_first());
        lemma_u32_le(a[0] as u32);
        assert forall|i: int, j: int| 0 <= i < a.len() && 0 <= j < 4 implies #[trigger] enc_ints(
            a,
        )[4 * i + j] == u32_le(a[i] as u32)[j] by {
            if i > 0 {
                assert(enc_ints(a.drop_first())[4 * (i - 1) + j] == u32_le(
                    a.drop_first()[i - 1] as u32,
                )[j]);
                assert(a.drop_first()[i - 1] == a[i]);
            }
        }
    }
}

/// 32-bit values read back from their bytes.
proof fn lemma_ints_roundtrip(a: Seq<i32>, rest: Seq<u8>)
    ensures
        ints_of(enc_ints(a) + rest, a.len()) == a,
{
    lemma_enc_ints(a);
    let s = enc_ints(a) + rest;
    assert forall|i: int| 0 <= i < a.len() implies #[trigger] ints_of(s, a.len())[i] == a[i] by {
        let w = s.subrange(4 * i, 4 * i + 4);
        lemma_u32_le(a[i] as u32);
        lemma_i32_cast(a[i]);
        assert(enc_ints(a)[4 * i + 0] == u32_le(a[i] as u32)[0]);
        assert(enc_ints(a)[4 * i + 1] == u32_le(a[i] as u32)[1]);
        assert(enc_ints(a)[4 * i + 2] == u32_le(a[i] as u32)[2]);
        assert(enc_ints(a)[4 * i + 3] == u32_le(a[i] as u32)[3]);
        assert(w =~= u32_le(a[i] as u32));
    }
    assert(ints_of(s, a.len()) =~= a);
}

/// A string that can be written reads back as itself.
pub proof fn lemma_string_roundtrip(s: Seq<char>, rest: Seq<u8>)
    requires
        string_err(s) is None,
    ensures
        parse_string(enc_string(s) + rest) == Ok::<(Seq<char>, nat), NbtErrorKind>((s, enc_string(s).len())),
{
    let b = encode_utf8(s);
    let input = enc_string(s) + rest;
    lemma_u16_le(b.len() as u16);
    assert(input[0] == u16_le(b.len() as u16)[0]);
    assert(input[1] == u16_le(b.len() as u16)[1]);
    assert(le_u16(input) == le_u16(u16_le(b.len() as u16)));
    assert(input.subrange(2, (2 + b.len()) as int) =~= b);
    encode_utf8_valid_utf8(s);
    encode_utf8_decode_utf8(s);
}

/// A well-formed value that can be written, and whose nesting fits the limit, reads back
/// as itself and takes exactly the bytes written, whatever follows them.
pub proof fn lemma_payload_roundtrip(v: NbtValue, rest: Seq<u8>, depth: nat, max: nat)
    requires
        wf_value(v),
        write_err(v) is None,
        max <= usize::MAX,
        fits(v, depth, max),
    ensures
        parse_payload(v.tag_type(), enc_payload(v) + rest, depth, max) == Ok::<(NbtValue, nat), NbtErrorKind>(
            (v, enc_payload(v).len()),
        ),
    decreases v,
{
    let input = enc_payload(v) + rest;
    match v {
        NbtValue::Byte(b) => {
            lemma_i8_cast(b);
            assert(input[0] == b as u8);
        },
        NbtValue::Short(x) => {
            lemma_u16_le(x as u16);
            lemma_i16_cast(x);
            assert(input[0] == u16_le(x as u16)[0]);
            assert(input[1] == u16_le(x as u16)[1]);
            assert(le_u16(input) == le_u16(u16_le(x as u16)));
        },
        NbtValue::Int(x) => {
            lemma_u32_le(x as u32);
            lemma_i32_cast(x);
            assert(input.subrange(0, 4) =~= u32_le(x as u32));
            assert(le_u32(input) == le_u32(input.subrange(0, 4)));
        },
        NbtValue::Long(x) => {
            lemma_u64_le(x as u64);
            lemma_i64_cast(x);
            assert(input.subrange(0, 8) =~= u64_le(x as u64));
            assert(le_u64(input) == le_u64(input.subrange(0, 8)));
        },
        NbtValue::Float(b) => {
            lemma_u32_le(b);
            assert(input.subrange(0, 4) =~= u32_le(b));
            assert(le_u32(input) == le_u32(input.subrange(0, 4)));
        },
        NbtValue::Double(b) => {
            lemma_u64_le(b);
            assert(input.subrange(0, 8) =~= u64_le(b));
            assert(le_u64(input) == le_u64(input.subrange(0, 8)));
        },
        NbtValue::ByteArray(a) => {
            lemma_u32_le(a.len() as u32);
            assert(input.subrange(0, 4) =~= u32_le(a.len() as u32));
            assert(le_u32(input) == le_u32(input.subrange(0, 4)));
            assert(array_len(input) == a.len());
            assert(input.subrange(4, (4 + a.len()) as int) =~= a);
        },
        NbtValue::String(s) => {
            lemma_string_roundtrip(s, rest);
        },
        NbtValue::IntArray(a) => {
            lemma_u32_le(a.len() as u32);
            lemma_enc_ints(a);
            assert(input.subrange(0, 4) =~= u32_le(a.len() as u32));
            assert(le_u32(input) == le_u32(input.subrange(0, 4)));
            assert(array_len(input) == a.len());
            assert(input.skip(4) =~= enc_ints(a) + rest);
            lemma_ints_roundtrip(a, rest);
        },
        NbtValue::List(ty, es) => {
            let d = if max == 0 {
                depth
            } else {
                depth + 1
            };
            assert(descend(depth, max) == Ok::<nat, NbtErrorKind>(d));
            lemma_u32_le(es.len() as u32);
            lemma_tag_type_id_roundtrip(ty);
            assert(input[0] == ty.spec_id());
            let t = input.skip(1);
            assert(t.subrange(0, 4) =~= u32_le(es.len() as u32));
            assert(le_u32(t) == le_u32(t.subrange(0, 4)));
            assert(array_len(t) == es.len());
            assert(input.skip(5) =~= enc_list(es) + rest);
            lemma_elems_roundtrip(ty, es, Seq::empty(), rest, d, max);
            assert(Seq::<NbtValue>::empty() + es =~= es);
        },
        NbtValue::Compound(es) => {
            let d = if max == 0 {
                depth
            } else {
                depth + 1
            };
            assert(descend(depth, max) == Ok::<nat, NbtErrorKind>(d));
            assert(input =~= enc_entries(es) + seq![0u8] + rest);
            lemma_entries_roundtrip(es, Seq::empty(), rest, d, max);
            assert(Seq::<(Seq<char>, NbtValue)>::empty() + es =~= es);
        },
    }
}

/// The values of a list read back after those already read.
proof fn lemma_elems_roundtrip(
    ty: TagType,
    es: Seq<NbtValue>,
    acc: Seq<NbtValue>,
    rest: Seq<u8>,
    depth: nat,
    max: nat,
)
    requires
        wf_list(ty, es),
        list_err(es) is None,
        max <= usize::MAX,
        max == 0 || depth + list_nesting(es) <= max,
    ensures
        parse_elems(ty, es.len(), acc, enc_list(es) + rest, depth, max) == Ok::<(Seq<NbtValue>, nat), NbtErrorKind>(
            (acc + es, enc_list(es).len()),
        ),
    decreases es,
{
    if es.len() == 0 {
        assert(acc + es =~= acc);
    } else {
        let v = es[0];
        let tail = es.drop_first();
        let tail_bytes = enc_list(tail) + rest;
        assert(enc_list(es) + rest =~= enc_payload(v) + tail_bytes);
        lemma_payload_roundtrip(v, tail_bytes, depth, max);
        lemma_payload_nonempty(v);
        assert((enc_payload(v) + tail_bytes).skip(enc_payload(v).len() as int) =~= tail_bytes);
        lemma_elems_roundtrip(ty, tail, acc.push(v), rest, depth, max);
        assert(acc.push(v) + tail =~= acc + es);
    }
}

/// One entry reads back, set on top of entries that do not hold its name.
proof fn lemma_entry_roundtrip(
    e: (Seq<char>, NbtValue),
    acc: Seq<(Seq<char>, NbtValue)>,
    tail_bytes: Seq<u8>,
    depth: nat,
    max: nat,
)
    requires
        wf_value(e.1),
        string_err(e.0) is None,
        write_err(e.1) is None,
        name_index(acc, e.0) < 0,
        max <= usize::MAX,
        fits(e.1, depth, max),
    ensures
        parse_entries(
            acc,
            seq![e.1.tag_type().spec_id()] + enc_string(e.0) + enc_payload(e.1) + tail_bytes,
            depth,
            max,
        ) == shifted(
            parse_entries(acc.push(e), tail_bytes, depth, max),
            1 + enc_string(e.0).len() + enc_payload(e.1).len(),
        ),
    decreases e,
{
    let ty = e.1.tag_type();
    let input = seq![ty.spec_id()] + enc_string(e.0) + enc_payload(e.1) + tail_bytes;
    lemma_tag_type_id_roundtrip(ty);
    assert(input[0] == ty.spec_id());
    assert(input.skip(1) =~= enc_string(e.0) + (enc_payload(e.1) + tail_bytes));
    lemma_string_roundtrip(e.0, enc_payload(e.1) + tail_bytes);
    let k = enc_string(e.0).len();
    assert(input.skip((1 + k) as int) =~= enc_payload(e.1) + tail_bytes);
    lemma_payload_roundtrip(e.1, tail_bytes, depth, max);
    let n = enc_payload(e.1).len();
    assert(input.skip((1 + k + n) as int) =~= tail_bytes);
    assert(upsert(acc, e.0, e.1) == acc.push(e));
}

/// The entries of a compound read back after those already read, when no name repeats.
proof fn lemma_entries_roundtrip(
    es: Seq<(Seq<char>, NbtValue)>,
    acc: Seq<(Seq<char>, NbtValue)>,
    rest: Seq<u8>,
    depth: nat,
    max: nat,
)
    requires
        names_distinct(es),
        wf_entries(es),
        entries_err(es) is None,
        forall|i: int, j: int| 0 <= i < acc.len() && 0 <= j < es.len() ==> acc[i].0 != es[j].0,
        max <= usize::MAX,
        max == 0 || depth + entries_nesting(es) <= max,
    ensures
        parse_entries(acc, enc_entries(es) + seq![0u8] + rest, depth, max) == Ok::<
            (Seq<(Seq<char>, NbtValue)>, nat),
            NbtErrorKind,
        >((acc + es, enc_entries(es).len() + 1)),
    decreases es,
{
    let input = enc_entries(es) + seq![0u8] + rest;
    if es.len() == 0 {
        assert(input[0] == 0u8);
        assert(acc + es =~= acc);
    } else {
        let e = es[0];
        let tail = es.drop_first();
        let tail_bytes = enc_entries(tail) + seq![0u8] + rest;
        assert(input =~= seq![e.1.tag_type().spec_id()] + enc_string(e.0) + enc_payload(e.1)
            + tail_bytes);
        lemma_name_index(acc, e.0);
        assert(name_index(acc, e.0) < 0) by {
            if name_index(acc, e.0) >= 0 {
                assert(acc[name_index(acc, e.0)].0 == es[0].0);
            }
        }
        lemma_entry_roundtrip(e, acc, tail_bytes, depth, max);
        assert forall|i: int, j: int|
            0 <= i < acc.push(e).len() && 0 <= j < tail.len() implies acc.push(e)[i].0
            != tail[j].0 by {
            assert(tail[j] == es[j + 1]);
            if i == acc.len() {
                assert(acc.push(e)[i] == es[0]);
            }
        }
        assert forall|a: int, b: int| 0 <= a < b < tail.len() implies tail[a].0 != tail[b].0 by {
            assert(tail[a] == es[a + 1]);
            assert(tail[b] == es[b + 1]);
        }
        lemma_entries_roundtrip(tail, acc.push(e), rest, depth, max);
        assert(acc.push(e) + tail =~= acc + es);
    }
}

/// A string read from bytes can be written back, as the very bytes it was read from.
pub proof fn lemma_parse_string_writable(s: Seq<u8>)
    ensures
        parse_string(s) matches Ok((v, n)) ==> string_err(v) is None && enc_string(v).len() == n,
{
    if parse_string(s) is Ok {
        let len = le_u16(s) as i16;
        let b = s.subrange(2, 2 + len);
        decode_utf8_encode_utf8(b);
    }
}

/// A named root that can be written, whose value is well formed and fits the limit,
/// reads back as itself and takes exactly the bytes written, whatever follows them.
pub proof fn lemma_root_roundtrip(name: Seq<char>, v: NbtValue, rest: Seq<u8>, max: nat)
    requires
        wf_value(v),
        root_err(name, v) is None,
        max <= usize::MAX,
        fits(v, 0, max),
    ensures
        parse_root(enc_root(name, v) + rest, max) == Ok::<
            ((Seq<char>, NbtValue), nat),
            NbtErrorKind,
        >(((name, v), enc_root(name, v).len())),
{
    let ty = v.tag_type();
    let input = enc_root(name, v) + rest;
    lemma_tag_type_id_roundtrip(ty);
    assert(input[0] == ty.spec_id());
    assert(input.skip(1) =~= enc_string(name) + (enc_payload(v) + rest));
    lemma_string_roundtrip(name, enc_payload(v) + rest);
    let k = enc_string(name).len();
    assert(input.skip((1 + k) as int) =~= enc_payload(v) + rest);
    lemma_payload_roundtrip(v, rest, 0, max);
}

/// A named root that can be written and read back under the limit `max`.
pub open spec fn root_ok(r: (Seq<char>, NbtValue), max: nat) -> bool {
    wf_value(r.1) && root_err(r.0, r.1) is None && fits(r.1, 0, max)
}

/// Named roots written one after another read back as themselves, in order.
pub proof fn lemma_all_roundtrip(
    rs: Seq<(Seq<char>, NbtValue)>,
    acc: Seq<(Seq<char>, NbtValue)>,
    max: nat,
)
    requires
        forall|i: int| 0 <= i < rs.len() ==> #[trigger] root_ok(rs[i], max),
        max <= usize::MAX,
    ensures
        parse_all(acc, enc_all(rs), max) == Ok::<Seq<(Seq<char>, NbtValue)>, NbtErrorKind>(
            acc + rs,
        ),
    decreases rs.len(),
{
    if rs.len() == 0 {
        assert(acc + rs =~= acc);
    } else {
        let r = rs[0];
        let tail = rs.drop_first();
        assert(root_ok(r, max));
        lemma_root_roundtrip(r.0, r.1, enc_all(tail), max);
        let n = enc_root(r.0, r.1).len();
        assert((enc_root(r.0, r.1) + enc_all(tail)).skip(n as int) =~= enc_all(tail));
        assert forall|i: int| 0 <= i < tail.len() implies #[trigger] root_ok(tail[i], max) by {
            assert(tail[i] == rs[i + 1]);
            assert(root_ok(rs[i + 1], max));
        }
        lemma_all_roundtrip(tail, acc.push(r), max);
        assert(acc.push(r) + tail =~= acc + rs);
    }
}

/// A well-formed value written without its name reads back as itself when its type is
/// given apart.
pub proof fn lemma_headless_roundtrip(v: NbtValue, max: nat)
    requires
        wf_value(v),
        write_err(v) is None,
        max <= usize::MAX,
        fits(v, 0, max),
    ensures
        parse_headless(v.tag_type().spec_id(), enc_payload(v), max) == Ok::<
            (NbtValue, nat),
            NbtErrorKind,
        >((v, enc_payload(v).len())),
{
    lemma_tag_type_id_roundtrip(v.tag_type());
    lemma_payload_roundtrip(v, Seq::empty(), 0, max);
    assert(enc_payload(v) + Seq::<u8>::empty() =~= enc_payload(v));
}

} // verus!
