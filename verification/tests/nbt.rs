use pocketmine::nbt::{
    CompoundTag, IntTag, ListTag, LittleEndianNbtSerializer, NbtErrorKind, StringTag, Tag,
    TagType, TreeRoot,
};

fn sample_compound() -> CompoundTag {
    let mut c = CompoundTag::new();
    c.set_int("a".to_string(), 1).unwrap();
    c
}

#[test]
fn nbt_compound_set_and_get() {
    let mut c = CompoundTag::new();
    assert!(c.is_empty());
    c.set_int("level".to_string(), 7).unwrap();
    c.set_string("name".to_string(), "steve".to_string()).unwrap();
    c.set_byte_array("bytes".to_string(), vec![1, 2, 3]).unwrap();
    assert_eq!(c.len(), 3);
    assert_eq!(c.get_int("level", None).unwrap(), 7);
    assert_eq!(c.get_string("name", None).unwrap(), "steve");
    assert_eq!(c.get_byte_array("bytes", None).unwrap(), vec![1, 2, 3]);
    assert!(c.contains_key("level"));
    assert!(!c.contains_key("missing"));
}

#[test]
fn nbt_compound_defaults_and_errors() {
    let c = sample_compound();
    assert_eq!(c.get_int("missing", Some(42)).unwrap(), 42);
    assert_eq!(c.get_int("missing", None).unwrap_err().error_kind(), NbtErrorKind::NoSuchTag);
    assert_eq!(c.get_long("a", None).unwrap_err().error_kind(), NbtErrorKind::UnexpectedTagType);
    assert_eq!(c.get_long("a", Some(5)).unwrap_err().error_kind(), NbtErrorKind::UnexpectedTagType);
}

#[test]
fn nbt_compound_set_replaces_and_remove() {
    let mut c = sample_compound();
    c.set_int("a".to_string(), 2).unwrap();
    assert_eq!(c.len(), 1);
    assert_eq!(c.get_int("a", None).unwrap(), 2);
    let removed = c.remove_tag("a");
    assert!(matches!(removed, Some(Tag::Int(t)) if t.value == 2));
    assert!(c.is_empty());
    assert!(c.remove_tag("a").is_none());
}

#[test]
fn nbt_compound_merge_prefers_other() {
    let mut a = CompoundTag::new();
    a.set_int("x".to_string(), 1).unwrap();
    a.set_int("y".to_string(), 2).unwrap();
    let mut b = CompoundTag::new();
    b.set_int("y".to_string(), 20).unwrap();
    b.set_int("z".to_string(), 30).unwrap();
    let m = a.merge(&b);
    assert_eq!(m.len(), 3);
    assert_eq!(m.get_int("x", None).unwrap(), 1);
    assert_eq!(m.get_int("y", None).unwrap(), 20);
    assert_eq!(m.get_int("z", None).unwrap(), 30);
}

#[test]
fn nbt_list_keeps_one_type() {
    let mut l = ListTag::new(TagType::End);
    assert_eq!(l.get_tag_type(), TagType::End);
    l.push(Tag::Int(IntTag::new(1))).unwrap();
    assert_eq!(l.get_tag_type(), TagType::Int);
    let err = l.push(Tag::String(StringTag::new("x".to_string()))).unwrap_err();
    assert_eq!(err.error_kind(), NbtErrorKind::UnexpectedTagType);
    assert_eq!(l.len(), 1);
    l.insert(0, Tag::Int(IntTag::new(0))).unwrap();
    assert!(matches!(l.get(0), Some(Tag::Int(t)) if t.value == 0));
    assert!(matches!(l.pop(), Some(Tag::Int(t)) if t.value == 1));
    assert!(matches!(l.remove(0), Some(Tag::Int(t)) if t.value == 0));
    assert!(l.is_empty());
}

#[test]
fn nbt_tree_bytes_are_little_endian() {
    let root = TreeRoot::new(String::new(), Tag::Compound(sample_compound())).unwrap();
    let bytes = LittleEndianNbtSerializer::write_to_bytes(&root).unwrap();
    assert_eq!(bytes, vec![10, 0, 0, 3, 1, 0, b'a', 1, 0, 0, 0, 0]);
}

#[test]
fn nbt_tree_round_trip() {
    let mut inner = CompoundTag::new();
    inner.set_long("time".to_string(), -5).unwrap();
    let mut list = ListTag::new(TagType::End);
    list.push(Tag::String(StringTag::new("one".to_string()))).unwrap();
    list.push(Tag::String(StringTag::new("two".to_string()))).unwrap();
    let mut c = CompoundTag::new();
    c.set_short("s".to_string(), -300).unwrap();
    c.set_int_array("ints".to_string(), vec![1, -1, 65536]).unwrap();
    c.set_list("names".to_string(), list).unwrap();
    c.set_compound("inner".to_string(), inner).unwrap();
    let root = TreeRoot::new("level".to_string(), Tag::Compound(c)).unwrap();
    let bytes = LittleEndianNbtSerializer::write_to_bytes(&root).unwrap();
    let back = LittleEndianNbtSerializer::read_from_buffer(&bytes, 512).unwrap();
    assert_eq!(back.get_name(), "level");
    let c = back.must_get_compound_tag().unwrap();
    assert_eq!(c.get_short("s", None).unwrap(), -300);
    assert_eq!(c.get_int_array("ints", None).unwrap(), vec![1, -1, 65536]);
    let names = c.get_list_tag("names").unwrap().unwrap();
    assert_eq!(names.len(), 2);
    assert!(matches!(names.get(1), Some(Tag::String(s)) if s.value == "two"));
    let inner = c.get_compound_tag("inner").unwrap().unwrap();
    assert_eq!(inner.get_long("time", None).unwrap(), -5);
    assert_eq!(LittleEndianNbtSerializer::write_to_bytes(&back).unwrap(), bytes);
}

#[test]
fn nbt_depth_limit_is_enforced() {
    let mut c = CompoundTag::new();
    c.set_compound("in".to_string(), sample_compound()).unwrap();
    let root = TreeRoot::new(String::new(), Tag::Compound(c)).unwrap();
    let bytes = LittleEndianNbtSerializer::write_to_bytes(&root).unwrap();
    assert!(LittleEndianNbtSerializer::read_from_buffer(&bytes, 0).is_ok());
    assert!(LittleEndianNbtSerializer::read_from_buffer(&bytes, 2).is_ok());
    let err = LittleEndianNbtSerializer::read_from_buffer(&bytes, 1).unwrap_err();
    assert_eq!(err.error_kind(), NbtErrorKind::DepthLimitExceeded);
}

#[test]
fn nbt_truncated_input_is_an_error() {
    let root = TreeRoot::new(String::new(), Tag::Compound(sample_compound())).unwrap();
    let bytes = LittleEndianNbtSerializer::write_to_bytes(&root).unwrap();
    for cut in 0..bytes.len() {
        assert!(LittleEndianNbtSerializer::read_from_buffer(&bytes[..cut], 512).is_err());
    }
}

#[test]
fn nbt_multiple_roots_round_trip() {
    let a = TreeRoot::new("a".to_string(), Tag::Compound(sample_compound())).unwrap();
    let b = TreeRoot::new("b".to_string(), Tag::Int(IntTag::new(9))).unwrap();
    let bytes = LittleEndianNbtSerializer::write_multiple_to_bytes(&[a, b]).unwrap();
    let back = LittleEndianNbtSerializer::read_multiple_from_buffer(&bytes, 512).unwrap();
    assert_eq!(back.len(), 2);
    assert_eq!(back[0].get_name(), "a");
    assert_eq!(back[1].get_name(), "b");
    assert!(matches!(back[1].get_tag(), Tag::Int(t) if t.value == 9));
}

#[test]
fn nbt_headless_round_trip() {
    let tag = Tag::Compound(sample_compound());
    let bytes = LittleEndianNbtSerializer::write_headless_to_bytes(&tag).unwrap();
    assert_eq!(bytes, vec![3, 1, 0, b'a', 1, 0, 0, 0, 0]);
    let back = LittleEndianNbtSerializer::read_headless_from_buffer(&bytes, 10, 512).unwrap();
    match back {
        Tag::Compound(c) => assert_eq!(c.get_int("a", None).unwrap(), 1),
        _ => panic!("expected a compound"),
    }
}

#[test]
fn nbt_unknown_tag_type_is_refused() {
    let bytes = vec![99u8, 0, 0];
    assert!(LittleEndianNbtSerializer::read_from_buffer(&bytes, 512).is_err());
}

#[test]
fn nbt_change_in_place() {
    let mut c = sample_compound();
    if let Some(Tag::Int(t)) = c.get_tag_mut("a") {
        t.value = 5;
    }
    assert_eq!(c.get_int("a", None).unwrap(), 5);
    assert!(c.get_tag_mut("nope").is_none());

    let mut l = ListTag::new(TagType::End);
    l.push(Tag::Int(IntTag::new(1))).unwrap();
    if let Some(Tag::Int(t)) = l.get_mut(0) {
        t.value = 9;
    }
    for tag in l.iter_mut() {
        if let Tag::Int(t) = tag {
            t.value += 1;
        }
    }
    assert!(matches!(l.get(0), Some(Tag::Int(t)) if t.value == 10));
    assert!(l.get_mut(3).is_none());

    let mut root = TreeRoot::new("r".to_string(), Tag::Compound(sample_compound())).unwrap();
    root.must_get_compound_tag_mut().unwrap().set_int("b".to_string(), 2).unwrap();
    assert_eq!(root.must_get_compound_tag().unwrap().get_int("b", None).unwrap(), 2);
    let mut not_compound = TreeRoot::new("r".to_string(), Tag::Int(IntTag::new(1))).unwrap();
    let err = not_compound.must_get_compound_tag_mut().unwrap_err();
    assert_eq!(err.error_kind(), NbtErrorKind::UnexpectedTagType);
    assert_eq!(err.to_string(), "NBT Unexpected Tag Type: Root tag is not a CompoundTag");
}

#[test]
fn nbt_error_texts() {
    let c = sample_compound();
    let err = c.get_int("missing", None).unwrap_err();
    assert_eq!(err.to_string(), "NBT No Such Tag: Tag does not exist");
    let long_name = "x".repeat(40000);
    let err = TreeRoot::new(long_name, Tag::Int(IntTag::new(1))).unwrap_err();
    assert_eq!(
        err.to_string(),
        "NBT Invalid Tag Value: Root tag name must be at most 32767 bytes, but got 40000 bytes"
    );
    let short = LittleEndianNbtSerializer::read_from_buffer(&[10, 0], 0).unwrap_err();
    assert_eq!(short.error_kind(), NbtErrorKind::Io);
    assert_eq!(short.to_string(), "NBT IO Error: Not enough data: needed 2 bytes, have 1");
}
