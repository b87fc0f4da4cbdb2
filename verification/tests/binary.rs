use pocketmine::binary::{BinaryStream, BinaryUtilError};

#[test]
fn binary_write_then_read_back() {
    let mut s = BinaryStream::new();
    s.put_u8(0xAB);
    s.put_u16_be(0x0102);
    s.put_u16_le(0x0102);
    s.put_u24_le(0x030201);
    s.put_u32_be(0xDEADBEEF);
    s.put_u64_le(0x0102030405060708);
    s.put_string("héllo").unwrap();
    assert_eq!(&s.get_buffer()[..10], &[0xAB, 1, 2, 2, 1, 1, 2, 3, 0xDE, 0xAD]);
    s.rewind();
    assert_eq!(s.get_u8().unwrap(), 0xAB);
    assert_eq!(s.get_u16_be().unwrap(), 0x0102);
    assert_eq!(s.get_u16_le().unwrap(), 0x0102);
    assert_eq!(s.get_u24_le().unwrap(), 0x030201);
    assert_eq!(s.get_u32_be().unwrap(), 0xDEADBEEF);
    assert_eq!(s.get_u64_le().unwrap(), 0x0102030405060708);
    assert_eq!(s.get_string().unwrap(), "héllo");
    assert!(s.feof());
}

#[test]
fn binary_short_read_reports_what_is_missing() {
    let mut s = BinaryStream::from_slice(&[1, 2]);
    let err = s.get_u32_be().unwrap_err();
    assert!(err.is_not_enough_data());
    assert_eq!(err, BinaryUtilError::NotEnoughData { needed: 4, have: 2 });
    assert_eq!(s.get_offset(), 0);
}

#[test]
fn binary_invalid_utf8_is_refused() {
    let mut s = BinaryStream::from_slice(&[0, 2, 0xFF, 0xFE]);
    let err = s.get_string().unwrap_err();
    assert!(!err.is_not_enough_data());
}

#[test]
fn binary_remaining_and_get() {
    let mut s = BinaryStream::from_vec(vec![1, 2, 3, 4, 5]);
    assert_eq!(s.get(2).unwrap(), vec![1, 2]);
    assert_eq!(s.remaining_len(), 3);
    assert_eq!(s.get_remaining().unwrap(), vec![3, 4, 5]);
    assert!(s.feof());
    assert_eq!(s.into_inner(), vec![1, 2, 3, 4, 5]);
}

#[test]
fn binary_error_texts_and_decimals() {
    let e = BinaryUtilError::NotEnoughData { needed: 8, have: 3 };
    assert_eq!(e.to_string(), "Not enough data: needed 8 bytes, have 3");
    assert_eq!(BinaryUtilError::InvalidData("bad".to_string()).to_string(), "bad");
    assert_eq!(pocketmine::text::decimal_string(0), "0");
    assert_eq!(pocketmine::text::decimal_string(1234567890), "1234567890");
    assert_eq!(pocketmine::text::decimal_string(u64::MAX), u64::MAX.to_string());
}
