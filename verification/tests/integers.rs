use pack::Pack;

#[test]
fn widths_of_the_integers() {
    assert_eq!(<u8 as Pack>::SIZE, 1);
    assert_eq!(<i8 as Pack>::SIZE, 1);
    assert_eq!(<u16 as Pack>::SIZE, 2);
    assert_eq!(<i16 as Pack>::SIZE, 2);
    assert_eq!(<u32 as Pack>::SIZE, 4);
    assert_eq!(<i32 as Pack>::SIZE, 4);
    assert_eq!(<u64 as Pack>::SIZE, 8);
    assert_eq!(<i64 as Pack>::SIZE, 8);
    assert_eq!(<u128 as Pack>::SIZE, 16);
    assert_eq!(<i128 as Pack>::SIZE, 16);
}

#[test]
fn u16_is_big_endian() {
    let mut buf = [0u8; 2];
    0x0102u16.pack(&mut buf);
    assert_eq!(buf, [0x01, 0x02]);
    assert_eq!(u16::unpack(&buf), 0x0102);
}

#[test]
fn i16_minus_one_is_all_ones() {
    let mut buf = [0u8; 2];
    (-1i16).pack(&mut buf);
    assert_eq!(buf, [0xFF, 0xFF]);
    assert_eq!(i16::unpack(&buf), -1);
}

#[test]
fn u8_is_its_own_byte() {
    let mut buf = [0u8; 1];
    0xABu8.pack(&mut buf);
    assert_eq!(buf, [0xAB]);
    assert_eq!(u8::unpack(&[0xAB]), 0xAB);
    assert_eq!(u8::unpack(&[0x00]), 0);
    assert_eq!(u8::unpack(&[0xFF]), 255);
}

#[test]
fn i8_is_twos_complement() {
    let mut buf = [0u8; 1];
    (-1i8).pack(&mut buf);
    assert_eq!(buf, [0xFF]);
    (-128i8).pack(&mut buf);
    assert_eq!(buf, [0x80]);
    127i8.pack(&mut buf);
    assert_eq!(buf, [0x7F]);
    assert_eq!(i8::unpack(&[0xFF]), -1);
    assert_eq!(i8::unpack(&[0x80]), -128);
    assert_eq!(i8::unpack(&[0x7F]), 127);
    assert_eq!(i8::unpack(&[0x00]), 0);
}

#[test]
fn u32_bytes() {
    let mut buf = [0u8; 4];
    0x0102_0304u32.pack(&mut buf);
    assert_eq!(buf, [0x01, 0x02, 0x03, 0x04]);
    assert_eq!(u32::unpack(&[0xDE, 0xAD, 0xBE, 0xEF]), 0xDEAD_BEEF);
}

#[test]
fn i32_bytes() {
    let mut buf = [0u8; 4];
    (-2i32).pack(&mut buf);
    assert_eq!(buf, [0xFF, 0xFF, 0xFF, 0xFE]);
    i32::MIN.pack(&mut buf);
    assert_eq!(buf, [0x80, 0x00, 0x00, 0x00]);
    assert_eq!(i32::unpack(&[0xFF, 0xFF, 0xFF, 0xFE]), -2);
    assert_eq!(i32::unpack(&[0x7F, 0xFF, 0xFF, 0xFF]), i32::MAX);
}

#[test]
fn u64_bytes() {
    let mut buf = [0u8; 8];
    0x0102_0304_0506_0708u64.pack(&mut buf);
    assert_eq!(buf, [1, 2, 3, 4, 5, 6, 7, 8]);
    assert_eq!(u64::unpack(&[0xFF; 8]), u64::MAX);
    assert_eq!(u64::unpack(&[0, 0, 0, 0, 0, 0, 1, 0]), 256);
}

#[test]
fn i64_bytes() {
    let mut buf = [0u8; 8];
    i64::MIN.pack(&mut buf);
    assert_eq!(buf, [0x80, 0, 0, 0, 0, 0, 0, 0]);
    (-256i64).pack(&mut buf);
    assert_eq!(buf, [0xFF, 0xFF, 0xFF, 0xFF, 0xFF, 0xFF, 0xFF, 0x00]);
    assert_eq!(i64::unpack(&[0xFF; 8]), -1);
    assert_eq!(i64::unpack(&[0x80, 0, 0, 0, 0, 0, 0, 0]), i64::MIN);
}

#[test]
fn u128_bytes() {
    let mut buf = [0u8; 16];
    0x0102_0304_0506_0708_090A_0B0C_0D0E_0F10u128.pack(&mut buf);
    assert_eq!(buf, [1, 2, 3, 4, 5, 6, 7, 8, 9, 10, 11, 12, 13, 14, 15, 16]);
    assert_eq!(u128::unpack(&buf), 0x0102_0304_0506_0708_090A_0B0C_0D0E_0F10);
    assert_eq!(u128::unpack(&[0xFF; 16]), u128::MAX);
}

#[test]
fn i128_bytes() {
    let mut buf = [0u8; 16];
    (-1i128).pack(&mut buf);
    assert_eq!(buf, [0xFF; 16]);
    i128::MIN.pack(&mut buf);
    assert_eq!(buf, [0x80, 0, 0, 0, 0, 0, 0, 0, 0, 0, 0, 0, 0, 0, 0, 0]);
    assert_eq!(i128::unpack(&buf), i128::MIN);
    assert_eq!(i128::unpack(&[0xFF; 16]), -1);
}

#[test]
fn unsigned_round_trips() {
    let mut buf = [0u8; 16];
    for v in [0u8, 1, 0x7F, 0x80, 0xFF] {
        v.pack(&mut buf);
        assert_eq!(u8::unpack(&buf), v);
    }
    for v in [0u16, 1, 0x00FF, 0x0100, 0x7FFF, 0x8000, u16::MAX] {
        v.pack(&mut buf);
        assert_eq!(u16::unpack(&buf), v);
    }
    for v in [0u32, 1, 0x00FF_FFFF, 0x0100_0000, 0x8000_0000, u32::MAX] {
        v.pack(&mut buf);
        assert_eq!(u32::unpack(&buf), v);
    }
    for v in [0u64, 1, 0x00FF_FFFF_FFFF_FFFF, 0x8000_0000_0000_0000, u64::MAX] {
        v.pack(&mut buf);
        assert_eq!(u64::unpack(&buf), v);
    }
    for v in [0u128, 1, u64::MAX as u128, u64::MAX as u128 + 1, 1u128 << 127, u128::MAX] {
        v.pack(&mut buf);
        assert_eq!(u128::unpack(&buf), v);
    }
}

#[test]
fn signed_round_trips() {
    let mut buf = [0u8; 16];
    for v in [0i8, 1, -1, i8::MIN, i8::MAX] {
        v.pack(&mut buf);
        assert_eq!(i8::unpack(&buf), v);
    }
    for v in [0i16, 1, -1, 255, -256, i16::MIN, i16::MAX] {
        v.pack(&mut buf);
        assert_eq!(i16::unpack(&buf), v);
    }
    for v in [0i32, 1, -1, 65536, -65537, i32::MIN, i32::MAX] {
        v.pack(&mut buf);
        assert_eq!(i32::unpack(&buf), v);
    }
    for v in [0i64, 1, -1, 1 << 47, -(1 << 47) - 1, i64::MIN, i64::MAX] {
        v.pack(&mut buf);
        assert_eq!(i64::unpack(&buf), v);
    }
    for v in [0i128, 1, -1, i64::MIN as i128 - 1, i128::MIN, i128::MAX] {
        v.pack(&mut buf);
        assert_eq!(i128::unpack(&buf), v);
    }
}

#[test]
fn every_u16_round_trips() {
    let mut buf = [0u8; 2];
    for v in 0..=u16::MAX {
        v.pack(&mut buf);
        assert_eq!(buf, [(v >> 8) as u8, (v & 0xFF) as u8]);
        assert_eq!(u16::unpack(&buf), v);
    }
}

#[test]
fn every_i16_round_trips() {
    let mut buf = [0u8; 2];
    for v in i16::MIN..=i16::MAX {
        v.pack(&mut buf);
        assert_eq!(i16::unpack(&buf), v);
    }
}

#[test]
fn pack_leaves_the_rest_of_the_buffer() {
    let mut buf = [0xAAu8; 5];
    0x0102u16.pack(&mut buf);
    assert_eq!(buf, [0x01, 0x02, 0xAA, 0xAA, 0xAA]);
    let mut buf = [0x55u8; 6];
    (-1i32).pack(&mut buf);
    assert_eq!(buf, [0xFF, 0xFF, 0xFF, 0xFF, 0x55, 0x55]);
}

#[test]
fn pack_overwrites_what_was_there() {
    let mut buf = [0xFFu8; 4];
    0u32.pack(&mut buf);
    assert_eq!(buf, [0, 0, 0, 0]);
}

#[test]
fn unpack_reads_only_its_width() {
    assert_eq!(u16::unpack(&[0x01, 0x02, 0xFF, 0xFF]), 0x0102);
    assert_eq!(i8::unpack(&[0x01, 0xFF]), 1);
    assert_eq!(u32::unpack(&[0, 0, 0, 7, 9, 9, 9]), 7);
}
