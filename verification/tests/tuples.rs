use pack::special::I48;
use pack::Pack;

#[test]
fn width_of_a_pair_is_the_sum() {
    assert_eq!(<(u8, u16) as Pack>::SIZE, 3);
    assert_eq!(<(u16, u8) as Pack>::SIZE, 3);
    assert_eq!(<(bool, i64) as Pack>::SIZE, 9);
}

#[test]
fn widths_of_every_arity() {
    assert_eq!(<(u8,) as Pack>::SIZE, 1);
    assert_eq!(<(u8, u16) as Pack>::SIZE, 3);
    assert_eq!(<(u8, u16, u32) as Pack>::SIZE, 7);
    assert_eq!(<(u8, u16, u32, u64) as Pack>::SIZE, 15);
    assert_eq!(<(u8, u16, u32, u64, u128) as Pack>::SIZE, 31);
    assert_eq!(<(u8, u16, u32, u64, u128, bool) as Pack>::SIZE, 32);
    assert_eq!(<(u8, u16, u32, u64, u128, bool, I48) as Pack>::SIZE, 38);
}

#[test]
fn width_of_a_nested_tuple() {
    assert_eq!(<((u8, u16), (u32, (bool,))) as Pack>::SIZE, 8);
}

#[test]
fn pair_is_the_members_in_order() {
    let mut buf = [0u8; 3];
    (0xABu8, 0x0102u16).pack(&mut buf);
    assert_eq!(buf, [0xAB, 0x01, 0x02]);
    (0x0102u16, 0xABu8).pack(&mut buf);
    assert_eq!(buf, [0x01, 0x02, 0xAB]);
}

#[test]
fn pair_round_trips() {
    let mut buf = [0u8; 3];
    for a in [0u8, 1, 0x7F, 0xFF] {
        for b in [0u16, 1, 0x00FF, 0xFF00, 0xFFFF] {
            (a, b).pack(&mut buf);
            assert_eq!(buf, [a, (b >> 8) as u8, (b & 0xFF) as u8]);
            assert_eq!(<(u8, u16)>::unpack(&buf), (a, b));
        }
    }
}

#[test]
fn single_member_tuple() {
    let mut buf = [0u8; 2];
    (0x0102u16,).pack(&mut buf);
    assert_eq!(buf, [0x01, 0x02]);
    assert_eq!(<(u16,)>::unpack(&buf), (0x0102,));
}

#[test]
fn triple_bytes() {
    let mut buf = [0u8; 4];
    (true, -1i8, 0x0102u16).pack(&mut buf);
    assert_eq!(buf, [0x01, 0xFF, 0x01, 0x02]);
    assert_eq!(<(bool, i8, u16)>::unpack(&buf), (true, -1, 0x0102));
}

#[test]
fn four_members() {
    let mut buf = [0u8; 8];
    (1u8, 2u16, 3u32, false).pack(&mut buf);
    assert_eq!(buf, [1, 0, 2, 0, 0, 0, 3, 0]);
    assert_eq!(<(u8, u16, u32, bool)>::unpack(&buf), (1, 2, 3, false));
}

#[test]
fn five_members() {
    let mut buf = [0u8; 7];
    (1u8, -2i8, 3u16, -4i16, true).pack(&mut buf);
    assert_eq!(buf, [0x01, 0xFE, 0x00, 0x03, 0xFF, 0xFC, 0x01]);
    assert_eq!(<(u8, i8, u16, i16, bool)>::unpack(&buf), (1, -2, 3, -4, true));
}

#[test]
fn six_members() {
    let mut buf = [0u8; 6];
    (1u8, 2u8, 3u8, 4u8, 5u8, 6u8).pack(&mut buf);
    assert_eq!(buf, [1, 2, 3, 4, 5, 6]);
    assert_eq!(<(u8, u8, u8, u8, u8, u8)>::unpack(&buf), (1, 2, 3, 4, 5, 6));
}

#[test]
fn seven_members() {
    let mut buf = [0u8; 38];
    let value = (0x11u8, 0x2233u16, 0x4455_6677u32, -1i64, 1u128, true, I48::from(-2));
    value.pack(&mut buf);
    let expected: [u8; 38] = [
        0x11, 0x22, 0x33, 0x44, 0x55, 0x66, 0x77, 0xFF, 0xFF, 0xFF, 0xFF, 0xFF, 0xFF, 0xFF, 0xFF,
        0, 0, 0, 0, 0, 0, 0, 0, 0, 0, 0, 0, 0, 0, 0, 1, 0x01, 0xFF, 0xFF, 0xFF, 0xFF, 0xFF,
        0xFE,
    ];
    assert_eq!(buf, expected);
    let back = <(u8, u16, u32, i64, u128, bool, I48)>::unpack(&buf);
    assert_eq!(back.0, 0x11);
    assert_eq!(back.1, 0x2233);
    assert_eq!(back.2, 0x4455_6677);
    assert_eq!(back.3, -1);
    assert_eq!(back.4, 1);
    assert!(back.5);
    assert_eq!(back.6.into_inner(), -2);
}

#[test]
fn nested_tuple_is_flat_on_the_wire() {
    let mut nested = [0u8; 8];
    ((1u8, 0x0203u16), (0x0405_0607u32, (true,))).pack(&mut nested);
    let mut flat = [0u8; 8];
    (1u8, 0x0203u16, 0x0405_0607u32, true).pack(&mut flat);
    assert_eq!(nested, flat);
    assert_eq!(nested, [1, 2, 3, 4, 5, 6, 7, 1]);
    assert_eq!(
        <((u8, u16), (u32, (bool,)))>::unpack(&nested),
        ((1, 0x0203), (0x0405_0607, (true,)))
    );
}

#[test]
fn tuple_pack_leaves_the_rest_of_the_buffer() {
    let mut buf = [0xEEu8; 6];
    (1u8, 0x0203u16).pack(&mut buf);
    assert_eq!(buf, [1, 2, 3, 0xEE, 0xEE, 0xEE]);
}

#[test]
fn tuple_unpack_reads_only_its_width() {
    assert_eq!(<(u8, u16)>::unpack(&[1, 2, 3, 0xEE, 0xEE]), (1, 0x0203));
}

#[test]
fn tuple_with_a_boolean_does_not_round_trip_other_bytes() {
    let value = <(bool, u8)>::unpack(&[0x05, 0x09]);
    assert_eq!(value, (true, 9));
    let mut buf = [0u8; 2];
    value.pack(&mut buf);
    assert_eq!(buf, [0x01, 0x09]);
}
