use pack::Pack;

#[test]
fn bool_width() {
    assert_eq!(<bool as Pack>::SIZE, 1);
}

#[test]
fn bool_encodes_as_one_and_zero() {
    let mut buf = [0xAAu8; 1];
    true.pack(&mut buf);
    assert_eq!(buf, [0x01]);
    false.pack(&mut buf);
    assert_eq!(buf, [0x00]);
}

#[test]
fn bool_decodes_any_nonzero_byte_as_true() {
    assert!(bool::unpack(&[0x05]));
    assert!(bool::unpack(&[0x01]));
    assert!(bool::unpack(&[0xFF]));
    assert!(bool::unpack(&[0x80]));
    assert!(!bool::unpack(&[0x00]));
}

#[test]
fn every_byte_but_zero_is_true() {
    for b in 1..=u8::MAX {
        assert!(bool::unpack(&[b]));
    }
}

#[test]
fn bool_round_trips() {
    let mut buf = [0u8; 1];
    for v in [true, false] {
        v.pack(&mut buf);
        assert_eq!(bool::unpack(&buf), v);
    }
}

#[test]
fn bool_pack_leaves_the_rest_of_the_buffer() {
    let mut buf = [0x77u8; 3];
    true.pack(&mut buf);
    assert_eq!(buf, [0x01, 0x77, 0x77]);
}
