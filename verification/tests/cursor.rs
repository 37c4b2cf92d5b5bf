use pack::special::I48;
use pack::Pack;

#[test]
fn checked_read_of_a_short_view_takes_nothing() {
    let data = [0x01u8];
    let mut cur: &[u8] = &data;
    let v = u16::unpack_it(&mut cur);
    assert_eq!(v, None);
    assert_eq!(cur.len(), 1);
    assert_eq!(cur, &[0x01]);
}

#[test]
fn checked_read_advances_by_the_width() {
    let data = [0x01u8, 0x02, 0x09];
    let mut cur: &[u8] = &data;
    let v = u16::unpack_it(&mut cur);
    assert_eq!(v, Some(0x0102));
    assert_eq!(cur.len(), 1);
    assert_eq!(cur, &[0x09]);
}

#[test]
fn checked_read_of_an_empty_view() {
    let data: [u8; 0] = [];
    let mut cur: &[u8] = &data;
    assert_eq!(u8::unpack_it(&mut cur), None);
    assert_eq!(bool::unpack_it(&mut cur), None);
    assert_eq!(u128::unpack_it(&mut cur), None);
    assert!(cur.is_empty());
}

#[test]
fn checked_read_of_exactly_the_width() {
    let data = [0xFFu8, 0xFF, 0xFF, 0xFE];
    let mut cur: &[u8] = &data;
    assert_eq!(i32::unpack_it(&mut cur), Some(-2));
    assert!(cur.is_empty());
    assert_eq!(i32::unpack_it(&mut cur), None);
    assert!(cur.is_empty());
}

#[test]
fn checked_reads_in_a_row() {
    let data = [0x07u8, 0x01, 0x02, 0x00, 0xFF, 0xFF, 0xFF, 0xFF, 0x2A];
    let mut cur: &[u8] = &data;
    assert_eq!(u8::unpack_it(&mut cur), Some(7));
    assert_eq!(u16::unpack_it(&mut cur), Some(0x0102));
    assert_eq!(bool::unpack_it(&mut cur), Some(false));
    assert_eq!(i32::unpack_it(&mut cur), Some(-1));
    assert_eq!(cur, &[0x2A]);
    assert_eq!(u16::unpack_it(&mut cur), None);
    assert_eq!(cur, &[0x2A]);
    assert_eq!(u8::unpack_it(&mut cur), Some(0x2A));
    assert!(cur.is_empty());
}

#[test]
fn checked_read_one_byte_short() {
    let data = [1u8, 2, 3, 4, 5, 6, 7];
    let mut cur: &[u8] = &data;
    assert_eq!(u64::unpack_it(&mut cur), None);
    assert_eq!(cur, &[1, 2, 3, 4, 5, 6, 7]);
    assert_eq!(u32::unpack_it(&mut cur), Some(0x0102_0304));
    assert_eq!(cur, &[5, 6, 7]);
}

#[test]
fn checked_read_of_a_48_bit_integer() {
    let data = [0xFFu8, 0xFF, 0xFF, 0xFF, 0xFF, 0xFE, 0x11];
    let mut cur: &[u8] = &data;
    let v = I48::unpack_it(&mut cur);
    assert_eq!(v.map(I48::into_inner), Some(-2));
    assert_eq!(cur, &[0x11]);
    let w = I48::unpack_it(&mut cur);
    assert!(w.is_none());
    assert_eq!(cur, &[0x11]);
}

#[test]
fn checked_read_of_a_tuple() {
    let data = [0x07u8, 0x01, 0x02, 0x33];
    let mut cur: &[u8] = &data;
    assert_eq!(<(u8, u16)>::unpack_it(&mut cur), Some((7, 0x0102)));
    assert_eq!(cur, &[0x33]);
    assert_eq!(<(u8, u16)>::unpack_it(&mut cur), None);
    assert_eq!(cur, &[0x33]);
}

#[test]
fn checked_read_of_a_tuple_one_byte_short() {
    let data = [0x07u8, 0x01];
    let mut cur: &[u8] = &data;
    assert_eq!(<(u8, u16)>::unpack_it(&mut cur), None);
    assert_eq!(cur, &[0x07, 0x01]);
}

#[test]
fn unchecked_read_advances_by_the_width() {
    let data = [0x01u8, 0x02, 0x09];
    let mut cur: &[u8] = &data;
    assert_eq!(u16::unpack_it_unchecked(&mut cur), 0x0102);
    assert_eq!(cur, &[0x09]);
    assert!(bool::unpack_it_unchecked(&mut cur));
    assert!(cur.is_empty());
}

#[test]
fn unchecked_reads_in_a_row() {
    let data = [0x80u8, 0x00, 0x00, 0x00, 0x00, 0x00, 0xFF, 0x00, 0x10];
    let mut cur: &[u8] = &data;
    assert_eq!(I48::unpack_it_unchecked(&mut cur).into_inner(), -(1i64 << 47));
    assert_eq!(i8::unpack_it_unchecked(&mut cur), -1);
    assert_eq!(u16::unpack_it_unchecked(&mut cur), 0x0010);
    assert!(cur.is_empty());
}

#[test]
fn the_cursor_does_not_touch_the_bytes() {
    let data = [0x01u8, 0x02, 0x03];
    let mut cur: &[u8] = &data;
    let _ = u16::unpack_it(&mut cur);
    assert_eq!(data, [0x01, 0x02, 0x03]);
}
