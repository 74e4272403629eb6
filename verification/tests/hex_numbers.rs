use pdf_cmap::hex::{add_hex, hex_to_int, hex_to_str, inc_hex};

#[test]
fn hex_to_int_packs_the_number() {
    assert_eq!(hex_to_int(&[0x12, 0x34, 0x56], 0), 0x12);
    assert_eq!(hex_to_int(&[0x12, 0x34, 0x56], 1), 0x1234);
    assert_eq!(hex_to_int(&[0x12, 0x34, 0x56], 2), 0x12_3456);
    assert_eq!(hex_to_int(&[0x8E, 0xA1, 0xA1, 0xA1], 3), 0x8EA1_A1A1);
}

#[test]
fn hex_to_int_keeps_the_last_four_bytes() {
    assert_eq!(hex_to_int(&[0x01, 0x02, 0x03, 0x04, 0x05, 0x06], 5), 0x0304_0506);
    let sixteen: Vec<u8> = (1..=16).collect();
    assert_eq!(hex_to_int(&sixteen, 15), 0x0D0E_0F10);
}

#[test]
fn hex_to_str_takes_the_bytes_of_the_number() {
    assert_eq!(hex_to_str(&[0x41, 0x42, 0x43], 0), vec![0x41]);
    assert_eq!(hex_to_str(&[0x41, 0x42, 0x43], 1), vec![0x41, 0x42]);
    assert_eq!(hex_to_str(&[0xE4, 0x00, 0x43], 2), vec![0xE4, 0x00, 0x43]);
}

#[test]
fn inc_hex_adds_one_with_carry() {
    let mut a = vec![0x12, 0x34, 0xAA];
    inc_hex(&mut a, 1);
    assert_eq!(a, vec![0x12, 0x35, 0xAA]);

    let mut a = vec![0x12, 0xFF, 0xAA];
    inc_hex(&mut a, 1);
    assert_eq!(a, vec![0x13, 0x00, 0xAA]);

    let mut a = vec![0x00, 0xFF, 0xFF, 0xFF];
    inc_hex(&mut a, 3);
    assert_eq!(a, vec![0x01, 0x00, 0x00, 0x00]);
}

#[test]
fn inc_hex_rolls_over_within_its_bytes() {
    let mut a = vec![0xFF, 0xFF, 0xAA];
    inc_hex(&mut a, 1);
    assert_eq!(a, vec![0x00, 0x00, 0xAA]);

    let mut a = vec![0xFF, 0x07];
    inc_hex(&mut a, 0);
    assert_eq!(a, vec![0x00, 0x07]);
}

#[test]
fn add_hex_adds_with_carry() {
    let mut a = vec![0x12, 0x34, 0xAA];
    add_hex(&mut a, &[0x01, 0x01, 0x55], 1);
    assert_eq!(a, vec![0x13, 0x35, 0xAA]);

    let mut a = vec![0x00, 0xFF, 0xAA];
    add_hex(&mut a, &[0x00, 0x01], 1);
    assert_eq!(a, vec![0x01, 0x00, 0xAA]);

    let mut a = vec![0x12, 0x80, 0x80];
    add_hex(&mut a, &[0x34, 0x80, 0x80], 2);
    assert_eq!(a, vec![0x47, 0x01, 0x00]);
}

#[test]
fn add_hex_loses_what_does_not_fit() {
    let mut a = vec![0xFF, 0xFF, 0xAA];
    add_hex(&mut a, &[0x00, 0x02], 1);
    assert_eq!(a, vec![0x00, 0x01, 0xAA]);

    let mut a = vec![0x80, 0x00];
    add_hex(&mut a, &[0x80, 0x00], 1);
    assert_eq!(a, vec![0x00, 0x00]);

    // Adding the complement of a number takes it away.
    let mut a = vec![0x30, 0x05];
    add_hex(&mut a, &[0xFF, 0xFD], 1);
    assert_eq!(a, vec![0x30, 0x02]);
}

#[test]
fn add_hex_on_sixteen_bytes() {
    let mut a = vec![0xFFu8; 16];
    let mut b = vec![0u8; 16];
    b[15] = 1;
    add_hex(&mut a, &b, 15);
    assert_eq!(a, vec![0u8; 16]);
}
