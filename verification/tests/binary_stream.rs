use pdf_cmap::BinaryCMapStream;

#[test]
fn test_binary_cmap_stream() {
    let data = vec![0x01, 0x80, 0x02, 0x03];
    let mut stream = BinaryCMapStream::new(data);

    assert_eq!(stream.read_byte(), 1);
    assert_eq!(stream.read_byte(), 128);
    assert_eq!(stream.read_byte(), 2);
    assert_eq!(stream.read_byte(), 3);
    assert_eq!(stream.read_byte(), -1); // the end of the data
}

#[test]
fn test_binary_cmap_number_reading() {
    // One byte, top bit clear.
    let data = vec![0x01];
    let mut stream = BinaryCMapStream::new(data);
    let num = stream.read_number().unwrap();
    assert_eq!(num, 1);

    // Two bytes: the top bit of the first says that one more follows,
    // and the value is (1 << 7) | 1 = 129.
    let data2 = vec![0x81, 0x01];
    let mut stream2 = BinaryCMapStream::new(data2);
    let num2 = stream2.read_number().unwrap();
    assert_eq!(num2, 129);
}

fn number(bytes: &[u8]) -> Result<u32, String> {
    BinaryCMapStream::new(bytes.to_vec()).read_number()
}

fn signed(bytes: &[u8]) -> Result<i32, String> {
    BinaryCMapStream::new(bytes.to_vec()).read_signed()
}

#[test]
fn the_end_of_the_data_is_told_again_and_again() {
    let mut stream = BinaryCMapStream::new(vec![]);
    assert_eq!(stream.read_byte(), -1);
    assert_eq!(stream.read_byte(), -1);
    let mut stream = BinaryCMapStream::new(vec![0xFF]);
    assert_eq!(stream.read_byte(), 255);
    assert_eq!(stream.read_byte(), -1);
    assert_eq!(stream.read_byte(), -1);
}

#[test]
fn numbers_take_seven_bits_from_each_byte() {
    assert_eq!(number(&[0x00]), Ok(0));
    assert_eq!(number(&[0x7F]), Ok(127));
    assert_eq!(number(&[0x81, 0x00]), Ok(128));
    assert_eq!(number(&[0x84, 0x79]), Ok(633));
    assert_eq!(number(&[0x80, 0x80, 0x05]), Ok(5));
    assert_eq!(number(&[0x8F, 0xFF, 0xFF, 0xFF, 0x7F]), Ok(0xFFFF_FFFF));
    assert_eq!(number(&[0xFF, 0xFF, 0xFF, 0x7F]), Ok(0x0FFF_FFFF));
}

#[test]
fn numbers_lose_the_bits_beyond_32() {
    assert_eq!(number(&[0x90, 0x80, 0x80, 0x80, 0x00]), Ok(0));
    assert_eq!(number(&[0x90, 0x80, 0x80, 0x80, 0x07]), Ok(7));
    assert_eq!(number(&[0xFF, 0xFF, 0xFF, 0xFF, 0xFF, 0x7F]), Ok(0xFFFF_FFFF));
}

#[test]
fn a_number_ends_at_the_first_byte_with_a_clear_top_bit() {
    let mut stream = BinaryCMapStream::new(vec![0x81, 0x01, 0x05, 0x82, 0x03]);
    assert_eq!(stream.read_number(), Ok(129));
    assert_eq!(stream.read_number(), Ok(5));
    assert_eq!(stream.read_number(), Ok(259));
    assert_eq!(stream.read_byte(), -1);
}

#[test]
fn a_number_that_does_not_end_is_an_error() {
    assert_eq!(number(&[]), Err("unexpected EOF in bcmap".to_string()));
    assert_eq!(number(&[0x81]), Err("unexpected EOF in bcmap".to_string()));
    assert_eq!(number(&[0x80, 0xFF, 0x80]), Err("unexpected EOF in bcmap".to_string()));
    assert_eq!(signed(&[0x80]), Err("unexpected EOF in bcmap".to_string()));
    let mut stream = BinaryCMapStream::new(vec![0x81, 0x82]);
    assert!(stream.read_number().is_err());
    assert_eq!(stream.read_byte(), -1);
}

#[test]
fn signed_numbers_keep_their_sign_in_the_lowest_bit() {
    assert_eq!(signed(&[0x00]), Ok(0));
    assert_eq!(signed(&[0x01]), Ok(-1));
    assert_eq!(signed(&[0x02]), Ok(1));
    assert_eq!(signed(&[0x03]), Ok(-2));
    assert_eq!(signed(&[0x04]), Ok(2));
    assert_eq!(signed(&[0x81, 0x00]), Ok(64));
    assert_eq!(signed(&[0x81, 0x01]), Ok(-65));
    assert_eq!(signed(&[0x8F, 0xFF, 0xFF, 0xFF, 0x7E]), Ok(i32::MAX));
    assert_eq!(signed(&[0x8F, 0xFF, 0xFF, 0xFF, 0x7F]), Ok(i32::MIN));
}

#[test]
fn read_hex_copies_raw_bytes() {
    let mut stream = BinaryCMapStream::new(vec![0x12, 0x34, 0x56, 0x78]);
    let mut num = vec![0xAAu8; 16];
    assert_eq!(stream.read_hex(&mut num, 1), Ok(()));
    assert_eq!(&num[..3], &[0x12, 0x34, 0xAA]);
    assert_eq!(stream.read_hex(&mut num, 0), Ok(()));
    assert_eq!(&num[..3], &[0x56, 0x34, 0xAA]);
    assert_eq!(stream.read_byte(), 0x78);
}

#[test]
fn read_hex_reads_nothing_where_bytes_are_missing() {
    let mut stream = BinaryCMapStream::new(vec![0x12, 0x34]);
    let mut num = vec![0xAAu8; 16];
    assert_eq!(stream.read_hex(&mut num, 2), Err("unexpected EOF in bcmap".to_string()));
    assert_eq!(num, vec![0xAAu8; 16]);
    assert_eq!(stream.read_byte(), 0x12);
    assert_eq!(stream.read_hex(&mut num, 0), Ok(()));
    assert_eq!(stream.read_hex(&mut num, 0), Err("unexpected EOF in bcmap".to_string()));
}

#[test]
fn read_hex_fills_all_sixteen_bytes() {
    let data: Vec<u8> = (1..=16).collect();
    let mut stream = BinaryCMapStream::new(data.clone());
    let mut num = vec![0u8; 16];
    assert_eq!(stream.read_hex(&mut num, 15), Ok(()));
    assert_eq!(num, data);
    assert_eq!(stream.read_byte(), -1);
}

#[test]
fn read_hex_number_packs_groups_into_bytes() {
    // 3 * 128 * 128 + 127 * 128 + 127 = 0xFFFF
    let mut stream = BinaryCMapStream::new(vec![0x83, 0xFF, 0x7F, 0x83, 0xFF, 0x7F, 0x83, 0xFF, 0x7F]);
    let mut num = vec![0xAAu8; 16];
    assert_eq!(stream.read_hex_number(&mut num, 1), Ok(()));
    assert_eq!(&num[..3], &[0xFF, 0xFF, 0xAA]);

    let mut num = vec![0xAAu8; 16];
    assert_eq!(stream.read_hex_number(&mut num, 3), Ok(()));
    assert_eq!(&num[..5], &[0x00, 0x00, 0xFF, 0xFF, 0xAA]);

    // What does not fit is lost.
    let mut num = vec![0xAAu8; 16];
    assert_eq!(stream.read_hex_number(&mut num, 0), Ok(()));
    assert_eq!(&num[..2], &[0xFF, 0xAA]);
    assert_eq!(stream.read_byte(), -1);
}

#[test]
fn read_hex_number_of_small_values() {
    let mut stream = BinaryCMapStream::new(vec![0x00, 0x01, 0x7F, 0x81, 0x00, 0x84, 0x79]);
    let mut num = vec![0xAAu8; 16];
    assert_eq!(stream.read_hex_number(&mut num, 1), Ok(()));
    assert_eq!(&num[..2], &[0x00, 0x00]);
    assert_eq!(stream.read_hex_number(&mut num, 1), Ok(()));
    assert_eq!(&num[..2], &[0x00, 0x01]);
    assert_eq!(stream.read_hex_number(&mut num, 1), Ok(()));
    assert_eq!(&num[..2], &[0x00, 0x7F]);
    assert_eq!(stream.read_hex_number(&mut num, 1), Ok(()));
    assert_eq!(&num[..2], &[0x00, 0x80]);
    assert_eq!(stream.read_hex_number(&mut num, 1), Ok(()));
    assert_eq!(&num[..2], &[0x02, 0x79]);
}

#[test]
fn read_hex_number_keeps_sixteen_groups() {
    // Sixteen groups: a 1 and fifteen zeros, 2 to the power 105.
    let mut data = vec![0x81u8];
    data.extend(vec![0x80u8; 14]);
    data.push(0x00);
    let mut stream = BinaryCMapStream::new(data);
    let mut num = vec![0xAAu8; 16];
    assert_eq!(stream.read_hex_number(&mut num, 15), Ok(()));
    let mut expected = vec![0u8; 16];
    expected[2] = 0x02;
    assert_eq!(num, expected);

    // A seventeenth group is read and dropped: the number stays.
    let mut data = vec![0x81u8];
    data.extend(vec![0x80u8; 15]);
    data.push(0x00);
    data.push(0x55);
    let mut stream = BinaryCMapStream::new(data);
    let mut num = vec![0xAAu8; 16];
    assert_eq!(stream.read_hex_number(&mut num, 15), Ok(()));
    assert_eq!(num, expected);
    assert_eq!(stream.read_byte(), 0x55);
}

#[test]
fn read_hex_number_that_does_not_end_is_an_error() {
    let mut stream = BinaryCMapStream::new(vec![0x83, 0xFF]);
    let mut num = vec![0xAAu8; 16];
    assert_eq!(stream.read_hex_number(&mut num, 1), Err("unexpected EOF in bcmap".to_string()));
    assert_eq!(num, vec![0xAAu8; 16]);
    assert_eq!(stream.read_hex_signed(&mut num, 1), Err("unexpected EOF in bcmap".to_string()));
    assert_eq!(num, vec![0xAAu8; 16]);
}

#[test]
fn read_hex_signed_halves_and_turns_over() {
    let mut stream = BinaryCMapStream::new(vec![0x06, 0x05, 0x84, 0x01, 0x84, 0x00, 0x00, 0x01]);
    let mut num = vec![0xAAu8; 16];
    // 6 stands for 3
    assert_eq!(stream.read_hex_signed(&mut num, 1), Ok(()));
    assert_eq!(&num[..3], &[0x00, 0x03, 0xAA]);
    // 5 stands for -3
    assert_eq!(stream.read_hex_signed(&mut num, 1), Ok(()));
    assert_eq!(&num[..3], &[0xFF, 0xFD, 0xAA]);
    // 513 stands for -257
    assert_eq!(stream.read_hex_signed(&mut num, 1), Ok(()));
    assert_eq!(&num[..3], &[0xFE, 0xFF, 0xAA]);
    // 512 stands for 256
    assert_eq!(stream.read_hex_signed(&mut num, 1), Ok(()));
    assert_eq!(&num[..3], &[0x01, 0x00, 0xAA]);
    // 0 stands for 0, 1 for -1
    assert_eq!(stream.read_hex_signed(&mut num, 2), Ok(()));
    assert_eq!(&num[..4], &[0x00, 0x00, 0x00, 0xAA]);
    assert_eq!(stream.read_hex_signed(&mut num, 2), Ok(()));
    assert_eq!(&num[..4], &[0xFF, 0xFF, 0xFF, 0xAA]);
}

#[test]
fn strings_are_a_count_and_that_many_numbers() {
    let mut stream = BinaryCMapStream::new(vec![0x03, 0x41, 0x42, 0x43, 0x00, 0x09]);
    assert_eq!(stream.read_string(), Ok(b"ABC".to_vec()));
    assert_eq!(stream.read_string(), Ok(vec![]));
    assert_eq!(stream.read_byte(), 9);
}

#[test]
fn strings_drop_numbers_over_255() {
    let mut stream = BinaryCMapStream::new(vec![0x04, 0x41, 0x82, 0x00, 0x81, 0x7F, 0x42]);
    assert_eq!(stream.read_string(), Ok(vec![0x41, 0xFF, 0x42]));
}

#[test]
fn a_string_that_is_cut_short_is_an_error() {
    let mut stream = BinaryCMapStream::new(vec![0x03, 0x41, 0x42]);
    assert_eq!(stream.read_string(), Err("unexpected EOF in bcmap".to_string()));
    let mut stream = BinaryCMapStream::new(vec![]);
    assert_eq!(stream.read_string(), Err("unexpected EOF in bcmap".to_string()));
}
