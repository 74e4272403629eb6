use pdf_cmap::{parse_binary_cmap, BinaryCMapReader, CMap};

fn process(data: &[u8]) -> (Result<(), String>, CMap) {
    let mut cmap = CMap::new();
    let result = BinaryCMapReader::new().process(data.to_vec(), &mut cmap);
    (result, cmap)
}

#[test]
fn the_header_gives_the_writing_mode() {
    assert!(!parse_binary_cmap(vec![0x00]).unwrap().is_vertical());
    assert!(parse_binary_cmap(vec![0x01]).unwrap().is_vertical());
    assert!(!parse_binary_cmap(vec![0x02]).unwrap().is_vertical());
    assert!(parse_binary_cmap(vec![0xFF]).unwrap().is_vertical());
}

#[test]
fn a_header_alone_gives_an_empty_map() {
    let cmap = parse_binary_cmap(vec![0x00]).unwrap();
    assert_eq!(cmap.name(), b"");
    assert_eq!(cmap.lookup_code(0), None);
    assert_eq!(cmap.read_code(&[0x00], 0), (0, 1));
}

#[test]
fn data_without_a_header_are_refused() {
    assert!(parse_binary_cmap(vec![]).is_none());
    let (result, _) = process(&[]);
    assert_eq!(result, Err("unexpected EOF in bcmap header".to_string()));
}

#[test]
fn a_record_of_an_unknown_kind_is_refused() {
    assert!(parse_binary_cmap(vec![0x00, 0xC0, 0x01]).is_none());
    let (result, _) = process(&[0x00, 0xC0, 0x01]);
    assert_eq!(result, Err("BinaryCMapReader.process - unknown type: 6".to_string()));
    let (result, _) = process(&[0x00, 0xDF, 0x00, 0x00]);
    assert_eq!(result, Err("BinaryCMapReader.process - unknown type: 6".to_string()));
    // The count is read before the kind is looked at.
    let (result, _) = process(&[0x00, 0xC0]);
    assert_eq!(result, Err("unexpected EOF in bcmap".to_string()));
}

#[test]
fn codespace_records_add_ranges() {
    // Two ranges of two-byte codes: 0000 to 007F, then 0080 to 00FF.
    let data = vec![0x00, 0x01, 0x02, 0x00, 0x00, 0x7F, 0x00, 0x7F];
    let cmap = parse_binary_cmap(data).unwrap();
    assert_eq!(cmap.read_code(&[0x00, 0x41], 0), (0x41, 2));
    assert_eq!(cmap.read_code(&[0x00, 0x7F], 0), (0x7F, 2));
    assert_eq!(cmap.read_code(&[0x00, 0x80], 0), (0x80, 2));
    assert_eq!(cmap.read_code(&[0x00, 0xFF], 0), (0xFF, 2));
    assert_eq!(cmap.read_code(&[0x01, 0x00], 0), (0, 1));
    assert_eq!(cmap.read_code(&[0x41], 0), (0, 1));
}

#[test]
fn codespace_records_leave_gaps() {
    // One-byte codes: 20 to 7E, then, three codes on, 82 to 85.
    let data = vec![0x00, 0x00, 0x02, 0x20, 0x5E, 0x03, 0x03];
    let cmap = parse_binary_cmap(data).unwrap();
    assert_eq!(cmap.read_code(&[0x20], 0), (0x20, 1));
    assert_eq!(cmap.read_code(&[0x7E], 0), (0x7E, 1));
    assert_eq!(cmap.read_code(&[0x7F], 0), (0, 1));
    assert_eq!(cmap.read_code(&[0x81], 0), (0, 1));
    assert_eq!(cmap.read_code(&[0x82], 0), (0x82, 1));
    assert_eq!(cmap.read_code(&[0x85], 0), (0x85, 1));
    assert_eq!(cmap.read_code(&[0x86], 0), (0, 1));
}

#[test]
fn codespace_records_of_four_byte_codes() {
    // 8EA1A1A1 to 8EA1FEFE: the length is 0x5D5D.
    let data = vec![0x00, 0x03, 0x01, 0x8E, 0xA1, 0xA1, 0xA1, 0x81, 0xBA, 0x5D];
    let cmap = parse_binary_cmap(data).unwrap();
    assert_eq!(cmap.read_code(&[0x8E, 0xA1, 0xA1, 0xA1], 0), (0x8EA1_A1A1, 4));
    assert_eq!(cmap.read_code(&[0x8E, 0xA1, 0xFE, 0xFE], 0), (0x8EA1_FEFE, 4));
    assert_eq!(cmap.read_code(&[0x8E, 0xA1, 0xFE, 0xFF], 0), (0, 1));
}

#[test]
fn codespace_records_of_longer_codes_add_nothing() {
    // Numbers of five bytes are read, but there is no codespace for them.
    let data = vec![0x00, 0x04, 0x01, 0x00, 0x00, 0x00, 0x00, 0x00, 0x7F, 0x40, 0x01, 0x41, 0x05];
    let cmap = parse_binary_cmap(data).unwrap();
    assert_eq!(cmap.read_code(&[0, 0, 0, 0, 0x41], 0), (0, 1));
    assert_eq!(cmap.lookup_code(0x41), Some(5));
}

#[test]
fn undefined_ranges_are_read_and_dropped() {
    // A record of two undefined ranges, then one of a single code.
    let data =
        vec![0x00, 0x20, 0x02, 0x00, 0x05, 0x0A, 0x01, 0x02, 0x0B, 0x40, 0x01, 0x41, 0x07];
    let cmap = parse_binary_cmap(data).unwrap();
    assert_eq!(cmap.lookup_code(0x00), None);
    assert_eq!(cmap.lookup_code(0x05), None);
    assert_eq!(cmap.lookup_code(0x41), Some(7));
}

#[test]
fn a_single_code_makes_a_single_mapping() {
    let cmap = parse_binary_cmap(vec![0x00, 0x40, 0x01, 0x41, 0x0A]).unwrap();
    assert_eq!(cmap.lookup_code(0x41), Some(10));
    for code in 0..0x200u32 {
        if code != 0x41 {
            assert_eq!(cmap.lookup_code(code), None);
        }
    }
    // Two-byte code, a value of two bytes, in a vertical map.
    let cmap = parse_binary_cmap(vec![0x01, 0x41, 0x01, 0x8A, 0x6D, 0x8B, 0x2C]).unwrap();
    assert!(cmap.is_vertical());
    assert_eq!(cmap.lookup_code(0x8A6D), Some(1452));
    assert_eq!(cmap.lookup_code(0x8A6E), None);
    assert_eq!(cmap.lookup_code(0x8A), None);
    assert_eq!(cmap.lookup_code(0x6D), None);
}

#[test]
fn a_record_without_items_still_has_its_first() {
    let cmap = parse_binary_cmap(vec![0x00, 0x40, 0x00, 0x41, 0x0A]).unwrap();
    assert_eq!(cmap.lookup_code(0x41), Some(10));
}

#[test]
fn single_codes_follow_by_differences() {
    // 41 -> 10; two codes on, 44 -> 10 + 2 + 1; next, 45 -> 13 - 1 + 1.
    let data = vec![0x00, 0x40, 0x03, 0x41, 0x0A, 0x02, 0x04, 0x00, 0x01];
    let cmap = parse_binary_cmap(data).unwrap();
    assert_eq!(cmap.lookup_code(0x41), Some(10));
    assert_eq!(cmap.lookup_code(0x42), None);
    assert_eq!(cmap.lookup_code(0x43), None);
    assert_eq!(cmap.lookup_code(0x44), Some(13));
    assert_eq!(cmap.lookup_code(0x45), Some(13));
    assert_eq!(cmap.lookup_code(0x46), None);
}

#[test]
fn single_codes_in_a_sequence_have_no_gaps() {
    // 41 -> 10, 42 -> 11, 43 -> 20
    let data = vec![0x00, 0x50, 0x03, 0x41, 0x0A, 0x00, 0x10];
    let cmap = parse_binary_cmap(data).unwrap();
    assert_eq!(cmap.lookup_code(0x41), Some(10));
    assert_eq!(cmap.lookup_code(0x42), Some(11));
    assert_eq!(cmap.lookup_code(0x43), Some(20));
    assert_eq!(cmap.lookup_code(0x44), None);
}

#[test]
fn values_of_single_codes_wrap_at_32_bits() {
    // 41 -> 0, then 42 -> 0 - 2 + 1, then 43 -> -1 + 0 + 1
    let data = vec![0x00, 0x50, 0x03, 0x41, 0x00, 0x03, 0x00];
    let cmap = parse_binary_cmap(data).unwrap();
    assert_eq!(cmap.lookup_code(0x41), Some(0));
    assert_eq!(cmap.lookup_code(0x42), Some(0xFFFF_FFFF));
    assert_eq!(cmap.lookup_code(0x43), Some(0));
}

#[test]
fn ranges_of_codes_map_to_consecutive_values() {
    // 8140 to 817E from 633 on; one code on, 8180 to 81AC from 696 on.
    let data = vec![
        0x00, 0x61, 0x02, 0x81, 0x40, 0x3E, 0x84, 0x79, 0x01, 0x2C, 0x85, 0x38,
    ];
    let cmap = parse_binary_cmap(data).unwrap();
    assert_eq!(cmap.lookup_code(0x813F), None);
    assert_eq!(cmap.lookup_code(0x8140), Some(633));
    assert_eq!(cmap.lookup_code(0x817E), Some(695));
    assert_eq!(cmap.lookup_code(0x817F), None);
    assert_eq!(cmap.lookup_code(0x8180), Some(696));
    assert_eq!(cmap.lookup_code(0x81AC), Some(740));
    assert_eq!(cmap.lookup_code(0x81AD), None);
}

#[test]
fn ranges_in_a_sequence_start_behind_the_last() {
    // 10 to 12 from 100 on; then 13 to 14 from 7 on.
    let data = vec![0x00, 0x70, 0x02, 0x10, 0x02, 0x64, 0x01, 0x07];
    let cmap = parse_binary_cmap(data).unwrap();
    assert_eq!(cmap.lookup_code(0x10), Some(100));
    assert_eq!(cmap.lookup_code(0x12), Some(102));
    assert_eq!(cmap.lookup_code(0x13), Some(7));
    assert_eq!(cmap.lookup_code(0x14), Some(8));
    assert_eq!(cmap.lookup_code(0x15), None);
}

#[test]
fn a_too_wide_range_in_a_record_is_passed_over() {
    // 00000000 to 01000000 is too wide; the record behind it is read.
    let data = vec![
        0x00, 0x63, 0x01, 0x00, 0x00, 0x00, 0x00, 0x88, 0x80, 0x80, 0x00, 0x05, 0x40, 0x01, 0x41,
        0x07,
    ];
    let cmap = parse_binary_cmap(data).unwrap();
    assert_eq!(cmap.lookup_code(0), None);
    assert_eq!(cmap.lookup_code(0x0100_0000), None);
    assert_eq!(cmap.lookup_code(0x41), Some(7));
}

#[test]
fn two_byte_codes_map_to_the_first_byte_of_their_destination() {
    // 0020 -> 30 00; two codes on, 0023 -> 30 00 + 1 + 256 = 31 01;
    // next, 0024 -> 31 01 + 1 - 3 = 30 FF.
    let data = vec![
        0x00, 0x81, 0x03, 0x00, 0x20, 0x30, 0x00, 0x02, 0x84, 0x00, 0x00, 0x05,
    ];
    let cmap = parse_binary_cmap(data).unwrap();
    assert_eq!(cmap.lookup_code(0x20), Some(0x30));
    assert_eq!(cmap.lookup_code(0x21), None);
    assert_eq!(cmap.lookup_code(0x23), Some(0x31));
    assert_eq!(cmap.lookup_code(0x24), Some(0x30));
}

#[test]
fn two_byte_codes_in_a_sequence() {
    // 0041 -> 70, 0042 -> 71, 0043 -> 71 + 1 - 1
    let data = vec![0x00, 0x90, 0x03, 0x00, 0x41, 0x70, 0x00, 0x01];
    let cmap = parse_binary_cmap(data).unwrap();
    assert_eq!(cmap.lookup_code(0x41), Some(0x70));
    assert_eq!(cmap.lookup_code(0x42), Some(0x71));
    assert_eq!(cmap.lookup_code(0x43), Some(0x71));
}

#[test]
fn two_byte_codes_carry_into_the_next_byte() {
    // 00FF -> 41; the next code is 0100.
    let data = vec![0x00, 0x90, 0x02, 0x00, 0xFF, 0x41, 0x00];
    let cmap = parse_binary_cmap(data).unwrap();
    assert_eq!(cmap.lookup_code(0xFF), Some(0x41));
    assert_eq!(cmap.lookup_code(0x100), Some(0x42));
}

#[test]
fn ranges_of_two_byte_codes_count_their_destination_up() {
    // 0010 to 0012 from "A" on
    let cmap = parse_binary_cmap(vec![0x00, 0xA0, 0x01, 0x00, 0x10, 0x02, 0x41]).unwrap();
    assert_eq!(cmap.lookup_code(0x0F), None);
    assert_eq!(cmap.lookup_code(0x10), Some(0x41));
    assert_eq!(cmap.lookup_code(0x11), Some(0x42));
    assert_eq!(cmap.lookup_code(0x12), Some(0x43));
    assert_eq!(cmap.lookup_code(0x13), None);
}

#[test]
fn ranges_of_two_byte_codes_with_longer_destinations() {
    // 0010 to 0012 from 4E FE on; one code on, 0014 to 0014 from 50 00.
    let data = vec![
        0x00, 0xA1, 0x02, 0x00, 0x10, 0x02, 0x4E, 0xFE, 0x01, 0x00, 0x50, 0x00,
    ];
    let cmap = parse_binary_cmap(data).unwrap();
    assert_eq!(cmap.lookup_code(0x10), Some(0x4E));
    assert_eq!(cmap.lookup_code(0x11), Some(0x4E));
    assert_eq!(cmap.lookup_code(0x12), Some(0x4F));
    assert_eq!(cmap.lookup_code(0x13), None);
    assert_eq!(cmap.lookup_code(0x14), Some(0x50));
    assert_eq!(cmap.lookup_code(0x15), None);
}

#[test]
fn ranges_of_two_byte_codes_in_a_sequence() {
    // 0010 to 0011 from "A"; then 0012 to 0013 from "x".
    let data = vec![0x00, 0xB0, 0x02, 0x00, 0x10, 0x01, 0x41, 0x01, 0x78];
    let cmap = parse_binary_cmap(data).unwrap();
    assert_eq!(cmap.lookup_code(0x10), Some(0x41));
    assert_eq!(cmap.lookup_code(0x11), Some(0x42));
    assert_eq!(cmap.lookup_code(0x12), Some(0x78));
    assert_eq!(cmap.lookup_code(0x13), Some(0x79));
    assert_eq!(cmap.lookup_code(0x14), None);
}

#[test]
fn notes_are_read_and_dropped() {
    // A comment "AB", the name "H" of another map, a note of another sort,
    // and a record of a single code.
    let data = vec![
        0x00, 0xE0, 0x02, 0x41, 0x42, 0xE1, 0x01, 0x48, 0xE2, 0xFF, 0x40, 0x01, 0x41, 0x07,
    ];
    let cmap = parse_binary_cmap(data).unwrap();
    assert_eq!(cmap.lookup_code(0x41), Some(7));
    assert_eq!(cmap.name(), b"");
}

#[test]
fn data_that_end_inside_a_record_are_refused() {
    let whole = vec![
        0x00, 0x61, 0x02, 0x81, 0x40, 0x3E, 0x84, 0x79, 0x01, 0x2C, 0x85, 0x38,
    ];
    assert!(parse_binary_cmap(whole.clone()).is_some());
    for cut in 2..whole.len() {
        let part = whole[..cut].to_vec();
        assert!(parse_binary_cmap(part.clone()).is_none());
        let (result, _) = process(&part);
        assert_eq!(result, Err("unexpected EOF in bcmap".to_string()));
    }
}

#[test]
fn every_kind_of_record_needs_all_its_items() {
    let records: Vec<Vec<u8>> = vec![
        vec![0x00, 0x01, 0x02, 0x00, 0x00, 0x7F, 0x00, 0x7F],
        vec![0x00, 0x20, 0x02, 0x00, 0x05, 0x0A, 0x01, 0x02, 0x0B],
        vec![0x00, 0x40, 0x03, 0x41, 0x0A, 0x02, 0x04, 0x00, 0x01],
        vec![0x00, 0x81, 0x03, 0x00, 0x20, 0x30, 0x00, 0x02, 0x84, 0x00, 0x00, 0x05],
        vec![0x00, 0xA1, 0x02, 0x00, 0x10, 0x02, 0x4E, 0xFE, 0x01, 0x00, 0x50, 0x00],
        vec![0x00, 0xE0, 0x02, 0x41, 0x42],
    ];
    for whole in records {
        assert!(parse_binary_cmap(whole.clone()).is_some());
        for cut in 2..whole.len() {
            assert!(parse_binary_cmap(whole[..cut].to_vec()).is_none());
        }
    }
}

#[test]
fn process_adds_to_the_map_it_is_given() {
    let mut cmap = CMap::identity_h();
    cmap.map_one(1, 2);
    let result = BinaryCMapReader::new().process(vec![0x01, 0x40, 0x01, 0x41, 0x0A], &mut cmap);
    assert_eq!(result, Ok(()));
    assert!(cmap.is_vertical());
    assert_eq!(cmap.name(), b"Identity-H");
    assert_eq!(cmap.lookup_code(1), Some(2));
    assert_eq!(cmap.lookup_code(0x41), Some(10));
    assert_eq!(cmap.read_code(&[0x12, 0x34], 0), (0x1234, 2));
}

#[test]
fn records_follow_one_another() {
    let data = vec![
        0x00, 0x01, 0x01, 0x00, 0x00, 0x83, 0xFF, 0x7F, 0x41, 0x01, 0x00, 0x20, 0x01, 0x61, 0x01,
        0x00, 0x30, 0x0F, 0x10,
    ];
    let cmap = parse_binary_cmap(data).unwrap();
    assert_eq!(cmap.read_code(&[0x12, 0x34], 0), (0x1234, 2));
    assert_eq!(cmap.lookup_code(0x20), Some(1));
    assert_eq!(cmap.lookup_code(0x30), Some(16));
    assert_eq!(cmap.lookup_code(0x3F), Some(31));
    assert_eq!(cmap.lookup_code(0x40), None);
}
