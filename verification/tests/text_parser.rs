use pdf_cmap::parse_cmap;

#[test]
fn test_parse_beginbfchar() {
    let input = "2 beginbfchar\n<03> <00>\n<04> <01>\nendbfchar".to_string();

    let cmap = parse_cmap(input.as_bytes()).unwrap();

    assert_eq!(cmap.lookup_code(0x03), Some(0x00));
    assert_eq!(cmap.lookup_code(0x04), Some(0x01));
    assert!(cmap.lookup_code(0x05).is_none());
}

#[test]
fn test_parse_beginbfrange_with_range() {
    let input = "1 beginbfrange\n<06> <0B> 0\nendbfrange".to_string();

    let cmap = parse_cmap(input.as_bytes()).unwrap();

    assert!(cmap.lookup_code(0x05).is_none());
    assert_eq!(cmap.lookup_code(0x06), Some(0x00));
    assert_eq!(cmap.lookup_code(0x0b), Some(0x05));
    assert!(cmap.lookup_code(0x0c).is_none());
}

#[test]
fn test_parse_beginbfrange_with_array() {
    let input = "1 beginbfrange\n<0D> <12> [ 0 1 2 3 4 5 ]\nendbfrange".to_string();

    let cmap = parse_cmap(input.as_bytes()).unwrap();

    assert!(cmap.lookup_code(0x0c).is_none());
    assert_eq!(cmap.lookup_code(0x0d), Some(0x00));
    assert_eq!(cmap.lookup_code(0x12), Some(0x05));
    assert!(cmap.lookup_code(0x13).is_none());
}

#[test]
fn test_parse_begincidchar() {
    let input = "1 begincidchar\n<14> 0\nendcidchar".to_string();

    let cmap = parse_cmap(input.as_bytes()).unwrap();

    assert_eq!(cmap.lookup_code(0x14), Some(0x00));
    assert!(cmap.lookup_code(0x15).is_none());
}

#[test]
fn test_parse_begincidrange() {
    let input = "1 begincidrange\n<0016> <001B> 0\nendcidrange".to_string();

    let cmap = parse_cmap(input.as_bytes()).unwrap();

    assert!(cmap.lookup_code(0x15).is_none());
    assert_eq!(cmap.lookup_code(0x16), Some(0x00));
    assert_eq!(cmap.lookup_code(0x1b), Some(0x05));
    assert!(cmap.lookup_code(0x1c).is_none());
}

#[test]
fn test_parse_4_byte_codespace_ranges() {
    let input = "1 begincodespacerange\n<8EA1A1A1> <8EA1FEFE>\nendcodespacerange".to_string();

    let cmap = parse_cmap(input.as_bytes()).unwrap();

    let test_bytes = [0x8E, 0xA1, 0xA1, 0xA1];
    let (charcode, length) = cmap.read_code(&test_bytes, 0);
    assert_eq!(charcode, 0x8ea1a1a1);
    assert_eq!(length, 4);
}

#[test]
fn test_parse_cmap_name() {
    let input = "/CMapName /Identity-H def".to_string();

    let cmap = parse_cmap(input.as_bytes()).unwrap();
    assert_eq!(cmap.name(), "Identity-H".as_bytes());
}

#[test]
fn test_parse_wmode() {
    let input = "/WMode 1 def".to_string();

    let cmap = parse_cmap(input.as_bytes()).unwrap();
    assert!(cmap.is_vertical());
}

#[test]
fn test_simple_cidrange() {
    let input = "1 begincidrange\n<00> <FF> 0\nendcidrange".to_string();

    let cmap = parse_cmap(input.as_bytes()).unwrap();

    // The codes 0x00 to 0xFF stand for the identifiers 0 to 255.
    assert_eq!(cmap.lookup_code(0x00), Some(0));
    assert_eq!(cmap.lookup_code(0x41), Some(65));
    assert_eq!(cmap.lookup_code(0xFF), Some(255));
    assert_eq!(cmap.lookup_code(0x100), None);
}

#[test]
fn test_complex_cmap_with_postscript() {
    let input = "/CIDInit /ProcSet findresource begin
12 dict begin
begincmap
/CIDSystemInfo
<< /Registry (Adobe)
/Ordering (Identity)
/Supplement 0
>> def
/CMapName /Identity-H def
/CMapType 2 def
1 begincodespacerange
<00> <FF>
endcodespacerange
1 begincidrange
<00> <FF> 0
endcidrange
endcmap
CMapName currentdict /CMap defineresource pop
end
end"
        .to_string();

    let cmap = parse_cmap(input.as_bytes()).unwrap();

    assert_eq!(cmap.lookup_code(0x00), Some(0));
    assert_eq!(cmap.lookup_code(0x41), Some(65));
    assert_eq!(cmap.lookup_code(0xFF), Some(255));
    assert_eq!(cmap.lookup_code(0x100), None);
    assert_eq!(cmap.name(), "Identity-H".as_bytes());
}

#[test]
fn input_without_directives_gives_an_empty_map() {
    let cmap = parse_cmap(b"").unwrap();
    assert_eq!(cmap.name(), "".as_bytes());
    assert!(!cmap.is_vertical());
    assert_eq!(cmap.lookup_code(0), None);
    assert_eq!(cmap.read_code(&[0], 0), (0, 1));

    let cmap = parse_cmap(b"12 dict begin (text) <0041> [ 1 2 ] foo end").unwrap();
    assert_eq!(cmap.lookup_code(0x41), None);
    assert!(!cmap.is_vertical());
}

#[test]
fn wmode_sets_the_writing_mode() {
    assert!(parse_cmap(b"/WMode 1 def").unwrap().is_vertical());
    assert!(!parse_cmap(b"/WMode 0 def").unwrap().is_vertical());
    assert!(parse_cmap(b"/WMode 2 def").unwrap().is_vertical());
    assert!(parse_cmap(b"/WMode -1 def").unwrap().is_vertical());
    assert!(!parse_cmap(b"/WMode 1 def /WMode 0 def").unwrap().is_vertical());
    assert!(parse_cmap(b"/WMode 0 def /WMode 1 def").unwrap().is_vertical());
}

#[test]
fn wmode_in_front_of_directives_makes_the_map_vertical() {
    let plain = "1 begincidrange\n<00> <FF> 0\nendcidrange";
    assert!(!parse_cmap(plain.as_bytes()).unwrap().is_vertical());
    let with_mode = format!("/WMode 1 def\n{}", plain);
    let cmap = parse_cmap(with_mode.as_bytes()).unwrap();
    assert!(cmap.is_vertical());
    assert_eq!(cmap.lookup_code(0x41), Some(65));
    let behind = format!("{}\n/WMode 1 def", plain);
    assert!(parse_cmap(behind.as_bytes()).unwrap().is_vertical());
}

#[test]
fn wmode_takes_the_token_behind_it_whatever_it_is() {
    // The command is taken for the value of /WMode, so no directive starts.
    let cmap = parse_cmap(b"/WMode beginbfchar <03> <00> endbfchar").unwrap();
    assert!(!cmap.is_vertical());
    assert_eq!(cmap.lookup_code(0x03), None);
    assert!(!parse_cmap(b"/WMode").unwrap().is_vertical());
}

#[test]
fn cmap_name_needs_a_name() {
    assert_eq!(parse_cmap(b"/CMapName /Adobe-GB1-0 def").unwrap().name(), b"Adobe-GB1-0");
    assert_eq!(parse_cmap(b"/CMapName (Adobe) def").unwrap().name(), b"");
    assert_eq!(parse_cmap(b"/CMapName 5 /Other").unwrap().name(), b"");
    assert_eq!(parse_cmap(b"/CMapName /A /CMapName /B").unwrap().name(), b"B");
}

#[test]
fn a_parsed_identity_name_makes_an_identity_map() {
    let cmap = parse_cmap(b"/CMapName /Identity-V def /WMode 1 def").unwrap();
    assert!(cmap.is_vertical());
    assert_eq!(cmap.lookup_code(0x1234), Some(0x1234));
    assert_eq!(cmap.lookup_code(0x1_0000), None);
}

#[test]
fn endcmap_stops_the_reading() {
    let cmap = parse_cmap(b"/WMode 1 def endcmap /WMode 0 def 1 beginbfchar <03> <00> endbfchar")
        .unwrap();
    assert!(cmap.is_vertical());
    assert_eq!(cmap.lookup_code(0x03), None);
}

#[test]
fn bfchar_destinations_of_up_to_two_bytes_are_code_points() {
    let cmap = parse_cmap(b"beginbfchar <01> <0041> <02> <263A> <03> <FFFF> endbfchar").unwrap();
    assert_eq!(cmap.lookup_code(0x01), Some(0x0041));
    assert_eq!(cmap.lookup_code(0x02), Some(0x263A));
    assert_eq!(cmap.lookup_code(0x03), Some(0xFFFF));
}

#[test]
fn bfchar_destinations_that_are_no_scalar_value_give_their_first_byte() {
    let cmap = parse_cmap(b"beginbfchar <01> <D800> <02> <DFFF> <03> <D7FF> <04> <E000> endbfchar")
        .unwrap();
    assert_eq!(cmap.lookup_code(0x01), Some(0xD8));
    assert_eq!(cmap.lookup_code(0x02), Some(0xDF));
    assert_eq!(cmap.lookup_code(0x03), Some(0xD7FF));
    assert_eq!(cmap.lookup_code(0x04), Some(0xE000));
}

#[test]
fn bfchar_destinations_of_more_bytes_give_their_first_byte() {
    let cmap = parse_cmap(b"beginbfchar <01> <004100420043> <02> (xyz) <03> <> endbfchar").unwrap();
    assert_eq!(cmap.lookup_code(0x01), Some(0x00));
    assert_eq!(cmap.lookup_code(0x02), Some(0x78));
    assert_eq!(cmap.lookup_code(0x03), Some(0));
}

#[test]
fn bfchar_sources_pack_their_last_four_bytes() {
    let cmap = parse_cmap(b"beginbfchar <0102030405> <41> (AB) <42> endbfchar").unwrap();
    assert_eq!(cmap.lookup_code(0x0203_0405), Some(0x41));
    assert_eq!(cmap.lookup_code(0x4142), Some(0x42));
}

#[test]
fn a_directive_ends_with_the_input() {
    let cmap = parse_cmap(b"beginbfchar <03> <00> <04> <01>").unwrap();
    assert_eq!(cmap.lookup_code(0x03), Some(0x00));
    assert_eq!(cmap.lookup_code(0x04), Some(0x01));
    assert!(parse_cmap(b"beginbfchar").is_some());
    assert!(parse_cmap(b"beginbfrange").is_some());
    assert!(parse_cmap(b"begincidchar").is_some());
    assert!(parse_cmap(b"begincidrange").is_some());
    assert!(parse_cmap(b"begincodespacerange").is_some());
}

#[test]
fn an_entry_that_lacks_a_part_is_refused() {
    assert!(parse_cmap(b"beginbfchar <03> endbfchar").is_none());
    assert!(parse_cmap(b"beginbfchar <03>").is_none());
    assert!(parse_cmap(b"beginbfchar 3 <00> endbfchar").is_none());
    assert!(parse_cmap(b"beginbfchar /A <00> endbfchar").is_none());
    assert!(parse_cmap(b"begincidchar <03> <00> endcidchar").is_none());
    assert!(parse_cmap(b"begincidchar <03>").is_none());
    assert!(parse_cmap(b"begincidrange <03> <04> endcidrange").is_none());
    assert!(parse_cmap(b"begincidrange <03> 4 5 endcidrange").is_none());
    assert!(parse_cmap(b"beginbfrange <03> 4 5 endbfrange").is_none());
    assert!(parse_cmap(b"beginbfrange <03> <04>").is_none());
    assert!(parse_cmap(b"begincodespacerange <00> 5 endcodespacerange").is_none());
    assert!(parse_cmap(b"begincodespacerange 0 <05> endcodespacerange").is_none());
    assert!(parse_cmap(b"begincodespacerange <00>").is_none());
    // The word that ends another directive is no entry.
    assert!(parse_cmap(b"beginbfchar endcidchar").is_none());
}

#[test]
fn too_wide_ranges_refuse_the_whole_map() {
    assert!(parse_cmap(b"begincidrange <00000000> <01000000> 0 endcidrange").is_none());
    assert!(parse_cmap(b"beginbfrange <00000000> <01000000> <41> endbfrange").is_none());
    assert!(parse_cmap(b"beginbfrange <00000000> <01000000> 0 endbfrange").is_none());
    assert!(parse_cmap(b"beginbfrange <00000000> <01000000> [ 1 ] endbfrange").is_none());
    assert!(parse_cmap(b"/WMode 1 def begincidrange <00000000> <FFFFFFFF> 0 endcidrange").is_none());
}

#[test]
fn the_widest_range_of_an_array_is_read() {
    let cmap = parse_cmap(b"beginbfrange <00000000> <00FFFFFF> [ 7 ] endbfrange").unwrap();
    assert_eq!(cmap.lookup_code(0), Some(7));
    assert_eq!(cmap.lookup_code(1), None);
}

#[test]
fn a_range_that_ends_before_it_starts_is_read_as_empty() {
    let cmap = parse_cmap(b"begincidrange <10> <0F> 0 <20> <21> 5 endcidrange").unwrap();
    assert_eq!(cmap.lookup_code(0x0F), None);
    assert_eq!(cmap.lookup_code(0x10), None);
    assert_eq!(cmap.lookup_code(0x20), Some(5));
    assert_eq!(cmap.lookup_code(0x21), Some(6));
}

#[test]
fn bfrange_with_an_integer_destination() {
    let cmap = parse_cmap(b"beginbfrange <10> <12> 65 endbfrange").unwrap();
    assert_eq!(cmap.lookup_code(0x10), Some(65));
    assert_eq!(cmap.lookup_code(0x11), Some(66));
    assert_eq!(cmap.lookup_code(0x12), Some(67));
    // Only the lowest byte of the integer counts.
    let cmap = parse_cmap(b"beginbfrange <10> <11> 321 endbfrange").unwrap();
    assert_eq!(cmap.lookup_code(0x10), Some(65));
    assert_eq!(cmap.lookup_code(0x11), Some(66));
    let cmap = parse_cmap(b"beginbfrange <10> <12> -2 endbfrange").unwrap();
    assert_eq!(cmap.lookup_code(0x10), Some(0xFE));
    assert_eq!(cmap.lookup_code(0x11), Some(0xFF));
    assert_eq!(cmap.lookup_code(0x12), Some(0xFF));
}

#[test]
fn bfrange_with_a_string_destination() {
    let cmap = parse_cmap(b"beginbfrange <10> <12> <41FE> <20> <21> (z) endbfrange").unwrap();
    assert_eq!(cmap.lookup_code(0x10), Some(0x41));
    assert_eq!(cmap.lookup_code(0x11), Some(0x41));
    assert_eq!(cmap.lookup_code(0x12), Some(0x42));
    assert_eq!(cmap.lookup_code(0x20), Some(0x7A));
    assert_eq!(cmap.lookup_code(0x21), Some(0x7B));
}

#[test]
fn bfrange_with_an_array_of_strings_and_integers() {
    let cmap = parse_cmap(b"beginbfrange <10> <15> [ <0041> 66 (C) /skipped -1 ] endbfrange").unwrap();
    assert_eq!(cmap.lookup_code(0x10), Some(0x00));
    assert_eq!(cmap.lookup_code(0x11), Some(66));
    assert_eq!(cmap.lookup_code(0x12), Some(0x43));
    assert_eq!(cmap.lookup_code(0x13), Some(0xFFFF_FFFF));
    assert_eq!(cmap.lookup_code(0x14), None);
}

#[test]
fn an_array_ends_with_the_input() {
    let cmap = parse_cmap(b"beginbfrange <10> <15> [ 1 2").unwrap();
    assert_eq!(cmap.lookup_code(0x10), Some(1));
    assert_eq!(cmap.lookup_code(0x11), Some(2));
    assert_eq!(cmap.lookup_code(0x12), None);
}

#[test]
fn bfrange_refuses_other_destinations() {
    assert!(parse_cmap(b"beginbfrange <10> <15> /Name endbfrange").is_none());
    assert!(parse_cmap(b"beginbfrange <10> <15> ] endbfrange").is_none());
    assert!(parse_cmap(b"beginbfrange <10> <15> << endbfrange").is_none());
    assert!(parse_cmap(b"beginbfrange <10> <15> endbfrange").is_none());
}

#[test]
fn cidchar_takes_the_integer_as_it_is() {
    let cmap = parse_cmap(b"begincidchar <41> 65 <0142> 7 <43> -1 endcidchar").unwrap();
    assert_eq!(cmap.lookup_code(0x41), Some(65));
    assert_eq!(cmap.lookup_code(0x142), Some(7));
    assert_eq!(cmap.lookup_code(0x43), Some(0xFFFF_FFFF));
}

#[test]
fn cidrange_values_run_from_the_first() {
    let cmap = parse_cmap(b"begincidrange <8140> <817E> 633 <8180> <81AC> 696 endcidrange").unwrap();
    assert_eq!(cmap.lookup_code(0x8140), Some(633));
    assert_eq!(cmap.lookup_code(0x817E), Some(695));
    assert_eq!(cmap.lookup_code(0x817F), None);
    assert_eq!(cmap.lookup_code(0x8180), Some(696));
    assert_eq!(cmap.lookup_code(0x81AC), Some(740));
}

#[test]
fn codespace_ranges_take_their_length_from_the_upper_bound() {
    let cmap = parse_cmap(b"begincodespacerange <00> <80> <8140> <9FFC> endcodespacerange").unwrap();
    assert_eq!(cmap.read_code(&[0x41], 0), (0x41, 1));
    assert_eq!(cmap.read_code(&[0x81, 0x40], 0), (0x8140, 2));
    assert_eq!(cmap.read_code(&[0x81], 0), (0, 1));

    // Five bytes are no length of a code.
    let cmap = parse_cmap(b"begincodespacerange <0000000000> <00000000FF> endcodespacerange")
        .unwrap();
    assert_eq!(cmap.read_code(&[0, 0, 0, 0, 0x41], 0), (0, 1));

    let cmap = parse_cmap(b"begincodespacerange (a) (z) endcodespacerange").unwrap();
    assert_eq!(cmap.read_code(b"m", 0), (0x6D, 1));
}

#[test]
fn codespace_ranges_pass_over_an_empty_lower_bound() {
    let cmap = parse_cmap(b"begincodespacerange <> <00> <FF> endcodespacerange").unwrap();
    assert_eq!(cmap.read_code(&[0x41], 0), (0x41, 1));
}

#[test]
fn codespace_ranges_refuse_an_empty_upper_bound() {
    assert!(parse_cmap(b"begincodespacerange <00> <> endcodespacerange").is_none());
}

#[test]
fn directives_follow_one_another() {
    let cmap = parse_cmap(
        b"begincodespacerange <00> <FF> endcodespacerange
          beginbfchar <01> <0041> endbfchar
          begincidchar <02> 7 endcidchar
          beginbfrange <10> <11> <0061> endbfrange
          begincidrange <20> <21> 100 endcidrange",
    )
    .unwrap();
    assert_eq!(cmap.lookup_code(0x01), Some(0x41));
    assert_eq!(cmap.lookup_code(0x02), Some(7));
    assert_eq!(cmap.lookup_code(0x10), Some(0));
    assert_eq!(cmap.lookup_code(0x11), Some(0));
    assert_eq!(cmap.lookup_code(0x20), Some(100));
    assert_eq!(cmap.lookup_code(0x21), Some(101));
    assert_eq!(cmap.read_code(&[0x20], 0), (0x20, 1));
}

#[test]
fn usecmap_is_passed_over() {
    let cmap = parse_cmap(b"/Adobe-Japan1-0 usecmap begincidchar <41> 1 endcidchar").unwrap();
    assert_eq!(cmap.lookup_code(0x41), Some(1));
    assert_eq!(cmap.name(), b"");
}
