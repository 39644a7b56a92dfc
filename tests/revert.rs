use cxxd::{
    create_hex_dump, extract_data_from_lines, get_line_bytes, parse_hex_dump_line, FormatError,
    HexDumpOptions,
};

fn options(group_size: usize, cols: usize, little_endian: bool) -> HexDumpOptions {
    HexDumpOptions { little_endian, group_size, cols, length: None, seek: 0 }
}

#[test]
fn round_trip_with_default_configuration() {
    let data: Vec<u8> = (0u8..=255).chain(b"hello world".iter().copied()).collect();
    let lines = create_hex_dump(&data, &options(2, 16, false));
    assert_eq!(extract_data_from_lines(&lines), Ok(data));
}

#[test]
fn round_trip_of_hello_world() {
    let lines = create_hex_dump(b"hello world", &options(2, 16, false));
    assert_eq!(extract_data_from_lines(&lines), Ok(b"hello world".to_vec()));
}

#[test]
fn round_trip_with_other_big_endian_layouts() {
    let data: Vec<u8> = (0u8..100).collect();
    for (g, c) in [(1, 8), (3, 16), (5, 7), (0, 20), (16, 4)] {
        let lines = create_hex_dump(&data, &options(g, c, false));
        assert_eq!(extract_data_from_lines(&lines), Ok(data.clone()));
    }
}

#[test]
fn little_endian_dump_decodes_permuted() {
    let lines = create_hex_dump(b"hello world", &options(4, 16, true));
    assert_eq!(extract_data_from_lines(&lines), Ok(b"llehow odlr".to_vec()));
}

#[test]
fn empty_dump_decodes_to_nothing() {
    assert_eq!(extract_data_from_lines(&vec![]), Ok(vec![]));
}

#[test]
fn blank_lines_are_skipped() {
    let lines = vec![
        "".to_string(),
        "00000000: 6865  he".to_string(),
        "   \t ".to_string(),
        "00000002: 6c6c  ll".to_string(),
    ];
    assert_eq!(extract_data_from_lines(&lines), Ok(b"hell".to_vec()));
}

#[test]
fn parse_splits_label_hex_and_ascii() {
    let (label, hex, ascii) = parse_hex_dump_line("00000000: 6865 6c  hel: x").unwrap();
    assert_eq!(label, "00000000");
    assert_eq!(hex, " 6865 6c");
    assert_eq!(ascii, "hel: x");
}

#[test]
fn missing_colon_is_a_format_error() {
    assert_eq!(parse_hex_dump_line("00000000 6865  he"), Err(FormatError::MissingOffsetSeparator));
    assert_eq!(get_line_bytes("6865 6c6c"), Err(FormatError::MissingOffsetSeparator));
}

#[test]
fn missing_field_separator_is_a_format_error() {
    assert_eq!(get_line_bytes("00000000: 6865 6c6c hell"), Err(FormatError::MissingFieldSeparator));
}

#[test]
fn odd_digit_count_is_a_format_error() {
    assert_eq!(get_line_bytes("00000000: 6865 6  he."), Err(FormatError::OddHexLength));
}

#[test]
fn non_hex_character_is_named() {
    assert_eq!(
        get_line_bytes("00000000: 68zz  h."),
        Err(FormatError::InvalidHexDigit { substring: "zz".to_string() })
    );
    assert_eq!(
        get_line_bytes("00000000: 00+f  .."),
        Err(FormatError::InvalidHexDigit { substring: "+f".to_string() })
    );
}

#[test]
fn uppercase_digits_decode() {
    assert_eq!(get_line_bytes("00000000: ABcd 0F  ..."), Ok(vec![0xab, 0xcd, 0x0f]));
}

#[test]
fn first_bad_line_fails_the_whole_dump() {
    let lines = vec![
        "00000000: 6865  he".to_string(),
        "no colon here".to_string(),
        "00000004: 6g  ?".to_string(),
    ];
    assert_eq!(extract_data_from_lines(&lines), Err(FormatError::MissingOffsetSeparator));
}

#[test]
fn white_space_inside_the_hex_field_is_ignored() {
    assert_eq!(get_line_bytes("00000000: 6\t8 6 5\u{a0}  he"), Ok(vec![0x68, 0x65]));
}
