use cxxd::{
    byte_to_hex_string, create_hex_dump, get_block_ascii_value, get_block_hex_string,
    join_dump_lines, window_bounds, HexDumpOptions,
};

fn options(group_size: usize, cols: usize, little_endian: bool, seek: i32, length: Option<usize>) -> HexDumpOptions {
    HexDumpOptions { little_endian, group_size, cols, length, seek }
}

fn defaults() -> HexDumpOptions {
    options(2, 16, false, 0, None)
}

fn collapse(s: &str) -> String {
    s.split_whitespace().collect::<Vec<_>>().join(" ")
}

fn dump(opts: &HexDumpOptions) -> Vec<String> {
    create_hex_dump(b"hello world", opts)
}

#[test]
fn test_should_print_hex_dump_for_a_file() {
    let lines = dump(&defaults());
    assert_eq!(lines.len(), 1);
    assert!(collapse(&lines[0]).contains("00000000: 6865 6c6c 6f20 776f 726c 64 hello world"));
}

#[test]
fn test_should_print_little_endian_hex_dump_for_a_file() {
    let lines = dump(&options(4, 16, true, 0, None));
    assert!(collapse(&lines[0]).contains("00000000: 6c6c6568 6f77206f 646c72 hello world"));
}

#[test]
fn test_should_be_able_to_change_group_size() {
    let lines = dump(&options(3, 16, false, 0, None));
    assert!(collapse(&lines[0]).contains("00000000: 68656c 6c6f20 776f72 6c64 hello world"));
}

#[test]
fn test_should_be_able_to_change_group_size_in_little_endian() {
    let lines = dump(&options(6, 16, true, 0, None));
    assert!(collapse(&lines[0]).contains("00000000: 206f6c6c6568 646c726f77 hello world"));
}

#[test]
fn test_should_limit_output_length_with_len_option() {
    let lines = dump(&options(2, 16, false, 0, Some(5)));
    assert!(collapse(&lines[0]).contains("00000000: 6865 6c6c 6f hello"));
}

#[test]
fn test_should_split_output_based_on_cols_option() {
    let lines = dump(&options(2, 4, false, 0, None));
    assert_eq!(collapse(&lines[0]), "00000000: 6865 6c6c hell");
    assert_eq!(collapse(&lines[1]), "00000004: 6f20 776f o wo");
    assert_eq!(collapse(&lines[2]), "00000008: 726c 64 rld");
}

#[test]
fn test_should_skip_bytes_with_positive_seek_option() {
    let lines = dump(&options(2, 16, false, 2, None));
    assert!(collapse(&lines[0]).contains("00000002: 6c6c 6f20 776f 726c 64 llo world"));
}

#[test]
fn test_should_skip_bytes_with_negative_seek_option() {
    let lines = dump(&options(2, 16, false, -5, None));
    assert!(collapse(&lines[0]).contains("00000006: 776f 726c 64 world"));
}

#[test]
fn test_should_display_exact_content_with_seek_and_length_options() {
    let lines = dump(&options(2, 16, false, 2, Some(5)));
    assert!(collapse(&lines[0]).contains("00000002: 6c6c 6f20 77 llo w"));
}

#[test]
fn default_line_is_padded_to_a_full_line() {
    let lines = dump(&defaults());
    assert_eq!(
        lines,
        vec!["00000000: 6865 6c6c 6f20 776f 726c 64              hello world".to_string()]
    );
}

#[test]
fn cols_four_gives_three_aligned_lines() {
    let lines = dump(&options(2, 4, false, 0, None));
    assert_eq!(
        lines,
        vec![
            "00000000: 6865 6c6c  hell".to_string(),
            "00000004: 6f20 776f  o wo".to_string(),
            "00000008: 726c 64    rld".to_string(),
        ]
    );
    let ascii_column: Vec<usize> = lines.iter().map(|l| l.rfind("  ").unwrap()).collect();
    assert_eq!(ascii_column[0], ascii_column[1]);
    assert_eq!(ascii_column[1], ascii_column[2]);
}

#[test]
fn negative_seek_starts_at_the_resolved_offset() {
    let lines = dump(&options(2, 16, false, -5, None));
    assert_eq!(lines.len(), 1);
    assert!(lines[0].starts_with("00000006: "));
    assert!(lines[0].ends_with("  world"));
}

#[test]
fn seek_and_length_cover_exact_bytes() {
    let lines = dump(&options(2, 16, false, 2, Some(5)));
    assert_eq!(lines.len(), 1);
    assert!(lines[0].starts_with("00000002: 6c6c 6f20 77 "));
    assert!(lines[0].ends_with("  llo w"));
}

#[test]
fn negative_seek_past_the_front_clamps_to_zero() {
    assert_eq!(window_bounds(11, -100, None), (0, 11));
    let lines = dump(&options(2, 16, false, -100, None));
    assert!(lines[0].starts_with("00000000: 6865"));
}

#[test]
fn length_past_the_end_clamps_to_the_end() {
    assert_eq!(window_bounds(11, 3, Some(100)), (3, 11));
    assert_eq!(window_bounds(11, 3, Some(usize::MAX)), (3, 11));
    let lines = dump(&options(2, 16, false, 3, Some(100)));
    assert!(lines[0].ends_with("  lo world"));
}

#[test]
fn positive_seek_past_the_end_gives_no_lines() {
    assert_eq!(window_bounds(11, 50, Some(3)), (11, 11));
    assert!(dump(&options(2, 16, false, 50, None)).is_empty());
}

#[test]
fn empty_buffer_gives_no_lines() {
    assert!(create_hex_dump(&[], &defaults()).is_empty());
}

#[test]
fn line_count_rounds_up() {
    let data: Vec<u8> = (0u8..=32).collect();
    let lines = create_hex_dump(&data, &defaults());
    assert_eq!(lines.len(), 3);
    assert!(lines[0].starts_with("00000000: 0001 0203"));
    assert!(lines[1].starts_with("00000010: 1011"));
    assert!(lines[2].starts_with("00000020: 20 "));
    let offsets: Vec<usize> = lines
        .iter()
        .map(|l| usize::from_str_radix(&l[..8], 16).unwrap())
        .collect();
    assert_eq!(offsets, vec![0, 16, 32]);
}

#[test]
fn group_size_zero_means_sixteen() {
    let data: Vec<u8> = (0u8..16).collect();
    let hex = get_block_hex_string(&data, &options(0, 16, false, 0, None));
    assert_eq!(hex, "000102030405060708090a0b0c0d0e0f");
}

#[test]
fn group_wider_than_the_line_keeps_every_byte() {
    let hex = get_block_hex_string(b"abcd", &options(16, 4, false, 0, None));
    assert_eq!(hex, format!("61626364{}", " ".repeat(24)));
}

#[test]
fn ragged_full_line_keeps_its_last_byte() {
    let data: Vec<u8> = (0u8..16).collect();
    let hex = get_block_hex_string(&data, &options(3, 16, false, 0, None));
    assert_eq!(hex, "000102 030405 060708 090a0b 0c0d0e 0f    ");
}

#[test]
fn little_endian_reverses_each_group() {
    let hex = get_block_hex_string(&[1, 2, 3, 4, 5], &options(2, 6, true, 0, None));
    assert_eq!(hex, "0201 0403 05  ");
}

#[test]
fn byte_renders_as_two_lowercase_digits() {
    assert_eq!(byte_to_hex_string(0), "00");
    assert_eq!(byte_to_hex_string(10), "0a");
    assert_eq!(byte_to_hex_string(0xab), "ab");
    assert_eq!(byte_to_hex_string(255), "ff");
}

#[test]
fn ascii_column_dots_non_printable_bytes() {
    assert_eq!(get_block_ascii_value(&[0, 31, 32, 65, 126, 127, 200, 46]), ".. A~...");
    assert_eq!(get_block_ascii_value(b"hi!"), "hi!");
    assert_eq!(get_block_ascii_value(&[]), "");
}

#[test]
fn ascii_dot_only_outside_printable_range() {
    for x in 0u8..=255 {
        let s = get_block_ascii_value(&[x]);
        if x != b'.' {
            assert_eq!(s == ".", x < 32 || x > 126, "byte {x}");
        }
    }
}

#[test]
fn offsets_step_by_cols() {
    let data = vec![7u8; 40];
    let lines = create_hex_dump(&data, &options(2, 5, false, 3, None));
    assert_eq!(lines.len(), 8);
    for (i, line) in lines.iter().enumerate() {
        let off = usize::from_str_radix(&line[..8], 16).unwrap();
        assert_eq!(off, 3 + 5 * i);
    }
    assert!(lines[7].ends_with("  ..")); 
}

#[test]
fn joined_dump_has_one_newline_between_lines() {
    let lines = vec!["a".to_string(), "b".to_string(), "c".to_string()];
    assert_eq!(join_dump_lines(&lines), "a\nb\nc");
    assert_eq!(join_dump_lines(&vec![]), "");
    assert_eq!(join_dump_lines(&vec!["x".to_string()]), "x");
}
