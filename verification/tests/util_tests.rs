use savegame_analysis::util::{
    extract_bstr, first_and_last_and_count, is_ascii_whitespace, is_sorted, longest_true_sequence,
    parse_decimal_micro, sort_ticks, split_newlines, trim_bstr,
};

#[test]
fn test_split_newlines() {
    let text = b"10charssss\n6chars\n10charssss\n6chars\n";
    let lines: Vec<&[u8]> = split_newlines(text as &[u8], 6)
        .iter()
        .map(|&(a, b)| &text[a..b])
        .collect();
    assert_eq!(
        lines,
        vec![
            b"10charssss" as &[u8],
            b"6chars" as &[u8],
            b"10charssss" as &[u8],
            b"6chars" as &[u8]
        ]
    );

    let lines: Vec<&[u8]> = split_newlines(text as &[u8], 7)
        .iter()
        .map(|&(a, b)| &text[a..b])
        .collect();
    // The newline is covered by the skip-ahead length of 7, so it stays in
    // the line.
    assert_eq!(
        lines,
        vec![
            b"10charssss" as &[u8],
            b"6chars\n10charssss" as &[u8],
            b"6chars\n" as &[u8]
        ]
    );
}

#[test]
fn test_extract_str_and_bstr() {
    for (string, before, after, expected_outcome) in [
        ("#TITLE:helo;", "#TITLE:", ";", Some("helo")),
        ("#TITLE::::#TITLE:;", "#TITLE:", ";", Some(":::#TITLE:")),
        ("#TITLE:helo:", "#TITLE:", ";", None),
        ("#TITLE helo;", "#TITLE:", ";", None),
    ]
    .iter()
    {
        assert_eq!(
            extract_bstr(string.as_bytes(), before.as_bytes(), after.as_bytes()),
            expected_outcome.map(|s| s.as_bytes())
        );
    }
}

#[test]
fn test_first_and_last_and_count() {
    let v: Vec<char> = "2357".chars().collect();
    assert_eq!(first_and_last_and_count(&v), (Some(('2', '7')), 4));
    let v: Vec<char> = "2".chars().collect();
    assert_eq!(first_and_last_and_count(&v), (None, 1));
    let v: Vec<char> = "".chars().collect();
    assert_eq!(first_and_last_and_count(&v), (None, 0));
}

#[test]
fn test_is_sorted() {
    assert_eq!(is_sorted(&[1, 2, 3, 2]), false);
    assert_eq!(is_sorted(&[1, 2, 2, 3]), true);
}

#[test]
fn test_trim_bstr() {
    assert_eq!(trim_bstr(b" hello world   "), b"hello world".to_vec());
    assert_eq!(trim_bstr(b"hello world   "), b"hello world".to_vec());
    assert_eq!(trim_bstr(b" hello world"), b"hello world".to_vec());
    assert_eq!(trim_bstr(b"hello world"), b"hello world".to_vec());
    assert_eq!(trim_bstr(b" hello world \n\n \t"), b"hello world".to_vec());
}

#[test]
fn test_is_ascii_whitespace() {
    let whitespace_chars: &[u8] = b" \t\n\r\x0c\x0b";
    for char_code in 0..=255u8 {
        assert_eq!(
            is_ascii_whitespace(char_code),
            whitespace_chars.contains(&char_code)
        );
    }
}

#[test]
fn test_longest_true_sequence() {
    assert_eq!(longest_true_sequence(&[true, true, false, true]), 2);
    assert_eq!(longest_true_sequence(&[]), 0);
    assert_eq!(longest_true_sequence(&[true, true, true]), 3);
    // Non-adjacent runs never concatenate.
    assert_eq!(
        longest_true_sequence(&[true, true, false, true, false, true, true]),
        2
    );
    assert_eq!(longest_true_sequence(&[false, false]), 0);
}

#[test]
fn test_parse_decimal_micro() {
    assert_eq!(parse_decimal_micro(b"1.000000"), Some(1_000_000));
    assert_eq!(parse_decimal_micro(b"-0.018477"), Some(-18_477));
    assert_eq!(parse_decimal_micro(b"0.9191919"), Some(919_191));
    assert_eq!(parse_decimal_micro(b"120"), Some(120_000_000));
    assert_eq!(parse_decimal_micro(b"120.5"), Some(120_500_000));
    assert_eq!(parse_decimal_micro(b".5"), Some(500_000));
    assert_eq!(parse_decimal_micro(b"5."), Some(5_000_000));
    assert_eq!(parse_decimal_micro(b""), None);
    assert_eq!(parse_decimal_micro(b"-"), None);
    assert_eq!(parse_decimal_micro(b"."), None);
    assert_eq!(parse_decimal_micro(b"1.2.3"), None);
    assert_eq!(parse_decimal_micro(b"12a"), None);
    assert_eq!(parse_decimal_micro(b"00000000000000007"), Some(7_000_000));
    assert_eq!(parse_decimal_micro(b"10000000000000"), None);
    // Exponent forms.
    assert_eq!(parse_decimal_micro(b"1e2"), Some(100_000_000));
    assert_eq!(parse_decimal_micro(b"1E2"), Some(100_000_000));
    assert_eq!(parse_decimal_micro(b"1e+2"), Some(100_000_000));
    assert_eq!(parse_decimal_micro(b"1.5e-3"), Some(1_500));
    assert_eq!(parse_decimal_micro(b"-2.5e1"), Some(-25_000_000));
    assert_eq!(parse_decimal_micro(b"0e999"), Some(0));
    assert_eq!(parse_decimal_micro(b"1e-25"), Some(0));
    assert_eq!(parse_decimal_micro(b"2e20"), None);
    assert_eq!(parse_decimal_micro(b"1e"), None);
    assert_eq!(parse_decimal_micro(b"1e-"), None);
    assert_eq!(parse_decimal_micro(b"1e2.5"), None);
    assert_eq!(parse_decimal_micro(b"e5"), None);
}

#[test]
fn test_sort_ticks() {
    let v: Vec<u64> = vec![5, 1, 4, 1, 9];
    assert_eq!(sort_ticks(&v), vec![1, 1, 4, 5, 9]);
    let v: Vec<u64> = vec![];
    assert_eq!(sort_ticks(&v), Vec::<u64>::new());
}
