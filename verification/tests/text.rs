use zevinit::text::{char_count, is_blank, is_u32_text, newlines_and_tail};

#[test]
fn a_number_is_read_as_str_parse_reads_it() {
    for s in [
        "0", "42", "+7", "4294967295", "4294967296", "", "+", "-1", "1 ", " 1", "12a", "007", "99999999999",
        "-0", "++1", "٣",
    ] {
        assert_eq!(is_u32_text(s), s.parse::<u32>().is_ok(), "{s:?}");
    }
}

#[test]
fn blank_means_only_white_space() {
    assert!(is_blank(""));
    assert!(is_blank(" \t\n\u{3000}"));
    assert!(!is_blank(" x "));
}

#[test]
fn lines_are_counted_and_the_last_one_measured() {
    assert_eq!(newlines_and_tail("ab\ncde"), (1, 3));
    assert_eq!(newlines_and_tail("ab\n"), (1, 0));
    assert_eq!(newlines_and_tail("é"), (0, 1));
    assert_eq!(char_count("héllo"), 5);
}
