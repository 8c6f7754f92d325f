use linetools::wc::{count, count_digits, report, totals, Config, CountError};

fn config(lines: bool, words: bool, bytes: bool, chars: bool) -> Config {
    Config {
        files: vec!["test.txt".to_owned()],
        lines,
        words,
        bytes,
        chars,
    }
}

#[test]
fn test_count() {
    let config = Config {
        files: vec!["test.txt".to_owned()],
        lines: true,
        words: true,
        chars: false,
        bytes: true,
    };
    let text = "I don't want the world. I just want your half.\r\n";
    let info = count(text.as_bytes(), &config.files[0], &config);
    assert!(info.is_ok());
    let expected = ("test.txt", vec![1, 10, 48], 2);
    assert_eq!(info.expect("failed to read file"), expected);
}

#[test]
fn count_all_four_metrics() {
    let c = config(true, true, true, true);
    let info = count(b"a b\nc\n", "f", &c).unwrap();
    assert_eq!(info, ("f", vec![2, 3, 6, 6], 1));
}

#[test]
fn count_empty_input() {
    let c = config(true, true, true, true);
    assert_eq!(count(b"", "-", &c).unwrap(), ("-", vec![0, 0, 0, 0], 1));
}

#[test]
fn count_unterminated_last_line() {
    let c = config(true, true, true, false);
    assert_eq!(count(b"a b\nc", "f", &c).unwrap().1, vec![2, 3, 5]);
    assert_eq!(count(b"x\ny\nz\n", "f", &c).unwrap().1, vec![3, 3, 6]);
    assert_eq!(count(b"x\ny\nz", "f", &c).unwrap().1, vec![3, 3, 5]);
}

#[test]
fn count_chars_of_multibyte_and_invalid_text() {
    let c = config(false, false, true, true);
    // "é" is two bytes and one character; an invalid byte decodes to one character.
    assert_eq!(count("é\n".as_bytes(), "f", &c).unwrap().1, vec![3, 2]);
    assert_eq!(count(&[0xff, b'a', b'\n'], "f", &c).unwrap().1, vec![3, 3]);
}

#[test]
fn count_unicode_whitespace_separates_words() {
    let c = config(false, true, false, false);
    assert_eq!(count("a\u{3000}b\tc\n".as_bytes(), "f", &c).unwrap().1, vec![3]);
    assert_eq!(count(b"  lead and trail  \n", "f", &c).unwrap().1, vec![3]);
}

#[test]
fn count_only_selected_metrics_in_order() {
    let c = config(false, false, false, true);
    assert_eq!(count(b"ab\n", "f", &c).unwrap().1, vec![3]);
    let c = config(true, false, true, false);
    assert_eq!(count(b"ab\n", "f", &c).unwrap().1, vec![1, 3]);
}

#[test]
fn config_defaults_to_lines_words_bytes() {
    let c = Config::new(vec![], false, false, false, false);
    assert!(c.lines && c.words && c.bytes && !c.chars);
    let c = Config::new(vec![], false, false, false, true);
    assert!(!c.lines && !c.words && !c.bytes && c.chars);
}

#[test]
fn digits_of_counts() {
    assert_eq!(count_digits(0), 1);
    assert_eq!(count_digits(9), 1);
    assert_eq!(count_digits(10), 2);
    assert_eq!(count_digits(999), 3);
    assert_eq!(count_digits(1000), 4);
    assert_eq!(count_digits(12_345_678_901), 11);
}

#[test]
fn totals_are_element_wise_sums() {
    let rows = vec![("a", vec![1, 2, 3], 1), ("b", vec![10, 20, 30], 2)];
    assert_eq!(totals(&rows), Some(vec![11, 22, 33]));
    let none: Vec<(&str, Vec<usize>, usize)> = vec![];
    assert_eq!(totals(&none), Some(vec![]));
}

#[test]
fn totals_overflow() {
    let rows = vec![("a", vec![usize::MAX], 1), ("b", vec![1], 1)];
    assert_eq!(totals(&rows), None);
    assert_eq!(report(&rows, 2), Err(CountError::Overflow));
}

#[test]
fn report_single_file_single_metric_is_bare() {
    let rows = vec![("notes.txt", vec![42], 3)];
    assert_eq!(report(&rows, 1).unwrap(), b"42 notes.txt\n".to_vec());
    let rows = vec![("-", vec![42], 3)];
    assert_eq!(report(&rows, 1).unwrap(), b"42\n".to_vec());
}

#[test]
fn report_single_file_pads_to_byte_width() {
    let rows = vec![("f", vec![2, 3, 6], 1)];
    assert_eq!(report(&rows, 1).unwrap(), b"2 3 6 f\n".to_vec());
    let rows = vec![("f", vec![1, 10, 48], 2)];
    assert_eq!(report(&rows, 1).unwrap(), b" 1 10 48 f\n".to_vec());
}

#[test]
fn report_several_files_with_total() {
    let rows = vec![("a", vec![1, 2, 5], 1), ("b", vec![3, 4, 120], 3)];
    let text = report(&rows, 2).unwrap();
    assert_eq!(
        String::from_utf8(text).unwrap(),
        "  1   2   5 a\n  3   4 120 b\n  4   6 125 total\n"
    );
}

#[test]
fn report_skipped_file_counts_nothing() {
    // Three files were named; one failed to open and has no row.
    let rows = vec![("a", vec![1], 1), ("b", vec![2], 1)];
    assert_eq!(
        String::from_utf8(report(&rows, 3).unwrap()).unwrap(),
        "1 a\n2 b\n3 total\n"
    );
}
