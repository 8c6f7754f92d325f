use linetools::uniq::collapse_runs;

fn text(b: Vec<u8>) -> String {
    String::from_utf8(b).unwrap()
}

#[test]
fn dedup_with_counts() {
    assert_eq!(text(collapse_runs(b"x\nx\nx\ny\n", true)), "      3 x\n      1 y\n");
}

#[test]
fn dedup_without_counts() {
    assert_eq!(text(collapse_runs(b"a\na\nb\na\n", false)), "a\nb\na\n");
}

#[test]
fn dedup_empty_input() {
    assert_eq!(collapse_runs(b"", false), Vec::<u8>::new());
    assert_eq!(collapse_runs(b"", true), Vec::<u8>::new());
}

#[test]
fn dedup_terminates_final_line() {
    assert_eq!(text(collapse_runs(b"a\nb", false)), "a\nb\n");
    assert_eq!(text(collapse_runs(b"a\na", true)), "      2 a\n");
    assert_eq!(text(collapse_runs(b"z", true)), "      1 z\n");
}

#[test]
fn dedup_compares_content_without_terminator() {
    // The unterminated last line equals the terminated one before it.
    assert_eq!(text(collapse_runs(b"q\nq", false)), "q\n");
    // Trailing spaces are content.
    assert_eq!(text(collapse_runs(b"q \nq\n", false)), "q \nq\n");
}

#[test]
fn dedup_blank_lines() {
    assert_eq!(text(collapse_runs(b"\n\n\nx\n", true)), "      3 \n      1 x\n");
}

#[test]
fn dedup_is_idempotent() {
    let once = collapse_runs(b"a\na\nb\nb\nb\nc\na\na", false);
    let twice = collapse_runs(&once, false);
    assert_eq!(once, twice);
    assert_eq!(text(once), "a\nb\nc\na\n");
}

#[test]
fn dedup_wide_counts() {
    let mut input = Vec::new();
    for _ in 0..12345 {
        input.extend_from_slice(b"k\n");
    }
    assert_eq!(text(collapse_runs(&input, true)), "  12345 k\n");
}
