use linetools::head::{head_file, take_bytes, take_lines, Config, ConfigError, DEFAULT_LINES};

fn fifteen_lines() -> Vec<u8> {
    let mut v = Vec::new();
    for k in 1..=15 {
        v.extend_from_slice(format!("line {k}\r\n").as_bytes());
    }
    v
}

#[test]
fn first_ten_of_fifteen_lines() {
    let data = fifteen_lines();
    let out = take_lines(&data, 10);
    let mut expected = Vec::new();
    for k in 1..=10 {
        expected.extend_from_slice(format!("line {k}\r\n").as_bytes());
    }
    assert_eq!(out, expected);
    assert_eq!(DEFAULT_LINES, 10);
}

#[test]
fn more_lines_than_available_gives_everything() {
    assert_eq!(take_lines(b"a\nb", 5), b"a\nb".to_vec());
    assert_eq!(take_lines(b"a\nb\n", 2), b"a\nb\n".to_vec());
    assert_eq!(take_lines(b"", 3), Vec::<u8>::new());
}

#[test]
fn lines_keep_unterminated_fragment() {
    assert_eq!(take_lines(b"a\nb\nc", 3), b"a\nb\nc".to_vec());
    assert_eq!(take_lines(b"a\nb\nc", 2), b"a\nb\n".to_vec());
}

#[test]
fn first_bytes() {
    assert_eq!(take_bytes(b"hello\nworld\n", 7), b"hello\nw".to_vec());
    assert_eq!(take_bytes(b"abc", 10), b"abc".to_vec());
    assert_eq!(take_bytes(b"abc", 3), b"abc".to_vec());
}

#[test]
fn headers_for_several_files() {
    let c = Config::new(vec!["a".into(), "b".into()], 1, None).unwrap();
    let first = head_file("a", 0, 2, b"1\n2\n", &c);
    let second = head_file("b", 1, 2, b"3\n4\n", &c);
    assert_eq!(String::from_utf8(first).unwrap(), "==> a <==\n1\n");
    assert_eq!(String::from_utf8(second).unwrap(), "\n==> b <==\n3\n");
}

#[test]
fn no_header_for_one_file_and_byte_mode_wins() {
    let c = Config::new(vec!["a".into()], 10, Some(2)).unwrap();
    assert_eq!(head_file("a", 0, 1, b"xyz\n", &c), b"xy".to_vec());
}

#[test]
fn zero_bounds_are_refused() {
    assert_eq!(Config::new(vec![], 0, None).err(), Some(ConfigError::ZeroLines));
    assert_eq!(Config::new(vec![], 5, Some(0)).err(), Some(ConfigError::ZeroBytes));
    assert!(Config::new(vec![], 1, Some(1)).is_ok());
}
