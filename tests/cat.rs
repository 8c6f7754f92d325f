use linetools::cat::{annotate, Config};

fn config(number: bool, nonblank: bool, ends: bool, tabs: bool) -> Config {
    Config {
        files: vec!["-".to_owned()],
        number_lines: number,
        number_nonblank_lines: nonblank,
        show_ends: ends,
        show_nonprinting: false,
        show_tabs: tabs,
    }
}

fn run(data: &[u8], c: &Config, n: &mut usize) -> String {
    String::from_utf8(annotate(data, c, n)).unwrap()
}

#[test]
fn number_nonblank_only() {
    let mut n = 0;
    assert_eq!(run(b"a\n\nb\n", &config(false, true, false, false), &mut n), "     1\ta\n\n     2\tb\n");
    assert_eq!(n, 2);
}

#[test]
fn number_all_lines() {
    let mut n = 0;
    assert_eq!(run(b"a\n\nb\n", &config(true, false, false, false), &mut n), "     1\ta\n     2\t\n     3\tb\n");
    assert_eq!(n, 3);
}

#[test]
fn no_flags_round_trip() {
    let data = b"one\r\n\ttwo\n\nthree";
    let mut n = 0;
    assert_eq!(annotate(data, &config(false, false, false, false), &mut n), data.to_vec());
    assert_eq!(n, 0);
}

#[test]
fn ends_and_tabs() {
    let mut n = 0;
    assert_eq!(run(b"a\tb\nc", &config(false, false, true, true), &mut n), "a^Ib$\nc$");
    assert_eq!(run(b"\t\n", &config(false, false, false, true), &mut n), "^I\n");
}

#[test]
fn counter_runs_across_files() {
    let c = config(true, false, false, false);
    let mut n = 0;
    let first = run(b"x\n", &c, &mut n);
    let second = run(b"y\nz\n", &c, &mut n);
    assert_eq!(first, "     1\tx\n");
    assert_eq!(second, "     2\ty\n     3\tz\n");
}

#[test]
fn wide_numbers_are_not_cut() {
    let mut n = 999_999;
    assert_eq!(run(b"q\n", &config(true, false, false, false), &mut n), "1000000\tq\n");
}
