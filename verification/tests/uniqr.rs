use clitools::input::Source;
use clitools::uniqr::{run, Options};

fn options(count: bool) -> Options {
    Options { in_file: "in.txt".to_string(), count }
}

#[test]
fn uniq_collapses_adjacent_runs() {
    let r = run(&options(false), &Source::Contents(b"a\na\nb\na\n".to_vec()));
    assert_eq!(r.out, "a\nb\na\n");
    assert!(r.failure.is_none());
    assert_eq!(r.err, "");
}

#[test]
fn uniq_counts_runs() {
    let r = run(&options(true), &Source::Contents(b"a\na\nb\n".to_vec()));
    assert_eq!(r.out, "   2 a\n   1 b\n");
}

#[test]
fn uniq_ignores_trailing_white_space_and_keeps_the_first_line() {
    let r = run(&options(true), &Source::Contents(b"a\na \nb".to_vec()));
    assert_eq!(r.out, "   2 a\n   1 b");
    let r = run(&options(false), &Source::Contents(b"a \na\n".to_vec()));
    assert_eq!(r.out, "a \n");
}

#[test]
fn uniq_of_empty_input() {
    let r = run(&options(true), &Source::Contents(Vec::new()));
    assert_eq!(r.out, "");
    assert!(r.failure.is_none());
}

#[test]
fn uniq_reports_unavailable_input() {
    let r = run(&options(false), &Source::Unavailable("No such file or directory (os error 2)".to_string()));
    assert_eq!(r.out, "");
    assert_eq!(r.failure.unwrap(), "in.txt: No such file or directory (os error 2)");
}

#[test]
fn uniq_stops_at_invalid_utf8() {
    let r = run(&options(false), &Source::Contents(vec![b'a', b'\n', b'b', b'\n', 0xff, b'\n']));
    assert_eq!(r.out, "a\n");
    assert_eq!(r.failure.unwrap(), "stream did not contain valid UTF-8");
}

#[test]
fn uniq_run_counts_add_up_to_the_lines() {
    let r = run(&options(true), &Source::Contents(b"x\nx\nx\ny\nz\nz\n".to_vec()));
    assert_eq!(r.out, "   3 x\n   1 y\n   2 z\n");
}

#[test]
fn uniq_reports_unreadable_input() {
    let r = run(&options(false), &Source::Unreadable("Is a directory (os error 21)".to_string()));
    assert_eq!(r.out, "");
    assert_eq!(r.failure.unwrap(), "Is a directory (os error 21)");
}
