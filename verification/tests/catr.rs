use clitools::catr::{run, Options};
use clitools::input::Source;

fn options(number_lines: bool, number_nonblank_lines: bool, files: &[&str]) -> Options {
    Options {
        files: files.iter().map(|f| f.to_string()).collect(),
        number_lines,
        number_nonblank_lines,
    }
}

#[test]
fn cat_plain_trims_line_ends() {
    let report = run(&options(false, false, &["a"]), &vec![Source::Contents(b"one  \r\n\ntwo\t".to_vec())]);
    assert_eq!(report.out, "one\n\ntwo\n");
    assert!(report.failure.is_none());
}

#[test]
fn cat_numbers_every_line() {
    let report = run(&options(true, false, &["a"]), &vec![Source::Contents(b"a\n\nb\n".to_vec())]);
    assert_eq!(report.out, "     1\ta\n     2\t\n     3\tb\n");
}

#[test]
fn cat_numbers_nonblank_lines() {
    let report = run(&options(false, true, &["a", "b"]), &vec![
        Source::Contents(b"a\n\nb\n".to_vec()),
        Source::Contents(b"c\n".to_vec()),
    ]);
    assert_eq!(report.out, "     1\ta\n\n     2\tb\n     1\tc\n");
}

#[test]
fn cat_reports_unavailable_and_stops_on_bad_utf8() {
    let report = run(&options(false, false, &["x", "a", "b", "c"]), &vec![
        Source::Unavailable("gone".to_string()),
        Source::Contents(b"fine\n".to_vec()),
        Source::Contents(vec![b'o', b'k', b'\n', 0xff, b'\n', b'z', b'\n']),
        Source::Contents(b"never\n".to_vec()),
    ]);
    assert_eq!(report.out, "fine\nok\n");
    assert_eq!(report.err, "x: gone\n");
    assert_eq!(report.failure.unwrap(), "stream did not contain valid UTF-8");
}

#[test]
fn cat_stops_at_an_unreadable_file() {
    let report = run(&options(false, false, &["a", "dir", "b"]), &vec![
        Source::Contents(b"one\n".to_vec()),
        Source::Unreadable("Is a directory (os error 21)".to_string()),
        Source::Contents(b"never\n".to_vec()),
    ]);
    assert_eq!(report.out, "one\n");
    assert_eq!(report.err, "");
    assert_eq!(report.failure.unwrap(), "Is a directory (os error 21)");
}
