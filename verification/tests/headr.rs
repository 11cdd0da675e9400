use clitools::headr::{run, Options};
use clitools::input::Source;

fn options(files: &[&str], lines: u64, bytes: Option<u64>) -> Options {
    Options { files: files.iter().map(|f| f.to_string()).collect(), lines, bytes }
}

#[test]
fn head_prints_first_lines() {
    let r = run(&options(&["a"], 2, None), &vec![Source::Contents(b"1\n2\n3\n".to_vec())]);
    assert_eq!(r.out, "1\n2\n");
    assert_eq!(r.err, "");
    assert!(r.failure.is_none());
}

#[test]
fn head_keeps_line_endings_and_short_files() {
    let r = run(&options(&["a"], 10, None), &vec![Source::Contents(b"a\r\nb".to_vec())]);
    assert_eq!(r.out, "a\r\nb");
    let r = run(&options(&["a"], 0, None), &vec![Source::Contents(b"a\n".to_vec())]);
    assert_eq!(r.out, "");
}

#[test]
fn head_bytes_replaces_broken_characters() {
    let r = run(&options(&["a"], 10, Some(2)), &vec![Source::Contents("héllo".as_bytes().to_vec())]);
    assert_eq!(r.out, "h\u{FFFD}");
    let r = run(&options(&["a"], 10, Some(3)), &vec![Source::Contents("héllo".as_bytes().to_vec())]);
    assert_eq!(r.out, "hé");
    let r = run(&options(&["a"], 10, Some(100)), &vec![Source::Contents(b"abc".to_vec())]);
    assert_eq!(r.out, "abc");
}

#[test]
fn head_headers_for_several_files() {
    let r = run(&options(&["a", "b", "c"], 10, None), &vec![
        Source::Contents(b"x\n".to_vec()),
        Source::Unavailable("gone".to_string()),
        Source::Contents(b"y\n".to_vec()),
    ]);
    assert_eq!(r.out, "==> a <==\nx\n\n==> c <==\ny\n");
    assert_eq!(r.err, "b: gone\n");
    assert!(r.failure.is_none());
}

#[test]
fn head_stops_at_invalid_utf8() {
    let r = run(&options(&["a", "b"], 5, None), &vec![
        Source::Contents(vec![b'o', b'k', b'\n', 0xff, b'\n']),
        Source::Contents(b"never\n".to_vec()),
    ]);
    assert_eq!(r.out, "==> a <==\nok\n");
    assert_eq!(r.failure.unwrap(), "stream did not contain valid UTF-8");
}

#[test]
fn head_stops_at_an_unreadable_file() {
    let r = run(&options(&["a", "dir", "b"], 3, None), &vec![
        Source::Contents(b"x\n".to_vec()),
        Source::Unreadable("Is a directory (os error 21)".to_string()),
        Source::Contents(b"y\n".to_vec()),
    ]);
    assert_eq!(r.out, "==> a <==\nx\n\n==> dir <==\n");
    assert_eq!(r.failure.unwrap(), "Is a directory (os error 21)");
    let r = run(&options(&["dir"], 1, Some(4)), &vec![Source::Unreadable("Is a directory (os error 21)".to_string())]);
    assert_eq!(r.out, "");
    assert_eq!(r.failure.unwrap(), "Is a directory (os error 21)");
}
