use clitools::input::Source;
use clitools::wcr::{count, format_field, run, FileInfo, Options};

#[test]
fn test_count() {
    let text = "I don't want the world.\nI just want your half.\r\n";
    let info = count(text.as_bytes());
    assert!(info.is_ok());
    let expected = FileInfo {
        num_lines: 2,
        num_words: 10,
        num_chars: 48,
        num_bytes: 48,
    };
    assert_eq!(info.unwrap(), expected);
}

#[test]
fn test_format_field() {
    assert_eq!(format_field(1, false), "");
    assert_eq!(format_field(3, true), "       3");
    assert_eq!(format_field(10, true), "      10");
}

#[test]
fn count_empty_input() {
    let info = count(b"").unwrap();
    assert_eq!(
        info,
        FileInfo { num_lines: 0, num_words: 0, num_bytes: 0, num_chars: 0 }
    );
}

#[test]
fn count_last_line_without_newline_and_multibyte() {
    let info = count("héllo  wörld\nlast".as_bytes()).unwrap();
    assert_eq!(
        info,
        FileInfo { num_lines: 2, num_words: 3, num_bytes: 19, num_chars: 17 }
    );
}

#[test]
fn count_unicode_whitespace_splits_words() {
    let info = count("a\u{3000}b\u{a0}c".as_bytes()).unwrap();
    assert_eq!(info.num_words, 3);
}

#[test]
fn count_rejects_invalid_utf8() {
    assert!(count(&[b'o', b'k', b'\n', 0xff, b'\n']).is_err());
}

#[test]
fn format_field_wider_than_eight() {
    assert_eq!(format_field(123456789, true), "123456789");
}

#[test]
fn run_prints_totals_for_several_files() {
    let options = Options {
        files: vec!["a.txt".to_string(), "missing".to_string(), "-".to_string()],
        lines: true,
        words: true,
        bytes: true,
        chars: false,
    };
    let sources = vec![
        Source::Contents(b"one two\nthree\n".to_vec()),
        Source::Unavailable("No such file or directory (os error 2)".to_string()),
        Source::Contents(b"four\n".to_vec()),
    ];
    let report = run(&options, &sources);
    assert_eq!(
        report.out,
        "       2       3      14 a.txt\n       1       1       5\n       3       4      19 total\n"
    );
    assert_eq!(report.err, "missing: No such file or directory (os error 2)\n");
    assert!(report.failure.is_none());
}

#[test]
fn run_skips_file_that_is_not_utf8() {
    let options = Options {
        files: vec!["bad".to_string()],
        lines: true,
        words: false,
        bytes: false,
        chars: false,
    };
    let sources = vec![Source::Contents(vec![0xc3, 0x28])];
    let report = run(&options, &sources);
    assert_eq!(report.out, "");
    assert_eq!(report.err, "");
}

#[test]
fn wc_skips_unreadable_input() {
    let options = Options { files: vec!["dir".to_string()], lines: true, words: true, bytes: true, chars: false };
    let r = run(&options, &vec![Source::Unreadable("Is a directory (os error 21)".to_string())]);
    assert_eq!(r.out, "");
    assert_eq!(r.err, "");
    assert!(r.failure.is_none());
}

#[test]
fn counts_add_over_a_split_at_a_line_end() {
    let a = "I don't want the world.\n";
    let b = "I just want your half.\r\n";
    let x = count(a.as_bytes()).unwrap();
    let y = count(b.as_bytes()).unwrap();
    let whole = count(format!("{a}{b}").as_bytes()).unwrap();
    assert_eq!(whole, FileInfo {
        num_lines: x.num_lines + y.num_lines,
        num_words: x.num_words + y.num_words,
        num_bytes: x.num_bytes + y.num_bytes,
        num_chars: x.num_chars + y.num_chars,
    });
}

#[test]
fn count_fails_exactly_on_invalid_utf8() {
    assert!(count("héllo\nwörld".as_bytes()).is_ok());
    assert!(count(&[b'o', b'k', b'\n', 0xc3]).is_err());
    assert!(count(&[0xe2, 0x82]).is_err());
}
