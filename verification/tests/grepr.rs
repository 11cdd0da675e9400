use clitools::grepr::{find_files, find_lines, run, Options, PathInfo};
use clitools::input::Source;
use clitools::pattern::Pattern;
use rand::{distr::Alphanumeric, RngExt};

#[test]
fn test_find_lines() {
    let text = b"Lorem\nIpsum\r\nDOLOR";

    // The pattern _or_ should match the one line, "Lorem"
    let re1 = Pattern::new("or", false).unwrap();
    let matches = find_lines(text, &re1, false);
    assert!(matches.is_ok());
    assert_eq!(matches.unwrap().len(), 1);

    // When inverted, the function should match the other two lines
    let matches = find_lines(text, &re1, true);
    assert!(matches.is_ok());
    assert_eq!(matches.unwrap().len(), 2);

    // This regex will be case-insensitive
    let re2 = Pattern::new("or", true).unwrap();

    // The two lines "Lorem" and "DOLOR" should match
    let matches = find_lines(text, &re2, false);
    assert!(matches.is_ok());
    assert_eq!(matches.unwrap().len(), 2);

    // When inverted, the one remaining line should match
    let matches = find_lines(text, &re2, true);
    assert!(matches.is_ok());
    assert_eq!(matches.unwrap().len(), 1);
}

#[test]
fn lib_test_find_files() {
    // Verify that the function finds a file known to exist
    let files = find_files(&vec!["./tests/inputs/fox.txt".to_string()], &vec![PathInfo::File], false);
    assert_eq!(files.len(), 1);
    assert_eq!(files[0].as_ref().unwrap(), "./tests/inputs/fox.txt");

    // The function should reject a directory without the recursive option
    let files = find_files(&vec!["./tests/inputs".to_string()], &vec![PathInfo::Dir(vec![])], false);
    assert_eq!(files.len(), 1);
    if let Err(err) = &files[0] {
        assert_eq!(err.to_string(), "./tests/inputs is a directory");
    }

    // Verify the function recurses to find four files in the directory
    let beneath = vec![
        "./tests/inputs/fox.txt".to_string(),
        "./tests/inputs/nobody.txt".to_string(),
        "./tests/inputs/bustle.txt".to_string(),
        "./tests/inputs/empty.txt".to_string(),
    ];
    let res = find_files(&vec!["./tests/inputs".to_string()], &vec![PathInfo::Dir(beneath)], true);
    let mut files: Vec<String> = res
        .iter()
        .map(|r| r.as_ref().unwrap().replace("\\", "/"))
        .collect();
    files.sort();
    assert_eq!(files.len(), 4);
    assert_eq!(
        files,
        vec![
            "./tests/inputs/bustle.txt",
            "./tests/inputs/empty.txt",
            "./tests/inputs/fox.txt",
            "./tests/inputs/nobody.txt",
        ]
    );

    // Generate a random string to represent a nonexistent file
    let bad: String = rand::rng()
        .sample_iter(&Alphanumeric)
        .take(7)
        .map(char::from)
        .collect();

    // Verify that the function returns the bad file as an error
    let missing = PathInfo::Missing("No such file or directory (os error 2)".to_string());
    let files = find_files(&vec![bad.clone()], &vec![missing], false);
    assert_eq!(files.len(), 1);
    assert!(files[0].is_err());
    assert_eq!(files[0].as_ref().unwrap_err(), &format!("{bad}: No such file or directory (os error 2)"));
}

#[test]
fn find_files_stdin_and_other_kinds() {
    let files = find_files(&vec!["-".to_string(), "/dev/null".to_string()], &vec![PathInfo::Other, PathInfo::Other], true);
    assert_eq!(files.len(), 1);
    assert_eq!(files[0].as_ref().unwrap(), "-");
}

fn options(pattern: &str, files: usize, insensitive: bool, count: bool, invert: bool) -> Options {
    Options {
        pattern: pattern.to_string(),
        files: (0..files).map(|i| format!("f{i}")).collect(),
        insensitive,
        recursive: false,
        count,
        invert,
    }
}

fn input(name: &str, text: &str) -> Result<(String, Source), String> {
    Ok((name.to_string(), Source::Contents(text.as_bytes().to_vec())))
}

#[test]
fn grep_prefixes_lines_with_several_files() {
    let inputs = vec![input("a", "the fox\nno\n"), input("b", "FOX\n")];
    let r = run(&options("fox", 2, true, false, false), &inputs);
    assert_eq!(r.out, "a:the fox\nb:FOX\n");
    assert!(r.failure.is_none());
    let r = run(&options("fox", 2, false, true, false), &inputs);
    assert_eq!(r.out, "a:1\nb:0\n");
}

#[test]
fn grep_single_file_has_no_prefix() {
    let inputs = vec![input("a", "one\ntwo\nthree")];
    let r = run(&options("o", 1, false, false, false), &inputs);
    assert_eq!(r.out, "one\ntwo\n");
    let r = run(&options("o", 1, false, false, true), &inputs);
    assert_eq!(r.out, "three");
}

#[test]
fn grep_inverted_counts_complement() {
    let inputs = vec![input("a", "Lorem\nIpsum\r\nDOLOR")];
    let kept = run(&options("or", 1, false, true, false), &inputs);
    let dropped = run(&options("or", 1, false, true, true), &inputs);
    assert_eq!(kept.out, "1\n");
    assert_eq!(dropped.out, "2\n");
}

#[test]
fn grep_reports_errors_and_goes_on() {
    let inputs = vec![
        Err("dir is a directory".to_string()),
        Ok(("gone".to_string(), Source::Unavailable("No such file or directory (os error 2)".to_string()))),
        Ok(("bad".to_string(), Source::Contents(vec![b'x', b'\n', 0xff, b'\n']))),
        input("good", "x\n"),
    ];
    let r = run(&options("x", 4, false, false, false), &inputs);
    assert_eq!(r.out, "good:x\n");
    assert_eq!(
        r.err,
        "dir is a directory\ngone: No such file or directory (os error 2)\nstream did not contain valid UTF-8\n"
    );
    assert!(r.failure.is_none());
}

#[test]
fn grep_invalid_pattern() {
    let r = run(&options("*", 1, false, false, false), &vec![input("a", "x\n")]);
    assert_eq!(r.out, "");
    assert_eq!(r.failure.unwrap(), "Invalid pattern \"*\"");
}

#[test]
fn pattern_compiles_and_matches() {
    assert!(Pattern::new("(", false).is_none());
    let p = Pattern::new("^a.c$", false).unwrap();
    assert!(p.is_match("abc"));
    assert!(!p.is_match("ABC"));
    let p = Pattern::new("^a.c$", true).unwrap();
    assert!(p.is_match("ABC"));
}

#[test]
fn grep_reports_unreadable_input_and_goes_on() {
    let inputs = vec![
        Ok(("dir".to_string(), Source::Unreadable("Is a directory (os error 21)".to_string()))),
        input("good", "x\n"),
    ];
    let r = run(&options("x", 2, false, false, false), &inputs);
    assert_eq!(r.out, "good:x\n");
    assert_eq!(r.err, "Is a directory (os error 21)\n");
    assert!(r.failure.is_none());
}

#[test]
fn inverted_search_keeps_the_other_lines() {
    let p = Pattern::new("o", false).unwrap();
    let text = b"one\ntwo\nthree\nfour\n";
    assert_eq!(find_lines(text, &p, false).unwrap(), vec!["one\n", "two\n", "four\n"]);
    assert_eq!(find_lines(text, &p, true).unwrap(), vec!["three\n"]);
}
