use clitools::commr::{compare_lines, run, Options, Order};
use clitools::input::Source;

fn options(cols: (bool, bool, bool), insensitive: bool, delimiter: &str) -> Options {
    Options {
        file1: "a".to_string(),
        file2: "b".to_string(),
        show_col1: cols.0,
        show_col2: cols.1,
        show_col3: cols.2,
        insensitive,
        delimiter: delimiter.to_string(),
    }
}

fn contents(s: &str) -> Source {
    Source::Contents(s.as_bytes().to_vec())
}

#[test]
fn comm_three_columns() {
    let r = run(&options((true, true, true), false, "\t"), &contents("a\nb\nc\n"), &contents("b\nc\nd\n"));
    assert_eq!(r.out, "a\n\t\tb\n\t\tc\n\td\n");
    assert!(r.failure.is_none());
}

#[test]
fn comm_hidden_columns_shift_the_others() {
    let r = run(&options((false, true, true), false, "\t"), &contents("a\nb\nc\n"), &contents("b\nc\nd\n"));
    assert_eq!(r.out, "\tb\n\tc\nd\n");
    let r = run(&options((true, true, false), false, ":"), &contents("a\nb\n"), &contents("b\nc\n"));
    assert_eq!(r.out, "a\n:c\n");
}

#[test]
fn comm_case_insensitive() {
    let r = run(&options((true, true, true), true, "\t"), &contents("A\n"), &contents("a\n"));
    assert_eq!(r.out, "\t\tA\n");
    let r = run(&options((true, true, true), false, "\t"), &contents("A\n"), &contents("a\n"));
    assert_eq!(r.out, "A\n\ta\n");
}

#[test]
fn comm_trims_line_ends() {
    let r = run(&options((true, true, true), false, "\t"), &contents("x  \r\n"), &contents("x\n"));
    assert_eq!(r.out, "\t\tx\n");
}

#[test]
fn comm_errors() {
    let mut o = options((true, true, true), false, "\t");
    o.file1 = "-".to_string();
    o.file2 = "-".to_string();
    let r = run(&o, &contents(""), &contents(""));
    assert_eq!(r.failure.unwrap(), "Both input files cannot be STDIN (\"-\")");
    let o = options((true, true, true), false, "\t");
    let r = run(&o, &Source::Unavailable("gone".to_string()), &contents(""));
    assert_eq!(r.failure.unwrap(), "a: gone");
    let r = run(&o, &contents("x\n"), &Source::Unavailable("gone".to_string()));
    assert_eq!(r.failure.unwrap(), "b: gone");
    let r = run(&o, &Source::Contents(vec![0xff]), &contents("x\n"));
    assert_eq!(r.out, "");
    assert_eq!(r.failure.unwrap(), "stream did not contain valid UTF-8");
}

#[test]
fn comm_every_line_lands_once() {
    let r = run(&options((true, true, true), false, "|"), &contents("a\nc\ne\n"), &contents("b\nc\nd\nf\n"));
    assert_eq!(r.out, "a\n|b\n||c\n|d\ne\n|f\n");
}

#[test]
fn compare_lines_by_code_point() {
    assert_eq!(compare_lines("a", "b", false), Order::Less);
    assert_eq!(compare_lines("b", "a", false), Order::Greater);
    assert_eq!(compare_lines("ab", "ab", false), Order::Equal);
    assert_eq!(compare_lines("a", "ab", false), Order::Less);
    assert_eq!(compare_lines("B", "a", false), Order::Less);
    assert_eq!(compare_lines("B", "a", true), Order::Greater);
    assert_eq!(compare_lines("ÄB", "äb", true), Order::Equal);
}

#[test]
fn comm_unreadable_files() {
    let o = options((true, true, true), false, "\t");
    let dir = || Source::Unreadable("Is a directory (os error 21)".to_string());
    let r = run(&o, &dir(), &contents("x\n"));
    assert_eq!(r.failure.unwrap(), "Is a directory (os error 21)");
    let r = run(&o, &dir(), &Source::Unavailable("gone".to_string()));
    assert_eq!(r.failure.unwrap(), "b: gone");
    let r = run(&o, &contents("x\n"), &dir());
    assert_eq!(r.out, "");
    assert_eq!(r.failure.unwrap(), "Is a directory (os error 21)");
    let r = run(&o, &Source::Contents(vec![0xff, b'\n']), &dir());
    assert_eq!(r.failure.unwrap(), "stream did not contain valid UTF-8");
}
