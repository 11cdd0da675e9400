use clitools::fortuner::{pick_fortune, read_fortunes, run, select_files, Fortune, Options, PathPart, WalkedFile};
use clitools::input::Source;

#[test]
fn test_pick_fortune() {
    // Create a slice of fortunes
    let fortunes = vec![
        Fortune {
            source: "fortunes".to_string(),
            text: "You cannot achieve the impossible without attempting the absurd."
                .to_string(),
        },
        Fortune {
            source: "fortunes".to_string(),
            text: "Assumption is the mother of all screw-ups.".to_string(),
        },
        Fortune {
            source: "fortunes".to_string(),
            text: "Neckties strangle clear thinking.".to_string(),
        },
    ];

    // Pick a fortune with a seed
    assert_eq!(
        pick_fortune(&fortunes, Some(1)).unwrap(),
        "Neckties strangle clear thinking.".to_string()
    );
}

#[test]
fn pick_fortune_of_none_and_without_seed() {
    assert!(pick_fortune(&vec![], Some(1)).is_none());
    assert!(pick_fortune(&vec![], None).is_none());
    let fortunes = vec![
        Fortune { source: "a".to_string(), text: "one".to_string() },
        Fortune { source: "a".to_string(), text: "two".to_string() },
    ];
    let t = pick_fortune(&fortunes, None).unwrap();
    assert!(t == "one" || t == "two");
}

fn file(name: &str, text: &str) -> (String, Source) {
    (name.to_string(), Source::Contents(text.as_bytes().to_vec()))
}

fn texts(v: &[Fortune]) -> Vec<(String, String)> {
    v.iter().map(|f| (f.source.clone(), f.text.clone())).collect()
}

#[test]
fn read_fortunes_splits_on_percent_lines() {
    let r = read_fortunes(&vec![file("jokes", "a\nb  \n%\nc\n%\n%\nleft")]).unwrap();
    assert_eq!(texts(&r), vec![
        ("jokes".to_string(), "a\nb".to_string()),
        ("jokes".to_string(), "c".to_string()),
    ]);
}

#[test]
fn read_fortunes_carries_an_unfinished_fortune_into_the_next_file() {
    let r = read_fortunes(&vec![file("f1", "x\n"), file("f2", "y\n%\n")]).unwrap();
    assert_eq!(texts(&r), vec![("f2".to_string(), "x\ny".to_string())]);
}

#[test]
fn read_fortunes_errors() {
    let r = read_fortunes(&vec![file("f1", "x\n%\n"), ("f2".to_string(), Source::Unavailable("\"f2\": denied".to_string()))]);
    assert_eq!(r.unwrap_err(), "\"f2\": denied");
    let r = read_fortunes(&vec![("f1".to_string(), Source::Contents(vec![0xff, b'\n']))]);
    assert_eq!(r.unwrap_err(), "stream did not contain valid UTF-8");
}

fn options(pattern: Option<&str>, insensitive: bool, seed: Option<u64>) -> Options {
    Options { sources: vec!["dir".to_string()], pattern: pattern.map(|p| p.to_string()), insensitive, seed }
}

#[test]
fn fortune_lists_matches_grouped_by_source() {
    let files = Ok(vec![file("f1", "ab\n%\ncd\n%\nbb\n%\n"), file("f2", "B\n%\n")]);
    let r = run(&options(Some("b"), false, None), &files);
    assert_eq!(r.out, "ab\n%\nbb\n%\n");
    assert_eq!(r.err, "(f1)\n%\n");
    let r = run(&options(Some("b"), true, None), &files);
    assert_eq!(r.out, "ab\n%\nbb\n%\nB\n%\n");
    assert_eq!(r.err, "(f1)\n%\n(f2)\n%\n");
    assert!(r.failure.is_none());
}

#[test]
fn fortune_groups_only_neighbours() {
    let files = Ok(vec![file("f1", "x1\n%\n"), file("f2", "x2\n%\n"), file("f1", "x3\n%\n")]);
    let r = run(&options(Some("x"), false, None), &files);
    assert_eq!(r.err, "(f1)\n%\n(f2)\n%\n(f1)\n%\n");
    assert_eq!(r.out, "x1\n%\nx2\n%\nx3\n%\n");
}

#[test]
fn fortune_picks_with_seed() {
    let files = Ok(vec![file(
        "fortunes",
        "You cannot achieve the impossible without attempting the absurd.\n%\nAssumption is the mother of all screw-ups.\n%\nNeckties strangle clear thinking.\n%\n",
    )]);
    let r = run(&options(None, false, Some(1)), &files);
    assert_eq!(r.out, "Neckties strangle clear thinking.\n");
    assert_eq!(r.err, "");
}

#[test]
fn fortune_without_fortunes() {
    let r = run(&options(None, false, None), &Ok(vec![]));
    assert_eq!(r.out, "No fortunes found\n");
    let r = run(&options(Some("x"), false, None), &Ok(vec![]));
    assert_eq!(r.out, "");
    assert!(r.failure.is_none());
}

#[test]
fn fortune_errors() {
    let r = run(&options(Some("*"), false, None), &Ok(vec![]));
    assert_eq!(r.failure.unwrap(), "Invalid --pattern \"*\"");
    let r = run(&options(None, false, None), &Err("nope: No such file or directory (os error 2)".to_string()));
    assert_eq!(r.failure.unwrap(), "nope: No such file or directory (os error 2)");
}

const JOKES: &str = "Q. What do you call a head of lettuce in a shirt and tie?
A. Collared greens.
%
Q: Why did the gummy bear go to the dentist?
A: He had a sweet tooth.
%
Q. Why did the fungus leave the party?
A. There wasn't mushroom.
%
Q: What do you call a sleeping bull?
A: A bulldozer.
%
Q. What kind of tree fits in your hand?
A. A palm tree.
%
Q: What do you call a deer wearing an eye patch?
A: A bad idea (bad-eye deer).
%
";

const QUOTES: &str = "You cannot achieve the impossible without attempting the absurd.
%
Assumption is the mother of all screw-ups.
%
Neckties strangle clear thinking.
%
Talkers are no good doers.
%
Real artists ship.
%
";

#[test]
fn test_read_fortunes() {
    // Parses all the fortunes without a filter
    let res = read_fortunes(&vec![file("jokes", JOKES)]);
    assert!(res.is_ok());

    if let Ok(fortunes) = res {
        // Correct number and sorting
        assert_eq!(fortunes.len(), 6);
        assert_eq!(
            fortunes.first().unwrap().text,
            "Q. What do you call a head of lettuce in a shirt and tie?\nA. Collared greens."
        );
        assert_eq!(
            fortunes.last().unwrap().text,
            "Q: What do you call a deer wearing an eye patch?\nA: A bad idea (bad-eye deer)."
        );
    }

    // Filters for matching text
    let res = read_fortunes(&vec![file("jokes", JOKES), file("quotes", QUOTES)]);
    assert!(res.is_ok());
    assert_eq!(res.unwrap().len(), 11);
}

#[test]
fn read_fortunes_unreadable_file() {
    let r = read_fortunes(&vec![
        file("jokes", JOKES),
        ("dir".to_string(), Source::Unreadable("Is a directory (os error 21)".to_string())),
    ]);
    assert_eq!(r.unwrap_err(), "Is a directory (os error 21)");
}

#[test]
fn fortune_errors_print_nothing_else() {
    let files = Ok(vec![("dir".to_string(), Source::Unreadable("Is a directory (os error 21)".to_string()))]);
    let r = run(&options(None, false, None), &files);
    assert_eq!(r.out, "");
    assert_eq!(r.err, "");
    assert_eq!(r.failure.unwrap(), "Is a directory (os error 21)");
}

fn walked(path: &str, is_file: bool) -> WalkedFile {
    let mut parts = Vec::new();
    for (i, c) in path.split('/').enumerate() {
        match c {
            "" if i == 0 => parts.push(PathPart::RootDir),
            "" => {}
            "." if i == 0 => parts.push(PathPart::CurDir),
            "." => {}
            ".." => parts.push(PathPart::ParentDir),
            name => parts.push(PathPart::Normal(name.as_bytes().to_vec())),
        }
    }
    WalkedFile { parts, is_file }
}

fn chosen(paths: &[(&str, bool)]) -> Vec<String> {
    let files: Vec<WalkedFile> = paths.iter().map(|(p, f)| walked(p, *f)).collect();
    select_files(&files).into_iter().map(|i| paths[i].0.to_string()).collect()
}

#[test]
fn select_files_like_find_files() {
    // A file named on its own
    assert_eq!(chosen(&[("./tests/inputs/jokes", true)]), ["./tests/inputs/jokes"]);

    // All the input files, without ".dat" indexes or directories, in path order
    let walk = [
        ("./tests/inputs", false),
        ("./tests/inputs/quotes", true),
        ("./tests/inputs/jokes.dat", true),
        ("./tests/inputs/jokes", true),
        ("./tests/inputs/literature", true),
        ("./tests/inputs/ascii-art.dat", true),
        ("./tests/inputs/ascii-art", true),
        ("./tests/inputs/empty", true),
        ("./tests/inputs/quotes.dat", true),
    ];
    let files = chosen(&walk);
    assert_eq!(files.len(), 5);
    assert!(files.first().unwrap().contains("ascii-art"));
    assert!(files.last().unwrap().contains("quotes"));

    // Several sources: each path once, sorted
    let files = chosen(&[
        ("./tests/inputs/jokes", true),
        ("./tests/inputs/ascii-art", true),
        ("./tests/inputs/jokes", true),
    ]);
    assert_eq!(files, ["./tests/inputs/ascii-art", "./tests/inputs/jokes"]);
}

#[test]
fn select_files_orders_by_components() {
    // Component order, not text order: "a/b" comes before "a-b" although '/' > '-'
    assert_eq!(chosen(&[("a-b", true), ("a/b", true)]), ["a/b", "a-b"]);
    // A shorter name first; a leading "." and ".." sort before names
    assert_eq!(chosen(&[("ab", true), ("a", true), ("./z", true), ("../y", true)]), ["./z", "../y", "a", "ab"]);
    // ".dat" needs something before the dot
    assert_eq!(chosen(&[(".dat", true), ("x.dat", true), ("x.data", true)]), [".dat", "x.data"]);
}
