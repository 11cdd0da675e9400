use clitools::findr::{is_listed, run, DirEntry, EntryType, Options};
use clitools::pattern::Pattern;

fn entry(path: &str, kind: EntryType) -> Result<DirEntry, String> {
    let file_name = path.rsplit('/').next().unwrap().to_string();
    Ok(DirEntry {
        path: path.to_string(),
        file_name,
        is_dir: kind == EntryType::Dir,
        is_file: kind == EntryType::File,
        is_symlink: kind == EntryType::Link,
    })
}

fn walk() -> Vec<Result<DirEntry, String>> {
    vec![
        entry("a", EntryType::Dir),
        entry("a/b.txt", EntryType::File),
        Err("a/c: Permission denied (os error 13)".to_string()),
        entry("a/d.csv", EntryType::File),
        entry("a/e.txt", EntryType::Link),
    ]
}

#[test]
fn find_lists_everything_without_filters() {
    let o = Options { paths: vec!["a".to_string()], names: vec![], entry_types: vec![] };
    let r = run(&o, &vec![walk()]);
    assert_eq!(r.out, "a\na/b.txt\na/d.csv\na/e.txt\n");
    assert_eq!(r.err, "a/c: Permission denied (os error 13)\n");
    assert!(r.failure.is_none());
}

#[test]
fn find_filters_by_type_and_name() {
    let o = Options {
        paths: vec!["a".to_string()],
        names: vec![Pattern::new("\\.txt$", false).unwrap()],
        entry_types: vec![EntryType::File],
    };
    let r = run(&o, &vec![walk()]);
    assert_eq!(r.out, "a/b.txt\n");
    let o = Options {
        paths: vec!["a".to_string()],
        names: vec![Pattern::new("csv", false).unwrap(), Pattern::new("^e", false).unwrap()],
        entry_types: vec![EntryType::Link, EntryType::File],
    };
    let r = run(&o, &vec![walk()]);
    assert_eq!(r.out, "a/d.csv\na/e.txt\n");
}

#[test]
fn find_prints_an_empty_line_for_a_walk_with_nothing_listed() {
    let o = Options {
        paths: vec!["a".to_string(), "b".to_string()],
        names: vec![],
        entry_types: vec![EntryType::Dir],
    };
    let r = run(&o, &vec![walk(), vec![entry("b", EntryType::File)]]);
    assert_eq!(r.out, "a\n\n");
}

#[test]
fn is_listed_checks_both_filters() {
    let o = Options { paths: vec![], names: vec![Pattern::new("x", false).unwrap()], entry_types: vec![EntryType::Dir] };
    let e = entry("x", EntryType::Dir).unwrap();
    assert!(is_listed(&o, &e));
    let e = entry("x", EntryType::File).unwrap();
    assert!(!is_listed(&o, &e));
    let e = entry("y", EntryType::Dir).unwrap();
    assert!(!is_listed(&o, &e));
}
