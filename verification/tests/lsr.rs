use clitools::input::Report;
use clitools::lsr::{find_files, format_mode, format_modified, format_output, mk_triple, run, DirItem, FileMeta, LocalTime, Options, Owner, PathListing};

fn item(dir: &str, name: &str) -> DirItem {
    DirItem { path: format!("{dir}/{name}"), file_name: name.to_string() }
}

fn inputs_dir() -> PathListing {
    PathListing::Dir(Ok(["fox.txt", ".hidden", "dir", "bustle.txt", "empty.txt"]
        .iter()
        .map(|n| item("tests/inputs", n))
        .collect()))
}

fn sorted(res: Result<Vec<String>, String>) -> Vec<String> {
    let mut v = res.unwrap();
    v.sort();
    v
}

#[test]
fn test_find_files() {
    // Find all non-hidden entries in a directory
    let res = find_files(&vec!["tests/inputs".to_string()], &vec![inputs_dir()], false);
    assert!(res.0.is_ok());
    assert_eq!(
        sorted(res.0),
        [
            "tests/inputs/bustle.txt",
            "tests/inputs/dir",
            "tests/inputs/empty.txt",
            "tests/inputs/fox.txt",
        ]
    );

    // Any existing file should be found even if hidden
    let res = find_files(&vec!["tests/inputs/.hidden".to_string()], &vec![PathListing::NotDir], false);
    assert!(res.0.is_ok());
    assert_eq!(res.0.unwrap(), ["tests/inputs/.hidden"]);

    // Test multiple path arguments
    let res = find_files(
        &vec!["tests/inputs/bustle.txt".to_string(), "tests/inputs/dir".to_string()],
        &vec![PathListing::NotDir, PathListing::Dir(Ok(vec![item("tests/inputs/dir", "spiders.txt")]))],
        false,
    );
    assert!(res.0.is_ok());
    assert_eq!(sorted(res.0), ["tests/inputs/bustle.txt", "tests/inputs/dir/spiders.txt"]);
}

#[test]
fn test_find_files_hidden() {
    // Find all entries in a directory including hidden
    let res = find_files(&vec!["tests/inputs".to_string()], &vec![inputs_dir()], true);
    assert!(res.0.is_ok());
    assert_eq!(
        sorted(res.0),
        [
            "tests/inputs/.hidden",
            "tests/inputs/bustle.txt",
            "tests/inputs/dir",
            "tests/inputs/empty.txt",
            "tests/inputs/fox.txt",
        ]
    );
}

fn long_match(line: &str, expected_name: &str, expected_perms: &str, expected_size: Option<&str>) {
    let parts: Vec<_> = line.split_whitespace().collect();
    assert!(!parts.is_empty() && parts.len() <= 10);

    let perms = parts.first().unwrap();
    assert_eq!(perms, &expected_perms);

    if let Some(size) = expected_size {
        let file_size = parts.get(4).unwrap();
        assert_eq!(file_size, &size);
    }

    let display_name = parts.last().unwrap();
    assert_eq!(display_name, &expected_name);
}

fn meta(name: &str, is_dir: bool, mode: u32, size: u64) -> FileMeta {
    FileMeta {
        is_dir,
        mode,
        nlink: if is_dir { 2 } else { 1 },
        uid: 1000,
        user: Some("kyclark".to_string()),
        gid: 1000,
        group: None,
        size,
        modified: "Mar 10 26 17:24".to_string(),
        name: name.to_string(),
    }
}

#[test]
fn test_format_output_one() {
    let bustle_path = "tests/inputs/bustle.txt";

    let out = format_output(&vec![meta(bustle_path, false, 0o100644, 193)]);
    let lines: Vec<&str> = out.split('\n').filter(|s| !s.is_empty()).collect();
    assert_eq!(lines.len(), 1);

    let line1 = lines.first().unwrap();
    long_match(line1, bustle_path, "-rw-r--r--", Some("193"));
}

#[test]
fn test_format_output_two() {
    let out = format_output(&vec![
        meta("tests/inputs/dir", true, 0o40755, 4096),
        meta("tests/inputs/empty.txt", false, 0o100644, 0),
    ]);
    let mut lines: Vec<&str> = out.split('\n').filter(|s| !s.is_empty()).collect();
    lines.sort();
    assert_eq!(lines.len(), 2);

    let empty_line = lines.remove(0);
    long_match(empty_line, "tests/inputs/empty.txt", "-rw-r--r--", Some("0"));

    let dir_line = lines.remove(0);
    long_match(dir_line, "tests/inputs/dir", "drwxr-xr-x", None);
}

#[test]
fn format_output_aligns_columns() {
    let out = format_output(&vec![
        meta("a", false, 0o644, 7),
        meta("bb", true, 0o755, 12345),
    ]);
    assert_eq!(
        out,
        "-rw-r--r--  1  kyclark  1000      7  Mar 10 26 17:24  a \ndrwxr-xr-x  2  kyclark  1000  12345  Mar 10 26 17:24  bb"
    );
}

#[test]
fn test_mk_triple() {
    assert_eq!(mk_triple(0o751, Owner::User), "rwx");
    assert_eq!(mk_triple(0o751, Owner::Group), "r-x");
    assert_eq!(mk_triple(0o751, Owner::Other), "--x");
    assert_eq!(mk_triple(0o600, Owner::Other), "---");
}

#[test]
fn test_format_mode() {
    assert_eq!(format_mode(&0o755), "rwxr-xr-x");
    assert_eq!(format_mode(&0o421), "r---w---x");
}

#[test]
fn format_mode_reads_only_permission_bits() {
    assert_eq!(format_mode(&0o100644), format_mode(&0o644));
    assert_eq!(format_mode(&0o40755), "rwxr-xr-x");
}

#[test]
fn owner_masks() {
    assert_eq!(Owner::User.masks(), [0o400, 0o200, 0o100]);
    assert_eq!(Owner::Group.masks(), [0o040, 0o020, 0o010]);
    assert_eq!(Owner::Other.masks(), [0o004, 0o002, 0o001]);
}

fn options(paths: &[&str], long: bool, show_hidden: bool) -> Options {
    Options { paths: paths.iter().map(|p| p.to_string()).collect(), long, show_hidden }
}

fn check(r: &Report, out: &str, err: &str) {
    assert_eq!(r.out, out);
    assert_eq!(r.err, err);
}

#[test]
fn ls_short_listing() {
    let r = run(
        &options(&["gone", "tests/inputs"], false, false),
        &vec![PathListing::Missing("No such file or directory (os error 2)".to_string()), inputs_dir()],
        &vec![],
    );
    check(
        &r,
        "tests/inputs/fox.txt\ntests/inputs/dir\ntests/inputs/bustle.txt\ntests/inputs/empty.txt\n",
        "gone: No such file or directory (os error 2)\n",
    );
    assert!(r.failure.is_none());
}

#[test]
fn ls_unreadable_directory_stops() {
    let r = run(
        &options(&["a", "b"], false, false),
        &vec![PathListing::NotDir, PathListing::Dir(Err("Permission denied (os error 13)".to_string()))],
        &vec![],
    );
    check(&r, "", "");
    assert_eq!(r.failure.unwrap(), "Permission denied (os error 13)");
}

#[test]
fn ls_long_listing() {
    let r = run(
        &options(&["a"], true, false),
        &vec![PathListing::NotDir],
        &vec![Ok(meta("a", false, 0o644, 7))],
    );
    check(&r, "-rw-r--r--  1  kyclark  1000  7  Mar 10 26 17:24  a\n", "");
    let r = run(
        &options(&["a"], true, false),
        &vec![PathListing::NotDir],
        &vec![Err("a: gone".to_string())],
    );
    assert_eq!(r.failure.unwrap(), "a: gone");
}

#[test]
fn ls_long_listing_names_the_listed_path() {
    let r = run(
        &options(&["d"], true, false),
        &vec![PathListing::Dir(Ok(vec![item("d", "f")]))],
        &vec![Ok(meta("something else", false, 0o600, 3))],
    );
    check(&r, "-rw-------  1  kyclark  1000  3  Mar 10 26 17:24  d/f\n", "");
}

fn time(year: i32, month: u32, day: u32, hour: u32, minute: u32) -> LocalTime {
    LocalTime { year, month, day, hour, minute }
}

#[test]
fn format_modified_like_ls() {
    assert_eq!(format_modified(&time(2026, 3, 10, 17, 24)), "Mar 10 26 17:24");
    assert_eq!(format_modified(&time(2005, 12, 1, 0, 5)), "Dec 01 05 00:05");
    assert_eq!(format_modified(&time(2024, 2, 29, 23, 59)), "Feb 29 24 23:59");
    assert_eq!(format_modified(&time(-1, 7, 4, 9, 0)), "Jul 04 99 09:00");
}
