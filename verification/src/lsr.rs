//! `ls`: lists files and directories, in short or long form.
use vstd::prelude::*;
use crate::input::Report;
use crate::text::{decimal, digit_char, push_decimal, views};
use tabled::settings::{object::Columns, Alignment, Padding, Style};

verus! {

/// The settings of one run.
pub struct Options {
    pub paths: Vec<String>,
    pub long: bool,
    pub show_hidden: bool,
}

/// Whose permissions a part of a file mode holds.
#[derive(Debug, Clone, Copy, PartialEq, Eq)]
pub enum Owner {
    User,
    Group,
    Other,
}

/// The read, write and execute bits of `owner` in a file mode.
pub open spec fn owner_masks(owner: Owner) -> (u32, u32, u32) {
    match owner {
        Owner::User => (0o400, 0o200, 0o100),
        Owner::Group => (0o040, 0o020, 0o010),
        Owner::Other => (0o004, 0o002, 0o001),
    }
}

impl Owner {
    /// The read, write and execute bits of this owner in a file mode.
    pub fn masks(&self) -> (r: [u32; 3])
        ensures
            r@ == seq![owner_masks(*self).0, owner_masks(*self).1, owner_masks(*self).2],
    {
        let r = match self {
            Owner::User => [0o400, 0o200, 0o100],
            Owner::Group => [0o040, 0o020, 0o010],
            Owner::Other => [0o004, 0o002, 0o001],
        };
        assert(r@ =~= seq![owner_masks(*self).0, owner_masks(*self).1, owner_masks(*self).2]);
        r
    }
}

/// `c` where `mode` has the bit `mask`, `-` where it has not.
pub open spec fn perm_char(mode: u32, mask: u32, c: char) -> char {
    if mode & mask == 0 {
        '-'
    } else {
        c
    }
}

/// The permissions of `owner` in `mode`, like `r-x`.
pub open spec fn triple(mode: u32, owner: Owner) -> Seq<char> {
    let m = owner_masks(owner);
    seq![perm_char(mode, m.0, 'r'), perm_char(mode, m.1, 'w'), perm_char(mode, m.2, 'x')]
}

/// Given a file mode like `0o500` and an owner, the owner's permissions as
/// a string like `r-x`.
pub fn mk_triple(mode: u32, owner: Owner) -> (r: String)
    ensures
        r@ == triple(mode, owner),
{
    let masks = owner.masks();
    let read = masks[0];
    let write = masks[1];
    let execute = masks[2];
    let mut r = String::new();
    r.push(if mode & read == 0 { '-' } else { 'r' });
    r.push(if mode & write == 0 { '-' } else { 'w' });
    r.push(if mode & execute == 0 { '-' } else { 'x' });
    assert(r@ =~= triple(mode, owner));
    r
}

/// The permissions of user, group and others in `mode`, like `rwxr-x--x`.
pub open spec fn mode_string(mode: u32) -> Seq<char> {
    triple(mode, Owner::User) + triple(mode, Owner::Group) + triple(mode, Owner::Other)
}

/// Given a file mode like `0o751`, the permissions as a string like
/// `rwxr-x--x`.
pub fn format_mode(mode: &u32) -> (r: String)
    ensures
        r@ == mode_string(*mode),
{
    let mut r = mk_triple(*mode, Owner::User);
    r.append(mk_triple(*mode, Owner::Group).as_str());
    r.append(mk_triple(*mode, Owner::Other).as_str());
    r
}


/// An entry of a directory, as the caller read it.
pub struct DirItem {
    /// The path of the entry, as it is displayed.
    pub path: String,
    /// The last component of the path.
    pub file_name: String,
}

/// What a path named on the command line is, as the caller found it.
pub enum PathListing {
    /// Its metadata could not be read; the text of the system's error.
    Missing(String),
    /// It is not a directory.
    NotDir,
    /// A directory: its entries, or the error met reading them.
    Dir(Result<Vec<DirItem>, String>),
}

/// Whether a file name marks a hidden file: it starts with a dot.
pub open spec fn is_hidden(file_name: Seq<char>) -> bool {
    file_name.len() > 0 && file_name[0] == '.'
}

/// The paths of the entries of a directory that `ls` lists: all of them
/// when hidden files are shown, else those not hidden.
pub open spec fn shown_items(items: Seq<DirItem>, show_hidden: bool) -> Seq<Seq<char>>
    decreases items.len(),
{
    if items.len() == 0 {
        seq![]
    } else {
        let rest = shown_items(items.drop_first(), show_hidden);
        if !is_hidden(items[0].file_name@) || show_hidden {
            seq![items[0].path@] + rest
        } else {
            rest
        }
    }
}

/// The paths that `ls` lists for `names` given what each is, or the error
/// that stops it; and what it reports on standard error: a path that is
/// missing is reported and skipped, a path that is not a directory is listed
/// as it is, a directory is listed by its entries, and an error reading a
/// directory ends the search.
pub open spec fn find_paths(names: Seq<String>, listings: Seq<PathListing>, show_hidden: bool) -> (
    Result<Seq<Seq<char>>, Seq<char>>,
    Seq<char>,
)
    decreases listings.len(),
{
    if listings.len() == 0 || names.len() == 0 {
        (Ok(seq![]), seq![])
    } else {
        let rest = find_paths(names.drop_first(), listings.drop_first(), show_hidden);
        match listings[0] {
            PathListing::Missing(e) => (
                rest.0,
                names[0]@ + seq![':', ' '] + e@ + seq!['\n'] + rest.1,
            ),
            PathListing::NotDir => (
                match rest.0 {
                    Ok(p) => Ok(seq![names[0]@] + p),
                    Err(m) => Err(m),
                },
                rest.1,
            ),
            PathListing::Dir(Err(m)) => (Err(m@), seq![]),
            PathListing::Dir(Ok(items)) => (
                match rest.0 {
                    Ok(p) => Ok(shown_items(items@, show_hidden) + p),
                    Err(m) => Err(m),
                },
                rest.1,
            ),
        }
    }
}

/// The paths listed for one directory.
fn shown_paths(paths: &mut Vec<String>, items: &Vec<DirItem>, show_hidden: bool)
    ensures
        views(final(paths)@) == views(old(paths)@) + shown_items(items@, show_hidden),
{
    let n = items.len();
    assert(items@.skip(0) =~= items@);
    for i in 0..n
        invariant
            n == items.len(),
            views(old(paths)@) + shown_items(items@, show_hidden) == views(paths@) + shown_items(
                items@.skip(i as int),
                show_hidden,
            ),
    {
        assert(items@.skip(i as int).drop_first() =~= items@.skip(i + 1));
        assert(items@.skip(i as int)[0] == items@[i as int]);
        let ghost before = paths@;
        let name = items[i].file_name.as_str();
        let hidden = name.unicode_len() > 0 && name.get_char(0) == '.';
        if !hidden || show_hidden {
            paths.push(items[i].path.clone());
            assert(views(paths@) =~= views(before).push(items@[i as int].path@));
        }
    }
    assert(items@.skip(n as int).len() == 0);
    assert(views(paths@) =~= views(paths@) + shown_items(items@.skip(n as int), show_hidden));
}

/// Decides the paths `ls` lists for `names`, given what each is on disk;
/// returns them, or the error that stops the search, and the messages for
/// missing paths.
pub fn find_files(names: &Vec<String>, listings: &Vec<PathListing>, show_hidden: bool) -> (r: (
    Result<Vec<String>, String>,
    String,
))
    requires
        names.len() == listings.len(),
    ensures
        ({
            let f = find_paths(names@, listings@, show_hidden);
            &&& r.1@ == f.1
            &&& match (r.0, f.0) {
                (Ok(v), Ok(p)) => views(v@) == p,
                (Err(m), Err(e)) => m@ == e,
                _ => false,
            }
        }),
{
    let mut paths: Vec<String> = Vec::new();
    let mut err = String::new();
    let n = names.len();
    let ghost whole = find_paths(names@, listings@, show_hidden);
    assert(names@.skip(0) =~= names@);
    assert(listings@.skip(0) =~= listings@);
    for i in 0..n
        invariant
            n == names.len(),
            n == listings.len(),
            whole == find_paths(names@, listings@, show_hidden),
            ({
                let rest = find_paths(names@.skip(i as int), listings@.skip(i as int), show_hidden);
                &&& match (whole.0, rest.0) {
                    (Ok(a), Ok(b)) => a == views(paths@) + b,
                    (Err(a), Err(b)) => a == b,
                    _ => false,
                }
                &&& rest.0 is Err ==> whole.1 == err@ + rest.1
                &&& rest.0 is Ok ==> whole.1 == err@ + rest.1
            }),
    {
        let ghost rest = find_paths(names@.skip(i as int), listings@.skip(i as int), show_hidden);
        assert(names@.skip(i as int).drop_first() =~= names@.skip(i + 1));
        assert(listings@.skip(i as int).drop_first() =~= listings@.skip(i + 1));
        assert(names@.skip(i as int)[0] == names@[i as int]);
        assert(listings@.skip(i as int)[0] == listings@[i as int]);
        let ghost before = paths@;
        match &listings[i] {
            PathListing::Missing(e) => {
                let ghost e0 = err@;
                err.append(names[i].as_str());
                err.push(':');
                err.push(' ');
                err.append(e.as_str());
                err.push('\n');
                assert(err@ =~= e0 + (names@[i as int]@ + seq![':', ' '] + e@ + seq!['\n']));
            },
            PathListing::NotDir => {
                paths.push(names[i].clone());
                assert(views(paths@) =~= views(before).push(names@[i as int]@));
            },
            PathListing::Dir(Err(m)) => {
                return (Err(m.clone()), err);
            },
            PathListing::Dir(Ok(items)) => {
                shown_paths(&mut paths, items, show_hidden);
            },
        }
    }
    assert(names@.skip(n as int).len() == 0);
    (Ok(paths), err)
}

/// What the caller found out about a file for the long listing.
pub struct FileMeta {
    pub is_dir: bool,
    pub mode: u32,
    pub nlink: u64,
    pub uid: u32,
    /// The name of the user `uid`, where the system knows it.
    pub user: Option<String>,
    pub gid: u32,
    /// The name of the group `gid`, where the system knows it.
    pub group: Option<String>,
    pub size: u64,
    /// The time of the last change, already formatted.
    pub modified: String,
    pub name: String,
}

/// The name shown for an owner: its name where known, else its number.
pub open spec fn owner_name(name: Option<String>, id: u32) -> Seq<char> {
    match name {
        Some(n) => n@,
        None => decimal(id as nat),
    }
}

/// The cells of one row of the long listing for `m` shown under `name`:
/// type, permissions, links, user, group, size, time of change and name.
pub open spec fn row_named(m: FileMeta, name: Seq<char>) -> Seq<Seq<char>> {
    seq![
        if m.is_dir {
            seq!['d']
        } else {
            seq!['-']
        },
        mode_string(m.mode),
        decimal(m.nlink as nat),
        owner_name(m.user, m.uid),
        owner_name(m.group, m.gid),
        decimal(m.size as nat),
        m.modified@,
        name,
    ]
}

/// The cells of the row of `m`, under its own name.
pub open spec fn row_of(m: FileMeta) -> Seq<Seq<char>> {
    row_named(m, m.name@)
}

/// The text of a table with the cells `rows`, laid out by `tabled` as the
/// long listing does.
pub uninterp spec fn table_text(rows: Seq<Seq<Seq<char>>>) -> Seq<char>;

/// The cells of each row.
pub open spec fn rows_view(rows: Seq<Vec<String>>) -> Seq<Seq<Seq<char>>> {
    rows.map_values(|r: Vec<String>| views(r@))
}

/// `tabled`: the table of `rows` without header, borders or padding, with
/// two spaces before each column from the third, and the third and sixth
/// columns aligned right. The layout is `tabled`'s, so the contract names
/// the text, as a function of the cells.
#[verifier::external_body]
fn render_table(rows: &Vec<Vec<String>>) -> (r: String)
    ensures
        r@ == table_text(rows_view(rows@)),
{
    let mut table = tabled::builder::Builder::from_iter(rows.iter().cloned()).build();
    table
        .with(Style::empty())
        .with(Padding::zero())
        .modify(Columns::new(2..), Padding::new(2, 0, 0, 0))
        .modify(Columns::new(2..=2), Alignment::right())
        .modify(Columns::new(5..=5), Alignment::right());
    table.to_string()
}

/// The name shown for an owner.
fn owner_text(name: &Option<String>, id: u32) -> (r: String)
    ensures
        r@ == owner_name(*name, id),
{
    match name {
        Some(n) => n.clone(),
        None => {
            let mut r = String::new();
            push_decimal(&mut r, id as u64);
            r
        },
    }
}

/// A number in decimal.
fn decimal_text(n: u64) -> (r: String)
    ensures
        r@ == decimal(n as nat),
{
    let mut r = String::new();
    push_decimal(&mut r, n);
    r
}

/// The cells of one row of the long listing.
fn make_row(m: &FileMeta) -> (r: Vec<String>)
    ensures
        views(r@) == row_of(*m),
{
    let mut kind = String::new();
    kind.push(if m.is_dir { 'd' } else { '-' });
    let mut r: Vec<String> = Vec::new();
    r.push(kind);
    r.push(format_mode(&m.mode));
    r.push(decimal_text(m.nlink));
    r.push(owner_text(&m.user, m.uid));
    r.push(owner_text(&m.group, m.gid));
    r.push(decimal_text(m.size));
    r.push(m.modified.clone());
    r.push(m.name.clone());
    assert(views(r@) =~= row_of(*m));
    r
}

/// The long listing of `entries`: a table with a row per entry.
pub fn format_output(entries: &Vec<FileMeta>) -> (r: String)
    ensures
        r@ == table_text(entries@.map_values(|m: FileMeta| row_of(m))),
{
    let mut rows: Vec<Vec<String>> = Vec::new();
    let n = entries.len();
    for i in 0..n
        invariant
            n == entries.len(),
            rows_view(rows@) == entries@.take(i as int).map_values(|m: FileMeta| row_of(m)),
    {
        let ghost before = rows@;
        rows.push(make_row(&entries[i]));
        assert(rows_view(rows@) =~= rows_view(before).push(row_of(entries@[i as int])));
        assert(entries@.take(i + 1) =~= entries@.take(i as int).push(entries@[i as int]));
        assert(entries@.take(i + 1).map_values(|m: FileMeta| row_of(m)) =~= entries@.take(
            i as int,
        ).map_values(|m: FileMeta| row_of(m)).push(row_of(entries@[i as int])));
    }
    assert(entries@.take(n as int) =~= entries@);
    render_table(&rows)
}


/// The message of the first of `metas` that could not be read, if any.
pub open spec fn first_error(metas: Seq<Result<FileMeta, String>>) -> Option<Seq<char>>
    decreases metas.len(),
{
    if metas.len() == 0 {
        None
    } else {
        match metas[0] {
            Err(m) => Some(m@),
            Ok(_) => first_error(metas.drop_first()),
        }
    }
}

/// The rows of `metas`, all of which could be read, each under the listed
/// path it was found for.
pub open spec fn meta_rows(metas: Seq<Result<FileMeta, String>>, paths: Seq<Seq<char>>) -> Seq<Seq<Seq<char>>> {
    metas.map(|i: int, m: Result<FileMeta, String>| match m {
        Ok(f) => row_named(f, paths[i]),
        Err(_) => seq![],
    })
}

/// Each path on a line of its own.
pub open spec fn path_lines(paths: Seq<Seq<char>>) -> Seq<char> {
    paths.map_values(|p: Seq<char>| p + seq!['\n']).flatten()
}

/// Runs `ls` over the paths of `options`, given what each is on disk and, for
/// the long listing, what was found out about each path that `find_files`
/// lists.
pub fn run(options: &Options, listings: &Vec<PathListing>, metas: &Vec<Result<FileMeta, String>>) -> (r: Report)
    requires
        options.paths.len() == listings.len(),
        options.long ==> (find_paths(options.paths@, listings@, options.show_hidden).0 matches Ok(p)
            ==> metas.len() == p.len()),
    ensures
        ({
            let f = find_paths(options.paths@, listings@, options.show_hidden);
            &&& r.err@ == f.1
            &&& match f.0 {
                Err(m) => r.out@ == Seq::<char>::empty() && (r.failure matches Some(x) && x@ == m),
                Ok(p) => if !options.long {
                    r.out@ == path_lines(p) && r.failure is None
                } else {
                    match first_error(metas@) {
                        Some(m) => r.out@ == Seq::<char>::empty() && (r.failure matches Some(x) && x@ == m),
                        None => r.out@ == table_text(meta_rows(metas@, p)) + seq!['\n'] && r.failure is None,
                    }
                },
            }
        }),
{
    let (found, err) = find_files(&options.paths, listings, options.show_hidden);
    let paths = match found {
        Ok(p) => p,
        Err(m) => {
            return Report { out: String::new(), err, failure: Some(m) };
        },
    };
    let mut out = String::new();
    if !options.long {
        let n = paths.len();
        let ghost f = |p: Seq<char>| p + seq!['\n'];
        for i in 0..n
            invariant
                n == paths.len(),
                f == (|p: Seq<char>| p + seq!['\n']),
                out@ == views(paths@).take(i as int).map_values(f).flatten(),
        {
            let ghost before = out@;
            out.append(paths[i].as_str());
            out.push('\n');
            proof {
                let t = views(paths@).take(i as int);
                assert(views(paths@).take(i + 1) =~= t.push(paths@[i as int]@));
                assert(t.push(paths@[i as int]@).map_values(f) =~= t.map_values(f).push(f(paths@[i as int]@)));
                t.map_values(f).lemma_flatten_push(f(paths@[i as int]@));
                assert(out@ =~= before + f(paths@[i as int]@));
            }
        }
        assert(views(paths@).take(n as int) =~= views(paths@));
        return Report { out, err, failure: None };
    }
    let mut entries: Vec<FileMeta> = Vec::new();
    let n = metas.len();
    let ghost ps = views(paths@);
    assert(metas@.skip(0) =~= metas@);
    for i in 0..n
        invariant
            n == metas.len(),
            n == paths.len(),
            ps == views(paths@),
            out@ == Seq::<char>::empty(),
            options.long,
            err@ == find_paths(options.paths@, listings@, options.show_hidden).1,
            find_paths(options.paths@, listings@, options.show_hidden).0 == Ok::<Seq<Seq<char>>, Seq<char>>(ps),
            first_error(metas@) == first_error(metas@.skip(i as int)),
            entries@.map_values(|m: FileMeta| row_of(m)) == meta_rows(metas@.take(i as int), ps.take(i as int)),
    {
        assert(metas@.skip(i as int).drop_first() =~= metas@.skip(i + 1));
        assert(metas@.skip(i as int)[0] == metas@[i as int]);
        let ghost before = entries@;
        match &metas[i] {
            Err(m) => {
                assert(first_error(metas@.skip(i as int)) == Some(m@));
                assert(out@ =~= Seq::<char>::empty());
                return Report { out, err, failure: Some(m.clone()) };
            },
            Ok(meta) => {
                entries.push(named_meta(meta, &paths[i]));
                assert(metas@.take(i + 1) =~= metas@.take(i as int).push(metas@[i as int]));
                assert(ps.take(i + 1) =~= ps.take(i as int).push(ps[i as int]));
                assert(entries@.map_values(|m: FileMeta| row_of(m)) =~= before.map_values(
                    |m: FileMeta| row_of(m),
                ).push(row_named(*meta, ps[i as int])));
                assert(meta_rows(metas@.take(i + 1), ps.take(i + 1)) =~= meta_rows(
                    metas@.take(i as int),
                    ps.take(i as int),
                ).push(row_named(*meta, ps[i as int])));
            },
        }
    }
    assert(metas@.take(n as int) =~= metas@);
    assert(ps.take(n as int) =~= ps);
    out = format_output(&entries);
    out.push('\n');
    Report { out, err, failure: None }
}

/// A copy of `m` shown under `name`.
fn named_meta(m: &FileMeta, name: &String) -> (r: FileMeta)
    ensures
        row_of(r) == row_named(*m, name@),
{
    FileMeta {
        is_dir: m.is_dir,
        mode: m.mode,
        nlink: m.nlink,
        uid: m.uid,
        user: match &m.user {
            Some(u) => Some(u.clone()),
            None => None,
        },
        gid: m.gid,
        group: match &m.group {
            Some(g) => Some(g.clone()),
            None => None,
        },
        size: m.size,
        modified: m.modified.clone(),
        name: name.clone(),
    }
}


/// The permission string of a mode depends only on its nine permission
/// bits: the file type and the special bits above them do not show.
pub proof fn mode_string_reads_permission_bits(mode: u32)
    ensures
        mode_string(mode) == mode_string(mode & 0o777),
{
    let low = mode & 0o777;
    assert((mode & 0o400 == 0) == (low & 0o400 == 0) && (mode & 0o200 == 0) == (low & 0o200 == 0)
        && (mode & 0o100 == 0) == (low & 0o100 == 0) && (mode & 0o040 == 0) == (low & 0o040 == 0)
        && (mode & 0o020 == 0) == (low & 0o020 == 0) && (mode & 0o010 == 0) == (low & 0o010 == 0)
        && (mode & 0o004 == 0) == (low & 0o004 == 0) && (mode & 0o002 == 0) == (low & 0o002 == 0)
        && (mode & 0o001 == 0) == (low & 0o001 == 0)) by (bit_vector)
        requires
            low == mode & 0o777,
    ;
    assert(mode_string(mode) =~= mode_string(low));
}

/// The path of each item.
pub open spec fn item_paths(items: Seq<DirItem>) -> Seq<Seq<char>> {
    items.map_values(|i: DirItem| i.path@)
}

/// With `-a` every entry of a directory is listed, in the order read;
/// without it exactly the entries whose names do not start with a dot.
pub proof fn hidden_entries_need_all(items: Seq<DirItem>)
    ensures
        shown_items(items, true) == item_paths(items),
        shown_items(items, false) == item_paths(items.filter(|i: DirItem| !is_hidden(i.file_name@))),
    decreases items.len(),
{
    let keep = |i: DirItem| !is_hidden(i.file_name@);
    if items.len() == 0 {
        assert(item_paths(items) =~= Seq::<Seq<char>>::empty());
        assert(items.filter(keep) =~= Seq::<DirItem>::empty()) by {
            reveal_with_fuel(Seq::filter, 1);
        }
        assert(item_paths(items.filter(keep)) =~= Seq::<Seq<char>>::empty());
    } else {
        let tail = items.drop_first();
        hidden_entries_need_all(tail);
        assert(item_paths(items) =~= seq![items[0].path@] + item_paths(tail));
        assert(items =~= seq![items[0]] + tail);
        tail.lemma_filter_prepend(items[0], keep);
        let ft = tail.filter(keep);
        if keep(items[0]) {
            assert(item_paths(seq![items[0]] + ft) =~= seq![items[0].path@] + item_paths(ft));
        } else {
            assert(Seq::<DirItem>::empty() + ft =~= ft);
        }
    }
}

/// A local date and time of day, as the caller read it off a clock.
pub struct LocalTime {
    pub year: i32,
    pub month: u32,
    pub day: u32,
    pub hour: u32,
    pub minute: u32,
}

/// Whether `y` is a leap year of the proleptic Gregorian calendar.
pub open spec fn is_leap(y: int) -> bool {
    y % 4 == 0 && (y % 100 != 0 || y % 400 == 0)
}

/// The number of days of month `m` of year `y`.
pub open spec fn days_in_month(y: int, m: int) -> int {
    if m == 2 {
        if is_leap(y) {
            29
        } else {
            28
        }
    } else if m == 4 || m == 6 || m == 9 || m == 11 {
        30
    } else {
        31
    }
}

/// Whether `t` is a time `chrono` can hold: a year in its range, a day of
/// that month, an hour and a minute of the day.
pub open spec fn valid_time(t: LocalTime) -> bool {
    &&& -262143 <= t.year <= 262142
    &&& 1 <= t.month <= 12
    &&& 1 <= t.day <= days_in_month(t.year as int, t.month as int)
    &&& t.hour < 24
    &&& t.minute < 60
}

/// The English abbreviation of month `m`.
pub open spec fn month_abbrev(m: u32) -> Seq<char> {
    if m == 1 {
        "Jan"@
    } else if m == 2 {
        "Feb"@
    } else if m == 3 {
        "Mar"@
    } else if m == 4 {
        "Apr"@
    } else if m == 5 {
        "May"@
    } else if m == 6 {
        "Jun"@
    } else if m == 7 {
        "Jul"@
    } else if m == 8 {
        "Aug"@
    } else if m == 9 {
        "Sep"@
    } else if m == 10 {
        "Oct"@
    } else if m == 11 {
        "Nov"@
    } else {
        "Dec"@
    }
}

/// A number below 100 in two digits, with a leading zero.
pub open spec fn two_digits(v: nat) -> Seq<char> {
    seq![digit_char(v / 10), digit_char(v % 10)]
}

/// The time of change as `ls -l` shows it, `%b %d %y %H:%M` in `chrono`'s
/// notation: like `Mar 10 26 17:24`, the year as its last two digits.
pub open spec fn modified_text(t: LocalTime) -> Seq<char> {
    month_abbrev(t.month) + seq![' '] + two_digits(t.day as nat) + seq![' '] + two_digits(
        ((t.year as int) % 100) as nat,
    ) + seq![' '] + two_digits(t.hour as nat) + seq![':'] + two_digits(t.minute as nat)
}

/// `chrono`: the date and time built with `NaiveDate::from_ymd_opt` and
/// `and_hms_opt`, formatted with `%b %d %y %H:%M`. Both builders accept
/// every valid time (they return `None` only outside the calendar and the
/// year range), and the format writes the English month abbreviation, then
/// the day, the year modulo 100 (Euclidean), the hour and the minute, each
/// in two digits with a leading zero.
#[verifier::external_body]
fn chrono_format(t: &LocalTime) -> (r: String)
    requires
        valid_time(*t),
    ensures
        r@ == modified_text(*t),
{
    chrono::NaiveDate::from_ymd_opt(t.year, t.month, t.day)
        .unwrap()
        .and_hms_opt(t.hour, t.minute, 0)
        .unwrap()
        .format("%b %d %y %H:%M")
        .to_string()
}

/// Given a local time, a string like "Mar 10 26 17:24".
pub fn format_modified(t: &LocalTime) -> (r: String)
    requires
        valid_time(*t),
    ensures
        r@ == modified_text(*t),
{
    chrono_format(t)
}

} // verus!
