//! `find`: lists the entries beneath paths that have a given type and name.
use vstd::prelude::*;
use crate::input::Report;
use crate::pattern::{regex_matches, Pattern};
use crate::text::{join, join_strings, views};

verus! {

/// The kinds of entry that can be asked for.
#[derive(Debug, Clone, Copy, PartialEq, Eq)]
pub enum EntryType {
    Dir,
    File,
    Link,
}

/// An entry met while walking a path.
pub struct DirEntry {
    /// The path of the entry, as it is displayed.
    pub path: String,
    /// The last component of the path.
    pub file_name: String,
    pub is_dir: bool,
    pub is_file: bool,
    pub is_symlink: bool,
}

/// The settings of one run.
pub struct Options {
    pub paths: Vec<String>,
    pub names: Vec<Pattern>,
    pub entry_types: Vec<EntryType>,
}

/// Whether `e` is of kind `t`.
pub open spec fn is_of_type(t: EntryType, e: DirEntry) -> bool {
    match t {
        EntryType::Link => e.is_symlink,
        EntryType::Dir => e.is_dir,
        EntryType::File => e.is_file,
    }
}

/// Whether `e` is of one of `types`.
pub open spec fn any_type(types: Seq<EntryType>, e: DirEntry) -> bool
    decreases types.len(),
{
    types.len() > 0 && (is_of_type(types[0], e) || any_type(types.drop_first(), e))
}

/// Whether one of `names` matches the file name of `e`.
pub open spec fn any_name(names: Seq<(Seq<char>, bool)>, e: DirEntry) -> bool
    decreases names.len(),
{
    names.len() > 0 && (regex_matches(names[0].0, names[0].1, e.file_name@) || any_name(
        names.drop_first(),
        e,
    ))
}

/// The source and case setting of each pattern.
pub open spec fn pattern_views(v: Seq<Pattern>) -> Seq<(Seq<char>, bool)> {
    v.map_values(|p: Pattern| p@)
}

/// Whether `find` lists `e`: of one of the types asked for, or of any type
/// when none is; and with a name that one of the patterns matches, or any
/// name when there is no pattern.
pub open spec fn listed(o: Options, e: DirEntry) -> bool {
    &&& (o.entry_types@.len() == 0 || any_type(o.entry_types@, e))
    &&& (o.names@.len() == 0 || any_name(pattern_views(o.names@), e))
}

/// The paths that `find` lists of one walk, in order.
pub open spec fn listed_paths(walk: Seq<Result<DirEntry, String>>, o: Options) -> Seq<Seq<char>>
    decreases walk.len(),
{
    if walk.len() == 0 {
        seq![]
    } else {
        let rest = listed_paths(walk.drop_first(), o);
        match walk[0] {
            Ok(e) => if listed(o, e) {
                seq![e.path@] + rest
            } else {
                rest
            },
            Err(_) => rest,
        }
    }
}

/// The errors met in one walk, one per line.
pub open spec fn walk_errors(walk: Seq<Result<DirEntry, String>>) -> Seq<char>
    decreases walk.len(),
{
    if walk.len() == 0 {
        seq![]
    } else {
        match walk[0] {
            Ok(_) => walk_errors(walk.drop_first()),
            Err(m) => m@ + seq!['\n'] + walk_errors(walk.drop_first()),
        }
    }
}

/// Standard output and standard error of `find` over the walks of each path:
/// for each, the listed paths one per line (an empty line where none is
/// listed), and the errors met.
pub open spec fn find_run(walks: Seq<Vec<Result<DirEntry, String>>>, o: Options) -> (Seq<char>, Seq<char>)
    decreases walks.len(),
{
    if walks.len() == 0 {
        (seq![], seq![])
    } else {
        let rest = find_run(walks.drop_first(), o);
        (
            join(listed_paths(walks[0]@, o), seq!['\n']) + seq!['\n'] + rest.0,
            walk_errors(walks[0]@) + rest.1,
        )
    }
}

/// Whether `e` is of one of `types`.
fn has_type(types: &Vec<EntryType>, e: &DirEntry) -> (r: bool)
    ensures
        r == any_type(types@, *e),
{
    let n = types.len();
    assert(types@.skip(0) =~= types@);
    for i in 0..n
        invariant
            n == types.len(),
            any_type(types@, *e) == any_type(types@.skip(i as int), *e),
    {
        assert(types@.skip(i as int).drop_first() =~= types@.skip(i + 1));
        let ok = match types[i] {
            EntryType::Link => e.is_symlink,
            EntryType::Dir => e.is_dir,
            EntryType::File => e.is_file,
        };
        if ok {
            return true;
        }
    }
    false
}

/// Whether one of `names` matches the file name of `e`.
fn has_name(names: &Vec<Pattern>, e: &DirEntry) -> (r: bool)
    ensures
        r == any_name(pattern_views(names@), *e),
{
    let n = names.len();
    assert(pattern_views(names@).skip(0) =~= pattern_views(names@));
    for i in 0..n
        invariant
            n == names.len(),
            any_name(pattern_views(names@), *e) == any_name(pattern_views(names@).skip(i as int), *e),
    {
        assert(pattern_views(names@).skip(i as int).drop_first() =~= pattern_views(names@).skip(i + 1));
        assert(pattern_views(names@).skip(i as int)[0] == names@[i as int]@);
        if names[i].is_match(e.file_name.as_str()) {
            return true;
        }
    }
    false
}

/// Whether `find` lists `e`.
pub fn is_listed(options: &Options, e: &DirEntry) -> (r: bool)
    ensures
        r == listed(*options, *e),
{
    (options.entry_types.len() == 0 || has_type(&options.entry_types, e)) && (options.names.len()
        == 0 || has_name(&options.names, e))
}

/// Lists one walk: appends the listed paths, joined by newlines, and a
/// newline to `out`, and the errors to `err`.
fn find_walk(out: &mut String, err: &mut String, walk: &Vec<Result<DirEntry, String>>, o: &Options)
    ensures
        final(out)@ == old(out)@ + join(listed_paths(walk@, *o), seq!['\n']) + seq!['\n'],
        final(err)@ == old(err)@ + walk_errors(walk@),
{
    let mut kept: Vec<String> = Vec::new();
    let n = walk.len();
    assert(walk@.skip(0) =~= walk@);
    for i in 0..n
        invariant
            n == walk.len(),
            listed_paths(walk@, *o) == views(kept@) + listed_paths(walk@.skip(i as int), *o),
            old(err)@ + walk_errors(walk@) == err@ + walk_errors(walk@.skip(i as int)),
    {
        let ghost rest = walk@.skip(i as int);
        assert(rest.drop_first() =~= walk@.skip(i + 1));
        assert(rest[0] == walk@[i as int]);
        let ghost before = kept@;
        match &walk[i] {
            Ok(e) => {
                if is_listed(o, e) {
                    kept.push(e.path.clone());
                    assert(views(kept@) =~= views(before).push(e.path@));
                }
            },
            Err(m) => {
                err.append(m.as_str());
                err.push('\n');
            },
        }
    }
    assert(walk@.skip(n as int).len() == 0);
    assert(views(kept@) =~= listed_paths(walk@, *o));
    let mut sep = String::new();
    sep.push('\n');
    out.append(join_strings(&kept, sep.as_str()).as_str());
    out.push('\n');
    assert(final(err)@ =~= old(err)@ + walk_errors(walk@));
}

/// Runs `find` over `walks`, the entries met walking each of `options.paths`.
pub fn run(options: &Options, walks: &Vec<Vec<Result<DirEntry, String>>>) -> (r: Report)
    ensures
        r.out@ == find_run(walks@, *options).0,
        r.err@ == find_run(walks@, *options).1,
        r.failure is None,
{
    let mut out = String::new();
    let mut err = String::new();
    let n = walks.len();
    let ghost whole = find_run(walks@, *options);
    assert(walks@.skip(0) =~= walks@);
    for i in 0..n
        invariant
            n == walks.len(),
            whole == find_run(walks@, *options),
            ({
                let rest = find_run(walks@.skip(i as int), *options);
                whole.0 == out@ + rest.0 && whole.1 == err@ + rest.1
            }),
    {
        let ghost rest = walks@.skip(i as int);
        assert(rest.drop_first() =~= walks@.skip(i + 1));
        assert(rest[0] == walks@[i as int]);
        find_walk(&mut out, &mut err, &walks[i], options);
    }
    assert(walks@.skip(n as int).len() == 0);
    Report { out, err, failure: None }
}

/// Whether the walk met `r`, an entry, and `find` lists it.
pub open spec fn kept(o: Options, r: Result<DirEntry, String>) -> bool {
    r matches Ok(e) && listed(o, e)
}

/// The path of an entry met, or nothing for an error.
pub open spec fn entry_path(r: Result<DirEntry, String>) -> Seq<char> {
    match r {
        Ok(e) => e.path@,
        Err(_) => seq![],
    }
}

/// `find` lists exactly the entries of a walk that pass its filters, each
/// once and in the order the walk met them; errors are never listed.
pub proof fn listing_is_the_filtered_walk(walk: Seq<Result<DirEntry, String>>, o: Options)
    ensures
        listed_paths(walk, o) == walk.filter(|r: Result<DirEntry, String>| kept(o, r)).map_values(
            |r: Result<DirEntry, String>| entry_path(r),
        ),
    decreases walk.len(),
{
    let keep = |r: Result<DirEntry, String>| kept(o, r);
    let path = |r: Result<DirEntry, String>| entry_path(r);
    if walk.len() == 0 {
        assert(walk.filter(keep) =~= Seq::<Result<DirEntry, String>>::empty()) by {
            reveal_with_fuel(Seq::filter, 1);
        }
        assert(walk.filter(keep).map_values(path) =~= Seq::<Seq<char>>::empty());
    } else {
        let tail = walk.drop_first();
        listing_is_the_filtered_walk(tail, o);
        assert(walk =~= seq![walk[0]] + tail);
        tail.lemma_filter_prepend(walk[0], keep);
        let ft = tail.filter(keep);
        if keep(walk[0]) {
            assert((seq![walk[0]] + ft).map_values(path) =~= seq![path(walk[0])] + ft.map_values(path));
        } else {
            assert(Seq::<Result<DirEntry, String>>::empty() + ft =~= ft);
        }
    }
}

} // verus!
