//! `grep`: prints the lines of files that match a regular expression.
use vstd::prelude::*;
use vstd::utf8::valid_utf8;
use crate::input::{push_unavailable, unavailable_line, Report, Source};
use crate::pattern::{regex_compiles, regex_matches, Pattern};
use crate::text::{
    decimal, first_line, is_stdin_name, lemma_readable_empty, lemma_readable_step,
    lemma_readable_stop, push_decimal, read_fails, readable_lines, views, LineReader, ReadError,
};

verus! {

/// The settings of one run.
pub struct Options {
    pub pattern: String,
    pub files: Vec<String>,
    pub insensitive: bool,
    pub recursive: bool,
    pub count: bool,
    pub invert: bool,
}

/// Whether `grep` keeps `line`: it matches, or it does not when inverted.
pub open spec fn selected(p: (Seq<char>, bool), line: Seq<char>, invert: bool) -> bool {
    regex_matches(p.0, p.1, line) != invert
}

/// The lines, each with its newline, that `grep` keeps of an input holding
/// `b` that can be read to its end.
pub open spec fn matching_lines(b: Seq<u8>, p: (Seq<char>, bool), invert: bool) -> Seq<Seq<char>> {
    readable_lines(b).filter(|l: Seq<char>| selected(p, l, invert))
}

/// Collects the lines of `data` that `pattern` matches (or does not match,
/// when `invert`), each with its newline; an error where a line is not UTF-8.
pub fn find_lines(data: &[u8], pattern: &Pattern, invert: bool) -> (r: Result<Vec<String>, ReadError>)
    ensures
        r is Err <==> read_fails(data@),
        r matches Ok(v) ==> views(v@) == matching_lines(data@, pattern@, invert),
{
    let mut reader = LineReader::new(vstd::slice::slice_to_vec(data));
    let mut matches: Vec<String> = Vec::new();
    let ghost all = readable_lines(data@);
    let ghost keep = |l: Seq<char>| selected(pattern@, l, invert);
    loop
        invariant
            all == readable_lines(data@),
            keep == (|l: Seq<char>| selected(pattern@, l, invert)),
            readable_lines(reader@).len() <= all.len(),
            all == all.take(all.len() - readable_lines(reader@).len()) + readable_lines(reader@),
            views(matches@) == all.take(all.len() - readable_lines(reader@).len()).filter(keep),
            read_fails(data@) == read_fails(reader@),
        decreases reader@.len(),
    {
        let ghost before = reader@;
        proof {
            if before.len() == 0 {
                lemma_readable_empty(before);
            } else if valid_utf8(first_line(before)) {
                lemma_readable_step(before);
            } else {
                lemma_readable_stop(before);
            }
        }
        match reader.read_raw_line() {
            Ok(Some(line)) => {
                let ghost done = all.take(all.len() - readable_lines(before).len());
                proof {
                    assert(all.take(all.len() - readable_lines(reader@).len()) =~= done.push(line@));
                    assert(done.push(line@).filter(keep) == if keep(line@) {
                        done.filter(keep).push(line@)
                    } else {
                        done.filter(keep)
                    }) by {
                        reveal_with_fuel(Seq::filter, 1);
                        assert(done.push(line@).drop_last() =~= done);
                    }
                }
                let ghost old_matches = matches@;
                if pattern.is_match(line.as_str()) != invert {
                    matches.push(line);
                    assert(views(matches@) =~= views(old_matches).push(matches@.last()@));
                }
            },
            Ok(None) => {
                assert(all.take(all.len() as int) =~= all);
                return Ok(matches);
            },
            Err(e) => {
                return Err(e);
            },
        }
    }
}

/// What a path is, as the caller found it on disk.
pub enum PathInfo {
    /// Its metadata could not be read; the text of the system's error.
    Missing(String),
    /// A regular file.
    File,
    /// A directory, with the regular files found beneath it (gathered only
    /// for a recursive search).
    Dir(Vec<String>),
    /// Something else, such as a device.
    Other,
}

/// The inputs that `grep` searches for `path`: standard input for `-`, an
/// error for a missing path or a directory in a search that does not
/// recurse, the path of a regular file, the files beneath a directory in a
/// recursive search, and nothing for anything else.
pub open spec fn path_entries(path: Seq<char>, info: PathInfo, recursive: bool) -> Seq<Result<Seq<char>, Seq<char>>> {
    if path == seq!['-'] {
        seq![Ok(path)]
    } else {
        match info {
            PathInfo::Missing(e) => seq![Err(path + seq![':', ' '] + e@)],
            PathInfo::File => seq![Ok(path)],
            PathInfo::Dir(files) => if recursive {
                views(files@).map_values(|f: Seq<char>| Ok::<Seq<char>, Seq<char>>(f))
            } else {
                seq![Err(path + " is a directory"@)]
            },
            PathInfo::Other => seq![],
        }
    }
}

/// The entries of each of `paths`, in order.
pub open spec fn all_entries(paths: Seq<String>, infos: Seq<PathInfo>, recursive: bool) -> Seq<Result<Seq<char>, Seq<char>>>
    decreases paths.len(),
{
    if paths.len() == 0 || infos.len() == 0 {
        seq![]
    } else {
        path_entries(paths[0]@, infos[0], recursive) + all_entries(paths.drop_first(), infos.drop_first(), recursive)
    }
}

/// The characters of each entry.
pub open spec fn entry_views(v: Seq<Result<String, String>>) -> Seq<Result<Seq<char>, Seq<char>>> {
    v.map_values(|e: Result<String, String>| match e {
        Ok(s) => Ok(s@),
        Err(s) => Err(s@),
    })
}

/// The entries of one path.
fn entries_for(path: &String, info: &PathInfo, recursive: bool) -> (r: Vec<Result<String, String>>)
    ensures
        entry_views(r@) == path_entries(path@, *info, recursive),
{
    let mut r: Vec<Result<String, String>> = Vec::new();
    if is_stdin_name(path.as_str()) {
        r.push(Ok(path.clone()));
        assert(entry_views(r@) =~= path_entries(path@, *info, recursive));
        return r;
    }
    match info {
        PathInfo::Missing(e) => {
            let mut m = path.clone();
            m.push(':');
            m.push(' ');
            m.append(e.as_str());
            assert(m@ =~= path@ + seq![':', ' '] + e@);
            r.push(Err(m));
            assert(entry_views(r@) =~= path_entries(path@, *info, recursive));
        },
        PathInfo::File => {
            r.push(Ok(path.clone()));
            assert(entry_views(r@) =~= path_entries(path@, *info, recursive));
        },
        PathInfo::Dir(files) => {
            if recursive {
                let k = files.len();
                for j in 0..k
                    invariant
                        k == files.len(),
                        entry_views(r@) =~= views(files@).take(j as int).map_values(
                            |f: Seq<char>| Ok::<Seq<char>, Seq<char>>(f),
                        ),
                {
                    let ghost prev = r@;
                    let f = files[j].clone();
                    r.push(Ok(f));
                    assert(r@ == prev.push(Ok(f)));
                    assert(entry_views(r@) =~= entry_views(prev).push(Ok(files@[j as int]@)));
                    assert(views(files@).take(j + 1) =~= views(files@).take(j as int).push(files@[j as int]@));
                }
                assert(views(files@).take(k as int) =~= views(files@));
                assert(entry_views(r@) =~= path_entries(path@, *info, recursive));
            } else {
                let mut m = path.clone();
                m.append(" is a directory");
                r.push(Err(m));
                assert(entry_views(r@) =~= path_entries(path@, *info, recursive));
            }
        },
        PathInfo::Other => {},
    }
    assert(entry_views(r@) =~= path_entries(path@, *info, recursive));
    r
}

/// Decides what to search for each of `paths`, given what each is on disk.
pub fn find_files(paths: &Vec<String>, infos: &Vec<PathInfo>, recursive: bool) -> (r: Vec<Result<String, String>>)
    requires
        paths.len() == infos.len(),
    ensures
        entry_views(r@) == all_entries(paths@, infos@, recursive),
{
    let mut r: Vec<Result<String, String>> = Vec::new();
    let n = paths.len();
    assert(paths@.skip(0) =~= paths@);
    assert(infos@.skip(0) =~= infos@);
    for i in 0..n
        invariant
            n == paths.len(),
            n == infos.len(),
            all_entries(paths@, infos@, recursive) == entry_views(r@) + all_entries(
                paths@.skip(i as int),
                infos@.skip(i as int),
                recursive,
            ),
    {
        let ghost before = r@;
        assert(paths@.skip(i as int).drop_first() =~= paths@.skip(i + 1));
        assert(infos@.skip(i as int).drop_first() =~= infos@.skip(i + 1));
        let mut part = entries_for(&paths[i], &infos[i], recursive);
        let ghost part_v = part@;
        r.append(&mut part);
        assert(entry_views(r@) =~= entry_views(before) + entry_views(part_v));
        assert(paths@.skip(i as int)[0] == paths@[i as int]);
        assert(infos@.skip(i as int)[0] == infos@[i as int]);
    }
    assert(paths@.skip(n as int).len() == 0);
    assert(entry_views(r@) =~= entry_views(r@) + all_entries(paths@.skip(n as int), infos@.skip(n as int), recursive));
    r
}


/// What goes before each line printed from file `name`: the name and a colon
/// when several files are searched.
pub open spec fn line_prefix(name: Seq<char>, many: bool) -> Seq<char> {
    if many {
        name + seq![':']
    } else {
        seq![]
    }
}

/// Each of `lines` after `prefix`, all in a row.
pub open spec fn prefixed(lines: Seq<Seq<char>>, prefix: Seq<char>) -> Seq<char> {
    lines.map_values(|l: Seq<char>| prefix + l).flatten()
}

/// Standard output and standard error of `grep` over `inputs` with the
/// compiled pattern `p`: an entry that is an error, a file that could not be
/// opened or read and a file with a line that is not UTF-8 are reported on standard
/// error; of the others, the number of kept lines or the kept lines are
/// printed.
pub open spec fn grep_inputs(
    inputs: Seq<Result<(String, Source), String>>,
    p: (Seq<char>, bool),
    o: Options,
    many: bool,
) -> (Seq<char>, Seq<char>)
    decreases inputs.len(),
{
    if inputs.len() == 0 {
        (seq![], seq![])
    } else {
        let rest = grep_inputs(inputs.drop_first(), p, o, many);
        match inputs[0] {
            Err(m) => (rest.0, m@ + seq!['\n'] + rest.1),
            Ok((name, Source::Unavailable(e))) => (rest.0, unavailable_line(name@, e@) + rest.1),
            Ok((_, Source::Unreadable(e))) => (rest.0, e@ + seq!['\n'] + rest.1),
            Ok((name, Source::Contents(b))) => if read_fails(b@) {
                (rest.0, "stream did not contain valid UTF-8"@ + seq!['\n'] + rest.1)
            } else {
                let m = matching_lines(b@, p, o.invert);
                if o.count {
                    (line_prefix(name@, many) + decimal(m.len()) + seq!['\n'] + rest.0, rest.1)
                } else {
                    (prefixed(m, line_prefix(name@, many)) + rest.0, rest.1)
                }
            },
        }
    }
}

/// The message when the pattern does not compile.
pub open spec fn invalid_pattern_message(pattern: Seq<char>) -> Seq<char> {
    "Invalid pattern \""@ + pattern + seq!['"']
}

/// Appends each of `lines` after `prefix`.
fn push_prefixed(out: &mut String, lines: &Vec<String>, prefix: &str)
    ensures
        final(out)@ == old(out)@ + prefixed(views(lines@), prefix@),
{
    let n = lines.len();
    for i in 0..n
        invariant
            n == lines.len(),
            out@ == old(out)@ + prefixed(views(lines@).take(i as int), prefix@),
    {
        let ghost before = out@;
        out.append(prefix);
        out.append(lines[i].as_str());
        proof {
            let f = |l: Seq<char>| prefix@ + l;
            let t = views(lines@).take(i as int);
            assert(views(lines@).take(i + 1) =~= t.push(lines@[i as int]@));
            assert(t.push(lines@[i as int]@).map_values(f) =~= t.map_values(f).push(f(lines@[i as int]@)));
            t.map_values(f).lemma_flatten_push(f(lines@[i as int]@));
            assert(out@ =~= before + f(lines@[i as int]@));
        }
    }
    assert(views(lines@).take(n as int) =~= views(lines@));
}


proof fn lemma_grep_head(
    inputs: Seq<Result<(String, Source), String>>,
    p: (Seq<char>, bool),
    o: Options,
    many: bool,
)
    requires
        inputs.len() > 0,
    ensures
        ({
            let one = grep_inputs(seq![inputs[0]], p, o, many);
            let rest = grep_inputs(inputs.drop_first(), p, o, many);
            let all = grep_inputs(inputs, p, o, many);
            all.0 == one.0 + rest.0 && all.1 == one.1 + rest.1
        }),
{
    let single = seq![inputs[0]];
    assert(single.drop_first() =~= Seq::<Result<(String, Source), String>>::empty());
    assert(single[0] == inputs[0]);
    let one = grep_inputs(single, p, o, many);
    let e = grep_inputs(single.drop_first(), p, o, many);
    assert(e.0 =~= Seq::<char>::empty() && e.1 =~= Seq::<char>::empty());
    let rest = grep_inputs(inputs.drop_first(), p, o, many);
    let all = grep_inputs(inputs, p, o, many);
    assert(all.0 =~= one.0 + rest.0);
    assert(all.1 =~= one.1 + rest.1);
}

/// Searches one entry.
fn grep_one(
    out: &mut String,
    err: &mut String,
    input: &Result<(String, Source), String>,
    pattern: &Pattern,
    o: &Options,
    many: bool,
)
    ensures
        ({
            let g = grep_inputs(seq![*input], pattern@, *o, many);
            final(out)@ == old(out)@ + g.0 && final(err)@ == old(err)@ + g.1
        }),
{
    let ghost g = grep_inputs(seq![*input], pattern@, *o, many);
    let ghost e = grep_inputs(seq![*input].drop_first(), pattern@, *o, many);
    assert(seq![*input].drop_first() =~= Seq::<Result<(String, Source), String>>::empty());
    assert(e.0 =~= Seq::<char>::empty() && e.1 =~= Seq::<char>::empty());
    assert(seq![*input][0] == *input);
    match input {
        Err(m) => {
            err.append(m.as_str());
            err.push('\n');
        },
        Ok((name, Source::Unavailable(e))) => {
            push_unavailable(err, name.as_str(), e.as_str());
        },
        Ok((_, Source::Unreadable(e))) => {
            err.append(e.as_str());
            err.push('\n');
        },
        Ok((name, Source::Contents(data))) => {
            match find_lines(data.as_slice(), pattern, o.invert) {
                Err(e) => {
                    err.append(e.message().as_str());
                    err.push('\n');
                },
                Ok(matches) => {
                    let mut prefix = String::new();
                    if many {
                        prefix.append(name.as_str());
                        prefix.push(':');
                    }
                    assert(prefix@ =~= line_prefix(name@, many));
                    if o.count {
                        out.append(prefix.as_str());
                        push_decimal(out, matches.len() as u64);
                        out.push('\n');
                        assert(views(matches@).len() == matches@.len());
                    } else {
                        push_prefixed(out, &matches, prefix.as_str());
                    }
                },
            }
        },
    }
    assert(final(out)@ =~= old(out)@ + g.0);
    assert(final(err)@ =~= old(err)@ + g.1);
}

/// Runs `grep` over `inputs`, the entries that `find_files` gave for
/// `options.files`, each with what the file holds.
pub fn run(options: &Options, inputs: &Vec<Result<(String, Source), String>>) -> (r: Report)
    ensures
        !regex_compiles(options.pattern@, options.insensitive) ==> {
            &&& r.out@ == Seq::<char>::empty()
            &&& r.err@ == Seq::<char>::empty()
            &&& r.failure matches Some(m) && m@ == invalid_pattern_message(options.pattern@)
        },
        regex_compiles(options.pattern@, options.insensitive) ==> {
            let g = grep_inputs(inputs@, (options.pattern@, options.insensitive), *options, inputs@.len() > 1);
            &&& r.out@ == g.0
            &&& r.err@ == g.1
            &&& r.failure is None
        },
{
    let pattern = match Pattern::new(options.pattern.as_str(), options.insensitive) {
        Some(p) => p,
        None => {
            let mut m = String::from_str("Invalid pattern \"");
            m.append(options.pattern.as_str());
            m.push('"');
            return Report { out: String::new(), err: String::new(), failure: Some(m) };
        },
    };
    let many = inputs.len() > 1;
    let mut out = String::new();
    let mut err = String::new();
    let n = inputs.len();
    let ghost whole = grep_inputs(inputs@, pattern@, *options, many);
    assert(inputs@.skip(0) =~= inputs@);
    for i in 0..n
        invariant
            n == inputs.len(),
            whole == grep_inputs(inputs@, pattern@, *options, many),
            ({
                let rest = grep_inputs(inputs@.skip(i as int), pattern@, *options, many);
                whole.0 == out@ + rest.0 && whole.1 == err@ + rest.1
            }),
    {
        let ghost rest = inputs@.skip(i as int);
        assert(rest.drop_first() =~= inputs@.skip(i + 1));
        assert(rest[0] == inputs@[i as int]);
        proof {
            lemma_grep_head(rest, pattern@, *options, many);
        }
        grep_one(&mut out, &mut err, &inputs[i], &pattern, options, many);
    }
    assert(inputs@.skip(n as int).len() == 0);
    Report { out, err, failure: None }
}


proof fn lemma_filter_split(s: Seq<Seq<char>>, keep: spec_fn(Seq<char>) -> bool, drop: spec_fn(Seq<char>) -> bool)
    requires
        forall|l: Seq<char>| #[trigger] keep(l) == !drop(l),
    ensures
        s.filter(keep).len() + s.filter(drop).len() == s.len(),
    decreases s.len(),
{
    if s.len() > 0 {
        reveal_with_fuel(Seq::filter, 1);
        lemma_filter_split(s.drop_last(), keep, drop);
    }
}

/// A search and the same search inverted share out the lines of an input
/// between them: the inverted search keeps exactly the lines the plain
/// search does not, in order, and the numbers of lines the two keep add up
/// to the number of lines read.
pub proof fn inverted_search_complements(b: Seq<u8>, p: (Seq<char>, bool))
    ensures
        matching_lines(b, p, true) == readable_lines(b).filter(|l: Seq<char>| !selected(p, l, false)),
        matching_lines(b, p, false).len() + matching_lines(b, p, true).len()
            == readable_lines(b).len(),
{
    assert((|l: Seq<char>| selected(p, l, true)) =~= (|l: Seq<char>| !selected(p, l, false)));
    lemma_filter_split(
        readable_lines(b),
        |l: Seq<char>| selected(p, l, false),
        |l: Seq<char>| selected(p, l, true),
    );
}

/// With several inputs every kept line is printed after the file's name
/// and a colon: the printed text of no lines is empty, and that of a line
/// followed by more lines is the prefix, the line, then the text of the
/// rest, so each line gets a prefix of its own.
pub proof fn every_kept_line_is_prefixed(l: Seq<char>, rest: Seq<Seq<char>>, p: Seq<char>)
    ensures
        prefixed(Seq::<Seq<char>>::empty(), p) == Seq::<char>::empty(),
        prefixed(seq![l] + rest, p) == p + l + prefixed(rest, p),
{
    let f = |x: Seq<char>| p + x;
    assert(Seq::<Seq<char>>::empty().map_values(f) =~= Seq::<Seq<char>>::empty());
    let m = (seq![l] + rest).map_values(f);
    assert(m.drop_first() =~= rest.map_values(f));
    assert(m.first() == p + l);
    assert(p + l + prefixed(rest, p) =~= m.first() + m.drop_first().flatten());
}

} // verus!
