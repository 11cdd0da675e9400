//! `fortune`: reads `%`-separated fortunes and picks one, or lists those that
//! match a pattern.
use vstd::prelude::*;
use rand::seq::IndexedRandom;
use rand::SeedableRng;
use itertools::Itertools;
use crate::input::{Report, Source};
use crate::pattern::{regex_compiles, regex_matches, Pattern};
use crate::text::{read_fails, read_trimmed, trimmed_lines, LineReader, ReadError};

verus! {

/// The settings of one run.
pub struct Options {
    pub sources: Vec<String>,
    pub pattern: Option<String>,
    pub insensitive: bool,
    pub seed: Option<u64>,
}

/// One fortune and the base name of the file it came from.
#[derive(Debug)]
pub struct Fortune {
    pub source: String,
    pub text: String,
}

impl View for Fortune {
    type V = (Seq<char>, Seq<char>);

    open spec fn view(&self) -> (Seq<char>, Seq<char>) {
        (self.source@, self.text@)
    }
}

/// The source and text of each fortune.
pub open spec fn fortune_views(v: Seq<Fortune>) -> Seq<(Seq<char>, Seq<char>)> {
    v.map_values(|f: Fortune| f@)
}

/// The line that ends a fortune.
pub open spec fn is_separator(line: Seq<char>) -> bool {
    line == seq!['%']
}

/// Reads `lines` of the file `source`, where `buffer` holds the lines of the
/// fortune begun so far: the fortunes completed, and the buffer at the end.
/// A `%` line completes the fortune in the buffer unless it is empty; any
/// other line is added to the buffer, after a newline unless the buffer is
/// empty.
pub open spec fn parse_lines(lines: Seq<Seq<char>>, source: Seq<char>, buffer: Seq<char>) -> (
    Seq<(Seq<char>, Seq<char>)>,
    Seq<char>,
)
    decreases lines.len(),
{
    if lines.len() == 0 {
        (seq![], buffer)
    } else if is_separator(lines[0]) {
        if buffer.len() > 0 {
            let r = parse_lines(lines.drop_first(), source, seq![]);
            (seq![(source, buffer)] + r.0, r.1)
        } else {
            parse_lines(lines.drop_first(), source, buffer)
        }
    } else {
        let b = if buffer.len() > 0 {
            buffer + seq!['\n'] + lines[0]
        } else {
            buffer + lines[0]
        };
        parse_lines(lines.drop_first(), source, b)
    }
}

/// The fortunes of `files`, each a base name and what the file holds, where
/// `buffer` holds the fortune begun in earlier files; `None` where a file
/// cannot be opened or read, or holds a line that is not UTF-8.
pub open spec fn parse_files(files: Seq<(String, Source)>, buffer: Seq<char>) -> Option<
    Seq<(Seq<char>, Seq<char>)>,
>
    decreases files.len(),
{
    if files.len() == 0 {
        Some(seq![])
    } else {
        match files[0].1 {
            Source::Unavailable(_) => None,
            Source::Unreadable(_) => None,
            Source::Contents(b) => if read_fails(b@) {
                None
            } else {
                let r = parse_lines(trimmed_lines(b@), files[0].0@, buffer);
                match parse_files(files.drop_first(), r.1) {
                    Some(rest) => Some(r.0 + rest),
                    None => None,
                }
            },
        }
    }
}

/// The error that `parse_files` stops at: the message of the first file that
/// cannot be opened or read, or the message of a line that is not UTF-8.
pub open spec fn parse_error(files: Seq<(String, Source)>) -> Seq<char>
    decreases files.len(),
{
    if files.len() == 0 {
        seq![]
    } else {
        match files[0].1 {
            Source::Unavailable(m) => m@,
            Source::Unreadable(m) => m@,
            Source::Contents(b) => if read_fails(b@) {
                "stream did not contain valid UTF-8"@
            } else {
                parse_error(files.drop_first())
            },
        }
    }
}

/// Reads the fortunes of one file onto `fortunes`.
fn read_file_fortunes(
    fortunes: &mut Vec<Fortune>,
    buffer: &mut String,
    source: &String,
    data: &Vec<u8>,
) -> (ok: bool)
    ensures
        ok == !read_fails(data@),
        ok ==> {
            let r = parse_lines(trimmed_lines(data@), source@, old(buffer)@);
            &&& fortune_views(final(fortunes)@) == fortune_views(old(fortunes)@) + r.0
            &&& final(buffer)@ == r.1
        },
{
    let mut reader = LineReader::new(data.clone());
    let ghost whole = parse_lines(trimmed_lines(data@), source@, old(buffer)@);
    loop
        invariant
            whole == parse_lines(trimmed_lines(data@), source@, old(buffer)@),
            read_fails(data@) == read_fails(reader@),
            ({
                let r = parse_lines(trimmed_lines(reader@), source@, buffer@);
                &&& fortune_views(old(fortunes)@) + whole.0 == fortune_views(fortunes@) + r.0
                &&& whole.1 == r.1
            }),
        decreases reader@.len(),
    {
        let ghost lines = trimmed_lines(reader@);
        let ghost before = fortunes@;
        match read_trimmed(&mut reader) {
            Ok(Some(line)) => {
                let ghost buf0 = buffer@;
                let ghost rest = trimmed_lines(reader@);
                assert(lines[0] == line@);
                assert(lines.drop_first() == rest);
                if line.as_str().unicode_len() == 1 && line.as_str().get_char(0) == '%' {
                    assert(is_separator(line@)) by {
                        assert(line@ =~= seq!['%']);
                    }
                    if buffer.as_str().unicode_len() > 0 {
                        let text = buffer.clone();
                        fortunes.push(Fortune { source: source.clone(), text });
                        assert(fortune_views(fortunes@) =~= fortune_views(before).push((source@, buf0)));
                        *buffer = String::new();
                        let ghost r = parse_lines(rest, source@, seq![]);
                        assert(parse_lines(lines, source@, buf0) == (seq![(source@, buf0)] + r.0, r.1));
                        assert(fortune_views(before) + (seq![(source@, buf0)] + r.0) =~= fortune_views(fortunes@) + r.0);
                        assert(buffer@ =~= Seq::<char>::empty());
                    } else {
                        assert(parse_lines(lines, source@, buf0) == parse_lines(rest, source@, buf0));
                    }
                } else {
                    assert(!is_separator(line@));
                    if buffer.as_str().unicode_len() > 0 {
                        buffer.push('\n');
                    }
                    buffer.append(line.as_str());
                    assert(buffer@ =~= if buf0.len() > 0 {
                        buf0 + seq!['\n'] + line@
                    } else {
                        buf0 + line@
                    });
                    assert(parse_lines(lines, source@, buf0) == parse_lines(rest, source@, buffer@));
                }
            },
            Ok(None) => {
                assert(fortune_views(fortunes@) =~= fortune_views(old(fortunes)@) + whole.0);
                return true;
            },
            Err(_) => {
                return false;
            },
        }
    }
}

/// Reads the fortunes of `files`, each a base name and what the file holds.
/// A fortune that a file leaves unfinished goes on in the next file; one that
/// the last file leaves unfinished is dropped.
pub fn read_fortunes(files: &Vec<(String, Source)>) -> (r: Result<Vec<Fortune>, String>)
    ensures
        match parse_files(files@, seq![]) {
            Some(f) => r matches Ok(v) && fortune_views(v@) == f,
            None => r matches Err(m) && m@ == parse_error(files@),
        },
{
    let mut fortunes: Vec<Fortune> = Vec::new();
    let mut buffer = String::new();
    let n = files.len();
    assert(files@.skip(0) =~= files@);
    for i in 0..n
        invariant
            n == files.len(),
            parse_error(files@) == parse_error(files@.skip(i as int)),
            match parse_files(files@, seq![]) {
                Some(f) => parse_files(files@.skip(i as int), buffer@) matches Some(rest) && f
                    == fortune_views(fortunes@) + rest,
                None => parse_files(files@.skip(i as int), buffer@) is None,
            },
    {
        let ghost rest = files@.skip(i as int);
        assert(rest.drop_first() =~= files@.skip(i + 1));
        assert(rest[0] == files@[i as int]);
        let ghost before = fortunes@;
        let ghost buf = buffer@;
        match &files[i].1 {
            Source::Unavailable(m) => {
                return Err(m.clone());
            },
            Source::Unreadable(m) => {
                return Err(m.clone());
            },
            Source::Contents(data) => {
                if !read_file_fortunes(&mut fortunes, &mut buffer, &files[i].0, data) {
                    return Err(ReadError::InvalidUtf8.message());
                }
                assert(fortune_views(before) + parse_lines(trimmed_lines(data@), files@[i as int].0@, buf).0
                    == fortune_views(fortunes@));
            },
        }
        proof {
            match parse_files(files@, seq![]) {
                Some(f) => {
                    let r1 = parse_lines(trimmed_lines(data_of(rest[0].1)), rest[0].0@, buf);
                    assert(parse_files(rest, buf) == match parse_files(rest.drop_first(), r1.1) {
                        Some(x) => Some(r1.0 + x),
                        None => None::<Seq<(Seq<char>, Seq<char>)>>,
                    });
                    let x = parse_files(rest.drop_first(), r1.1)->Some_0;
                    assert(f =~= fortune_views(fortunes@) + x);
                },
                None => {},
            }
        }
    }
    assert(files@.skip(n as int).len() == 0);
    Ok(fortunes)
}

/// The bytes of an available input.
pub open spec fn data_of(s: Source) -> Seq<u8> {
    match s {
        Source::Contents(b) => b@,
        Source::Unavailable(_) => seq![],
        Source::Unreadable(_) => seq![],
    }
}


/// The index that `slice::choose` picks among `len` items with the
/// generator `StdRng::seed_from_u64(seed)` of the `rand` version this crate
/// is built with (the one `Cargo.lock` fixes). `rand` documents that
/// `StdRng`'s output may change between its versions, so the name stands for
/// that version's generator: within it the pick depends on the seed and the
/// length alone, the same on 32-bit and 64-bit targets.
pub uninterp spec fn seeded_index(seed: u64, len: usize) -> usize;

/// `IndexedRandom::choose` on `texts` with a `StdRng` seeded from `seed`, or
/// from the thread's generator when there is no seed: `None` for no texts,
/// else one of them. With a seed the pick is named: the text at
/// `seeded_index(seed, len)`, which the documentation's "uniformly sampled
/// element" places within the slice. Without one it rests on chance, and only
/// that it is one of the texts is stated.
#[verifier::external_body]
fn choose_text(texts: &Vec<String>, seed: Option<u64>) -> (r: Option<String>)
    ensures
        r is Some <==> texts.len() > 0,
        r matches Some(t) ==> exists|i: int| 0 <= i < texts.len() && t@ == #[trigger] texts@[i]@,
        r matches Some(t) ==> (seed matches Some(s) ==> seeded_index(s, texts.len()) < texts.len()
            && t@ == texts@[seeded_index(s, texts.len()) as int]@),
{
    let mut rng = match seed {
        Some(s) => rand::rngs::StdRng::seed_from_u64(s),
        None => rand::rngs::StdRng::from_rng(&mut rand::rng()),
    };
    texts.choose(&mut rng).cloned()
}

/// Picks a fortune's text at random, reproducibly when a seed is given;
/// `None` when there is no fortune.
pub fn pick_fortune(fortunes: &Vec<Fortune>, seed: Option<u64>) -> (r: Option<String>)
    ensures
        r is Some <==> fortunes.len() > 0,
        r matches Some(t) ==> exists|i: int| 0 <= i < fortunes.len() && t@ == #[trigger] fortunes@[i].text@,
        r matches Some(t) ==> (seed matches Some(s) ==> seeded_index(s, fortunes.len())
            < fortunes.len() && t@ == fortunes@[seeded_index(s, fortunes.len()) as int].text@),
{
    let mut texts: Vec<String> = Vec::new();
    let n = fortunes.len();
    for i in 0..n
        invariant
            n == fortunes.len(),
            texts.len() == i,
            forall|j: int| 0 <= j < i ==> #[trigger] texts@[j]@ == fortunes@[j].text@,
    {
        texts.push(fortunes[i].text.clone());
    }
    let r = choose_text(&texts, seed);
    proof {
        if r is Some {
            let t = r->Some_0;
            let i = choose|i: int| 0 <= i < texts.len() && t@ == #[trigger] texts@[i]@;
            assert(t@ == fortunes@[i].text@);
        }
    }
    r
}

/// The runs of consecutive `items` with the same source, as
/// `Itertools::chunk_by` forms them: each run's source and its texts.
pub open spec fn chunks(items: Seq<(Seq<char>, Seq<char>)>) -> Seq<(Seq<char>, Seq<Seq<char>>)>
    decreases items.len(),
{
    if items.len() == 0 {
        seq![]
    } else {
        let rest = chunks(items.drop_first());
        if rest.len() > 0 && rest[0].0 == items[0].0 {
            seq![(items[0].0, seq![items[0].1] + rest[0].1)] + rest.drop_first()
        } else {
            seq![(items[0].0, seq![items[0].1])] + rest
        }
    }
}

/// The characters of each run.
pub open spec fn chunk_views(v: Seq<(String, Vec<String>)>) -> Seq<(Seq<char>, Seq<Seq<char>>)> {
    v.map_values(|c: (String, Vec<String>)| (c.0@, c.1@.map_values(|s: String| s@)))
}

/// `Itertools::chunk_by` on `items`, keyed by the source: the crate's
/// documentation says that consecutive elements with the same key form one
/// chunk, which `chunks` states.
#[verifier::external_body]
fn chunk_by_source(items: &Vec<Fortune>) -> (r: Vec<(String, Vec<String>)>)
    ensures
        chunk_views(r@) == chunks(fortune_views(items@)),
{
    let mut r = Vec::new();
    for (source, group) in &items.iter().chunk_by(|f| &f.source) {
        r.push((source.clone(), group.map(|f| f.text.clone()).collect()));
    }
    r
}

/// Each text followed by a `%` line.
pub open spec fn texts_out(texts: Seq<Seq<char>>) -> Seq<char> {
    texts.map_values(|t: Seq<char>| t + seq!['\n', '%', '\n']).flatten()
}

/// What `fortune` prints for the runs of matching fortunes: each text after
/// a `%` line, and on standard error each run's source in brackets, then `%`.
pub open spec fn listing(groups: Seq<(Seq<char>, Seq<Seq<char>>)>) -> (Seq<char>, Seq<char>)
    decreases groups.len(),
{
    if groups.len() == 0 {
        (seq![], seq![])
    } else {
        let rest = listing(groups.drop_first());
        (
            texts_out(groups[0].1) + rest.0,
            seq!['('] + groups[0].0 + seq![')', '\n', '%', '\n'] + rest.1,
        )
    }
}

/// The fortunes whose text `p` matches.
pub open spec fn matching(fortunes: Seq<(Seq<char>, Seq<char>)>, p: (Seq<char>, bool)) -> Seq<(Seq<char>, Seq<char>)> {
    fortunes.filter(|f: (Seq<char>, Seq<char>)| regex_matches(p.0, p.1, f.1))
}

/// The message when the pattern does not compile.
pub open spec fn invalid_pattern_message(pattern: Seq<char>) -> Seq<char> {
    "Invalid --pattern \""@ + pattern + seq!['"']
}

/// The message when there is no fortune to pick.
pub open spec fn no_fortunes_message() -> Seq<char> {
    "No fortunes found"@
}


/// The fortunes whose text `pattern` matches, in order.
fn filter_matching(fortunes: &Vec<Fortune>, pattern: &Pattern) -> (r: Vec<Fortune>)
    ensures
        fortune_views(r@) == matching(fortune_views(fortunes@), pattern@),
{
    let mut r: Vec<Fortune> = Vec::new();
    let n = fortunes.len();
    let ghost keep = |f: (Seq<char>, Seq<char>)| regex_matches(pattern@.0, pattern@.1, f.1);
    for i in 0..n
        invariant
            n == fortunes.len(),
            keep == (|f: (Seq<char>, Seq<char>)| regex_matches(pattern@.0, pattern@.1, f.1)),
            fortune_views(r@) == fortune_views(fortunes@).take(i as int).filter(keep),
    {
        let ghost done = fortune_views(fortunes@).take(i as int);
        let ghost x = fortunes@[i as int]@;
        proof {
            assert(fortune_views(fortunes@).take(i + 1) =~= done.push(x));
            assert(done.push(x).filter(keep) == if keep(x) {
                done.filter(keep).push(x)
            } else {
                done.filter(keep)
            }) by {
                reveal_with_fuel(Seq::filter, 1);
                assert(done.push(x).drop_last() =~= done);
            }
        }
        let ghost before = r@;
        if pattern.is_match(fortunes[i].text.as_str()) {
            r.push(Fortune { source: fortunes[i].source.clone(), text: fortunes[i].text.clone() });
            assert(fortune_views(r@) =~= fortune_views(before).push(x));
        }
    }
    assert(fortune_views(fortunes@).take(n as int) =~= fortune_views(fortunes@));
    r
}

/// Appends each text followed by a `%` line.
fn push_texts(out: &mut String, texts: &Vec<String>)
    ensures
        final(out)@ == old(out)@ + texts_out(texts@.map_values(|s: String| s@)),
{
    let n = texts.len();
    let ghost all = texts@.map_values(|s: String| s@);
    let ghost f = |t: Seq<char>| t + seq!['\n', '%', '\n'];
    for i in 0..n
        invariant
            n == texts.len(),
            all == texts@.map_values(|s: String| s@),
            f == (|t: Seq<char>| t + seq!['\n', '%', '\n']),
            out@ == old(out)@ + all.take(i as int).map_values(f).flatten(),
    {
        let ghost before = out@;
        out.append(texts[i].as_str());
        out.push('\n');
        out.push('%');
        out.push('\n');
        proof {
            let t = all.take(i as int);
            assert(all.take(i + 1) =~= t.push(texts@[i as int]@));
            assert(t.push(texts@[i as int]@).map_values(f) =~= t.map_values(f).push(f(texts@[i as int]@)));
            t.map_values(f).lemma_flatten_push(f(texts@[i as int]@));
            assert(out@ =~= before + f(texts@[i as int]@));
        }
    }
    assert(all.take(n as int) =~= all);
}

/// Prints the runs of matching fortunes.
fn print_groups(out: &mut String, err: &mut String, groups: &Vec<(String, Vec<String>)>)
    ensures
        final(out)@ == old(out)@ + listing(chunk_views(groups@)).0,
        final(err)@ == old(err)@ + listing(chunk_views(groups@)).1,
{
    let n = groups.len();
    let ghost all = chunk_views(groups@);
    assert(all.skip(0) =~= all);
    for i in 0..n
        invariant
            n == groups.len(),
            all == chunk_views(groups@),
            old(out)@ + listing(all).0 == out@ + listing(all.skip(i as int)).0,
            old(err)@ + listing(all).1 == err@ + listing(all.skip(i as int)).1,
    {
        assert(all.skip(i as int).drop_first() =~= all.skip(i + 1));
        assert(all.skip(i as int)[0] == all[i as int]);
        let ghost e0 = err@;
        err.push('(');
        err.append(groups[i].0.as_str());
        err.push(')');
        err.push('\n');
        err.push('%');
        err.push('\n');
        assert(err@ =~= e0 + (seq!['('] + all[i as int].0 + seq![')', '\n', '%', '\n']));
        push_texts(out, &groups[i].1);
    }
    assert(all.skip(n as int).len() == 0);
    assert(listing(all.skip(n as int)).0 =~= Seq::<char>::empty());
}

/// Runs `fortune` over `files`, the base names and contents of the files
/// found under `options.sources`, or the error met finding them.
pub fn run(options: &Options, files: &Result<Vec<(String, Source)>, String>) -> (r: Report)
    ensures
        options.pattern matches Some(p) ==> (!regex_compiles(p@, options.insensitive) ==> {
            &&& r.out@ == Seq::<char>::empty()
            &&& r.err@ == Seq::<char>::empty()
            &&& r.failure matches Some(m) && m@ == invalid_pattern_message(p@)
        }),
        (options.pattern matches Some(p) ==> regex_compiles(p@, options.insensitive)) ==> match *files {
            Err(m) => r.out@ == Seq::<char>::empty() && r.err@ == Seq::<char>::empty() && (
            r.failure matches Some(f) && f@ == m@),
            Ok(fs) => match parse_files(fs@, seq![]) {
                None => r.out@ == Seq::<char>::empty() && r.err@ == Seq::<char>::empty() && (
                r.failure matches Some(f) && f@ == parse_error(fs@)),
                Some(fortunes) => {
                    &&& r.failure is None
                    &&& match options.pattern {
                        Some(p) => {
                            let l = listing(chunks(matching(fortunes, (p@, options.insensitive))));
                            r.out@ == l.0 && r.err@ == l.1
                        },
                        None => {
                            &&& r.err@ == Seq::<char>::empty()
                            &&& fortunes.len() == 0 ==> r.out@ == no_fortunes_message() + seq!['\n']
                            &&& fortunes.len() > 0 ==> exists|i: int|
                                0 <= i < fortunes.len() && r.out@ == #[trigger] fortunes[i].1 + seq!['\n']
                            &&& fortunes.len() > 0 && options.seed is Some ==> r.out@
                                == fortunes[seeded_index(options.seed->0, fortunes.len() as usize) as int].1
                                + seq!['\n']
                        },
                    }
                },
            },
        },
{
    let pattern = match &options.pattern {
        Some(p) => match Pattern::new(p.as_str(), options.insensitive) {
            Some(c) => Some(c),
            None => {
                let mut m = String::from_str("Invalid --pattern \"");
                m.append(p.as_str());
                m.push('"');
                return Report { out: String::new(), err: String::new(), failure: Some(m) };
            },
        },
        None => None,
    };
    let files = match files {
        Ok(fs) => fs,
        Err(m) => {
            return Report { out: String::new(), err: String::new(), failure: Some(m.clone()) };
        },
    };
    let fortunes = match read_fortunes(files) {
        Ok(f) => f,
        Err(m) => {
            return Report { out: String::new(), err: String::new(), failure: Some(m) };
        },
    };
    let mut out = String::new();
    let mut err = String::new();
    match pattern {
        None => {
            match pick_fortune(&fortunes, options.seed) {
                Some(t) => {
                    out.append(t.as_str());
                    out.push('\n');
                    proof {
                        let i = choose|i: int| 0 <= i < fortunes.len() && t@ == #[trigger] fortunes@[i].text@;
                        assert(fortune_views(fortunes@)[i] == fortunes@[i]@);
                        assert(out@ =~= fortune_views(fortunes@)[i].1 + seq!['\n']);
                        if options.seed is Some {
                            let k = seeded_index(options.seed->0, fortunes.len());
                            assert(fortune_views(fortunes@)[k as int] == fortunes@[k as int]@);
                        }
                    }
                },
                None => {
                    out.append("No fortunes found");
                    out.push('\n');
                },
            }
        },
        Some(p) => {
            let matched = filter_matching(&fortunes, &p);
            let groups = chunk_by_source(&matched);
            print_groups(&mut out, &mut err, &groups);
        },
    }
    Report { out, err, failure: None }
}

/// The texts of `items`, in order.
pub open spec fn item_texts(items: Seq<(Seq<char>, Seq<char>)>) -> Seq<Seq<char>> {
    items.map_values(|f: (Seq<char>, Seq<char>)| f.1)
}

proof fn lemma_texts_out_prepend(t: Seq<char>, rest: Seq<Seq<char>>)
    ensures
        texts_out(seq![t] + rest) == t + seq!['\n', '%', '\n'] + texts_out(rest),
{
    let f = |t: Seq<char>| t + seq!['\n', '%', '\n'];
    assert((seq![t] + rest).map_values(f) =~= seq![f(t)] + rest.map_values(f));
    vstd::seq_lib::lemma_flatten_concat(seq![f(t)], rest.map_values(f));
    seq![f(t)].lemma_flatten_singleton();
}

proof fn lemma_listing_prepend(g: (Seq<char>, Seq<Seq<char>>), rest: Seq<(Seq<char>, Seq<Seq<char>>)>)
    ensures
        listing(seq![g] + rest).0 == texts_out(g.1) + listing(rest).0,
{
    assert((seq![g] + rest).drop_first() =~= rest);
    assert((seq![g] + rest)[0] == g);
}

/// Grouping the matching fortunes by source loses, repeats and reorders
/// none of them: what `fortune` prints for the groups is each text in turn,
/// each followed by a `%` line.
pub proof fn grouping_prints_every_text_once(items: Seq<(Seq<char>, Seq<char>)>)
    ensures
        listing(chunks(items)).0 == texts_out(item_texts(items)),
    decreases items.len(),
{
    if items.len() == 0 {
        assert(item_texts(items) =~= Seq::<Seq<char>>::empty());
        assert(texts_out(item_texts(items)) =~= Seq::<char>::empty());
    } else {
        let tail = items.drop_first();
        let rest = chunks(tail);
        grouping_prints_every_text_once(tail);
        assert(item_texts(items) =~= seq![items[0].1] + item_texts(tail));
        lemma_texts_out_prepend(items[0].1, item_texts(tail));
        if rest.len() > 0 && rest[0].0 == items[0].0 {
            lemma_listing_prepend((items[0].0, seq![items[0].1] + rest[0].1), rest.drop_first());
            lemma_texts_out_prepend(items[0].1, rest[0].1);
            assert(rest =~= seq![rest[0]] + rest.drop_first());
            lemma_listing_prepend(rest[0], rest.drop_first());
        } else {
            lemma_listing_prepend((items[0].0, seq![items[0].1]), rest);
            lemma_texts_out_prepend(items[0].1, seq![]);
            assert(seq![items[0].1] + Seq::<Seq<char>>::empty() =~= seq![items[0].1]);
            assert(texts_out(Seq::<Seq<char>>::empty()) =~= Seq::<char>::empty());
        }
    }
}

/// One component of a path, as `Path::components` yields it on Unix.
pub enum PathPart {
    RootDir,
    CurDir,
    ParentDir,
    /// A name, as its bytes.
    Normal(Vec<u8>),
}

/// A file met while walking the fortune sources: the components of its path
/// and whether it is a regular file.
pub struct WalkedFile {
    pub parts: Vec<PathPart>,
    pub is_file: bool,
}

/// A byte of a name in a key: one more than its value, so that the zero
/// ending a name sorts before any byte.
pub open spec fn byte_code(b: u8) -> u32 {
    (b + 1) as u32
}

/// The key of one component: its kind (root, `.`, `..`, name, in that
/// order), then for a name each byte plus one, then a zero that ends the
/// component and sorts before any byte.
pub open spec fn part_key(p: PathPart) -> Seq<u32> {
    match p {
        PathPart::RootDir => seq![1u32, 0u32],
        PathPart::CurDir => seq![2u32, 0u32],
        PathPart::ParentDir => seq![3u32, 0u32],
        PathPart::Normal(name) => seq![4u32] + name@.map_values(|b: u8| byte_code(b)) + seq![0u32],
    }
}

/// The key of a path: the keys of its components one after the other.
/// Comparing keys orders paths as `Path` does (`path_keys_order_as_paths`).
pub open spec fn path_key(parts: Seq<PathPart>) -> Seq<u32>
    decreases parts.len(),
{
    if parts.len() == 0 {
        seq![]
    } else {
        part_key(parts[0]) + path_key(parts.drop_first())
    }
}

/// Whether `a` comes before `b` in lexicographic order.
pub open spec fn key_less(a: Seq<u32>, b: Seq<u32>) -> bool
    decreases a.len(),
{
    if a.len() == 0 {
        b.len() > 0
    } else if b.len() == 0 {
        false
    } else if a[0] < b[0] {
        true
    } else if a[0] > b[0] {
        false
    } else {
        key_less(a.drop_first(), b.drop_first())
    }
}

/// Lexicographic order is a strict total order.
pub proof fn lemma_key_order(a: Seq<u32>, b: Seq<u32>, c: Seq<u32>)
    ensures
        !key_less(a, a),
        key_less(a, b) ==> !key_less(b, a),
        key_less(a, b) && key_less(b, c) ==> key_less(a, c),
        a != b ==> key_less(a, b) || key_less(b, a),
    decreases a.len(),
{
    if a.len() > 0 && b.len() > 0 && c.len() > 0 {
        lemma_key_order(a.drop_first(), b.drop_first(), c.drop_first());
    } else if a.len() > 0 && b.len() > 0 {
        lemma_key_order(a.drop_first(), b.drop_first(), b.drop_first());
    } else if a.len() > 0 {
        lemma_key_order(a.drop_first(), a.drop_first(), a.drop_first());
    }
    if a.len() > 0 && b.len() > 0 && a[0] == b[0] && a.drop_first() == b.drop_first() {
        assert(a =~= seq![a[0]] + a.drop_first());
        assert(b =~= seq![b[0]] + b.drop_first());
    }
    if a.len() == 0 && b.len() == 0 {
        assert(a =~= b);
    }
}

/// The name a path ends in, if it ends in a name.
pub open spec fn file_name(parts: Seq<PathPart>) -> Option<Seq<u8>> {
    if parts.len() == 0 {
        None
    } else {
        match parts.last() {
            PathPart::Normal(n) => Some(n@),
            _ => None,
        }
    }
}

/// Whether a path's extension, as `Path::extension` finds it, is `dat`: its
/// name ends in `.dat` after at least one byte.
pub open spec fn has_dat_extension(parts: Seq<PathPart>) -> bool {
    match file_name(parts) {
        Some(n) => n.len() > 4 && n.subrange(n.len() - 4, n.len() as int) == seq![46u8, 100u8, 97u8, 116u8],
        None => false,
    }
}

/// Whether `fortune` reads a walked file: a regular file that is not a
/// `.dat` index.
pub open spec fn is_fortune_file(w: WalkedFile) -> bool {
    w.is_file && !has_dat_extension(w.parts@)
}

/// Appends the key of `p`.
fn push_part_key(key: &mut Vec<u32>, p: &PathPart)
    ensures
        final(key)@ == old(key)@ + part_key(*p),
{
    match p {
        PathPart::RootDir => {
            key.push(1);
            key.push(0);
        },
        PathPart::CurDir => {
            key.push(2);
            key.push(0);
        },
        PathPart::ParentDir => {
            key.push(3);
            key.push(0);
        },
        PathPart::Normal(name) => {
            key.push(4);
            let ghost start = key@;
            let ghost f = |b: u8| byte_code(b);
            let n = name.len();
            for i in 0..n
                invariant
                    n == name.len(),
                    f == (|b: u8| byte_code(b)),
                    key@ == start + name@.take(i as int).map_values(f),
            {
                key.push(name[i] as u32 + 1);
                assert(name@.take(i + 1).map_values(f) =~= name@.take(i as int).map_values(f).push(
                    f(name@[i as int]),
                ));
            }
            assert(name@.take(n as int) =~= name@);
            key.push(0);
        },
    }
    assert(final(key)@ =~= old(key)@ + part_key(*p));
}

/// The key of the path with components `parts`.
fn key_of(parts: &Vec<PathPart>) -> (r: Vec<u32>)
    ensures
        r@ == path_key(parts@),
{
    let mut key: Vec<u32> = Vec::new();
    let n = parts.len();
    assert(parts@.skip(0) =~= parts@);
    for i in 0..n
        invariant
            n == parts.len(),
            path_key(parts@) == key@ + path_key(parts@.skip(i as int)),
    {
        assert(parts@.skip(i as int).drop_first() =~= parts@.skip(i + 1));
        assert(parts@.skip(i as int)[0] == parts@[i as int]);
        let ghost before = key@;
        push_part_key(&mut key, &parts[i]);
        assert(before + part_key(parts@[i as int]) + path_key(parts@.skip(i + 1)) =~= before + (
        part_key(parts@[i as int]) + path_key(parts@.skip(i + 1))));
    }
    assert(parts@.skip(n as int).len() == 0);
    assert(key@ + path_key(parts@.skip(n as int)) =~= key@);
    key
}

/// Whether `a` comes before `b`.
fn less_keys(a: &Vec<u32>, b: &Vec<u32>) -> (r: bool)
    ensures
        r == key_less(a@, b@),
{
    let mut i: usize = 0;
    assert(a@.skip(0) =~= a@);
    assert(b@.skip(0) =~= b@);
    while i < a.len() && i < b.len()
        invariant
            i <= a.len(),
            i <= b.len(),
            key_less(a@, b@) == key_less(a@.skip(i as int), b@.skip(i as int)),
        decreases a.len() - i,
    {
        if a[i] < b[i] {
            return true;
        }
        if a[i] > b[i] {
            return false;
        }
        assert(a@.skip(i as int).drop_first() =~= a@.skip(i + 1));
        assert(b@.skip(i as int).drop_first() =~= b@.skip(i + 1));
        i += 1;
    }
    i == a.len() && i < b.len()
}

/// Whether `fortune` reads `w`.
fn fortune_file(w: &WalkedFile) -> (r: bool)
    ensures
        r == is_fortune_file(*w),
{
    if !w.is_file {
        return false;
    }
    let n = w.parts.len();
    if n == 0 {
        return true;
    }
    match &w.parts[n - 1] {
        PathPart::Normal(name) => {
            let k = name.len();
            if k > 4 && name[k - 4] == 46 && name[k - 3] == 100 && name[k - 2] == 97 && name[k - 1] == 116 {
                assert(name@.subrange(k - 4, k as int) =~= seq![46u8, 100u8, 97u8, 116u8]);
                false
            } else {
                proof {
                    if k > 4 {
                        let s = name@.subrange(k - 4, k as int);
                        if s == seq![46u8, 100u8, 97u8, 116u8] {
                            assert(s[0] == name@[k - 4]);
                            assert(s[1] == name@[k - 3]);
                            assert(s[2] == name@[k - 2]);
                            assert(s[3] == name@[k - 1]);
                        }
                    }
                }
                true
            }
        },
        _ => true,
    }
}

/// Inserting an index whose key falls strictly between its neighbours keeps
/// the keys in strictly increasing order.
proof fn lemma_insert_sorted(ks: Seq<Seq<u32>>, r: Seq<usize>, j: int, i: usize)
    requires
        0 <= j <= r.len(),
        i < ks.len(),
        forall|a: int| 0 <= a < r.len() ==> r[a] < ks.len(),
        forall|a: int, b: int|
            #![trigger r[a], r[b]]
            0 <= a < b < r.len() ==> key_less(ks[r[a] as int], ks[r[b] as int]),
        forall|a: int| 0 <= a < j ==> key_less(ks[#[trigger] r[a] as int], ks[i as int]),
        j < r.len() ==> key_less(ks[i as int], ks[r[j] as int]),
    ensures
        forall|a: int, b: int|
            #![trigger r.insert(j, i)[a], r.insert(j, i)[b]]
            0 <= a < b < r.len() + 1 ==> key_less(ks[r.insert(j, i)[a] as int], ks[r.insert(j, i)[b] as int]),
{
    r.insert_ensures(j, i);
    let ns = r.insert(j, i);
    assert forall|a: int, b: int|
        #![trigger ns[a], ns[b]]
        0 <= a < b < r.len() + 1 implies key_less(ks[ns[a] as int], ks[ns[b] as int]) by {
        if b < j {
            assert(ns[a] == r[a] && ns[b] == r[b]);
        } else if b == j {
            assert(ns[a] == r[a]);
        } else {
            assert(ns[b] == r[b - 1]);
            if a < j {
                assert(ns[a] == r[a]);
            } else if a == j {
                if b - 1 > j {
                    assert(key_less(ks[r[j] as int], ks[r[b - 1] as int]));
                    lemma_key_order(ks[i as int], ks[r[j] as int], ks[r[b - 1] as int]);
                }
            } else {
                assert(ns[a] == r[a - 1]);
            }
        }
    }
}

/// The files among `walked` that `fortune` reads, each once and in path
/// order: the regular files that are not `.dat` indexes, sorted as paths
/// and with repeated paths dropped. Returns their indices in `walked`.
#[verifier::rlimit(40)]
pub fn select_files(walked: &Vec<WalkedFile>) -> (r: Vec<usize>)
    ensures
        forall|j: int| 0 <= j < r.len() ==> #[trigger] r[j] < walked.len() && is_fortune_file(walked@[r[j] as int]),
        forall|j: int, k: int|
            #![trigger r[j], r[k]]
            0 <= j < k < r.len() ==> parts_less(walked@[r[j] as int].parts@, walked@[r[k] as int].parts@),
        forall|i: int|
            0 <= i < walked.len() && is_fortune_file(#[trigger] walked@[i]) ==> exists|j: int|
                0 <= j < r.len() && same_path(walked@[r[j] as int].parts@, walked@[i].parts@),
{
    let n = walked.len();
    let mut keys: Vec<Vec<u32>> = Vec::new();
    for i in 0..n
        invariant
            n == walked.len(),
            keys.len() == i,
            forall|k: int| 0 <= k < i ==> #[trigger] keys@[k]@ == path_key(walked@[k].parts@),
    {
        keys.push(key_of(&walked[i].parts));
    }
    let ghost ks = Seq::new(n as nat, |k: int| path_key(walked@[k].parts@));
    let mut r: Vec<usize> = Vec::new();
    for i in 0..n
        invariant
            n == walked.len(),
            keys.len() == n,
            ks.len() == n,
            forall|k: int| 0 <= k < n ==> #[trigger] keys@[k]@ == ks[k],
            forall|k: int| 0 <= k < n ==> #[trigger] ks[k] == path_key(walked@[k].parts@),
            forall|j: int| 0 <= j < r.len() ==> #[trigger] r[j] < i && is_fortune_file(walked@[r[j] as int]),
            forall|j: int, k: int|
                #![trigger r@[j], r@[k]]
                0 <= j < k < r.len() ==> key_less(ks[r@[j] as int], ks[r@[k] as int]),
            forall|m: int|
                0 <= m < i && is_fortune_file(#[trigger] walked@[m]) ==> exists|j: int|
                    0 <= j < r.len() && ks[r@[j] as int] == ks[m],
    {
        if fortune_file(&walked[i]) {
            let mut j: usize = 0;
            while j < r.len() && less_keys(&keys[r[j]], &keys[i])
                invariant
                    j <= r.len(),
                    i < n,
                    keys.len() == n,
                    forall|k: int| 0 <= k < n ==> #[trigger] keys@[k]@ == ks[k],
                    forall|a: int| 0 <= a < r.len() ==> #[trigger] r[a] < i,
                    forall|a: int| 0 <= a < j ==> key_less(ks[#[trigger] r@[a] as int], ks[i as int]),
                decreases r.len() - j,
            {
                j += 1;
            }
            let insert = j == r.len() || less_keys(&keys[i], &keys[r[j]]);
            if insert {
                let ghost old_r = r@;
                proof {
                    lemma_insert_sorted(ks, old_r, j as int, i);
                    old_r.insert_ensures(j as int, i);
                }
                r.insert(j, i);
                assert forall|m: int|
                    0 <= m <= i && is_fortune_file(#[trigger] walked@[m]) implies exists|a: int|
                        0 <= a < r.len() && ks[r@[a] as int] == ks[m] by {
                    if m == i {
                        assert(r@[j as int] == i);
                    } else {
                        let a = choose|a: int| 0 <= a < old_r.len() && ks[old_r[a] as int] == ks[m];
                        if a < j {
                            assert(r@[a] == old_r[a]);
                        } else {
                            assert(r@[a + 1] == old_r[a]);
                        }
                    }
                }
            } else {
                proof {
                    lemma_key_order(ks[i as int], ks[r@[j as int] as int], ks[i as int]);
                }
                assert(ks[r@[j as int] as int] == ks[i as int]);
            }
        }
    }
    assert forall|j: int, k: int|
        #![trigger r[j], r[k]]
        0 <= j < k < r.len() implies parts_less(walked@[r[j] as int].parts@, walked@[r[k] as int].parts@) by {
        assert(key_less(ks[r@[j] as int], ks[r@[k] as int]));
        path_keys_order_as_paths(walked@[r[j] as int].parts@, walked@[r[k] as int].parts@);
    }
    assert forall|i: int|
        0 <= i < walked.len() && is_fortune_file(#[trigger] walked@[i]) implies exists|j: int|
            0 <= j < r.len() && same_path(walked@[r[j] as int].parts@, walked@[i].parts@) by {
        let j = choose|j: int| 0 <= j < r.len() && ks[r@[j] as int] == ks[i];
        path_keys_order_as_paths(walked@[r[j] as int].parts@, walked@[i].parts@);
    }
    r
}

/// Whether the name `x` comes before `y`, byte by byte, as slices compare.
pub open spec fn bytes_less(x: Seq<u8>, y: Seq<u8>) -> bool
    decreases x.len(),
{
    if x.len() == 0 {
        y.len() > 0
    } else if y.len() == 0 {
        false
    } else if x[0] < y[0] {
        true
    } else if x[0] > y[0] {
        false
    } else {
        bytes_less(x.drop_first(), y.drop_first())
    }
}

/// The place of a component's kind in `Component`'s order.
pub open spec fn part_rank(p: PathPart) -> u32 {
    match p {
        PathPart::RootDir => 1,
        PathPart::CurDir => 2,
        PathPart::ParentDir => 3,
        PathPart::Normal(_) => 4,
    }
}

/// Whether component `p` comes before `q`: by kind, then names by bytes.
pub open spec fn part_less(p: PathPart, q: PathPart) -> bool {
    part_rank(p) < part_rank(q) || match (p, q) {
        (PathPart::Normal(x), PathPart::Normal(y)) => bytes_less(x@, y@),
        _ => false,
    }
}

/// Whether path `p` comes before `q` as `Path` orders them: component by
/// component, a path before any longer path that it begins.
pub open spec fn parts_less(p: Seq<PathPart>, q: Seq<PathPart>) -> bool
    decreases p.len(),
{
    if p.len() == 0 {
        q.len() > 0
    } else if q.len() == 0 {
        false
    } else if part_less(p[0], q[0]) {
        true
    } else if part_less(q[0], p[0]) {
        false
    } else {
        parts_less(p.drop_first(), q.drop_first())
    }
}

proof fn lemma_name_keys(x: Seq<u8>, y: Seq<u8>, s: Seq<u32>, t: Seq<u32>)
    ensures
        key_less(
            x.map_values(|b: u8| byte_code(b)) + seq![0u32] + s,
            y.map_values(|b: u8| byte_code(b)) + seq![0u32] + t,
        ) == if bytes_less(x, y) {
            true
        } else if bytes_less(y, x) {
            false
        } else {
            key_less(s, t)
        },
        !bytes_less(x, y) && !bytes_less(y, x) ==> x == y,
    decreases x.len(),
{
    let f = |b: u8| byte_code(b);
    let kx = x.map_values(f) + seq![0u32] + s;
    let ky = y.map_values(f) + seq![0u32] + t;
    if x.len() == 0 || y.len() == 0 {
        assert(kx[0] == if x.len() == 0 { 0u32 } else { byte_code(x[0]) });
        assert(ky[0] == if y.len() == 0 { 0u32 } else { byte_code(y[0]) });
        if x.len() == 0 && y.len() == 0 {
            assert(kx.drop_first() =~= s);
            assert(ky.drop_first() =~= t);
            assert(x =~= y);
        }
    } else {
        assert(kx[0] == byte_code(x[0]));
        assert(ky[0] == byte_code(y[0]));
        assert(kx.drop_first() =~= x.drop_first().map_values(f) + seq![0u32] + s);
        assert(ky.drop_first() =~= y.drop_first().map_values(f) + seq![0u32] + t);
        lemma_name_keys(x.drop_first(), y.drop_first(), s, t);
        if x[0] == y[0] && x.drop_first() == y.drop_first() {
            assert(x =~= seq![x[0]] + x.drop_first());
            assert(y =~= seq![y[0]] + y.drop_first());
        }
    }
}

proof fn lemma_part_keys(a: PathPart, b: PathPart, s: Seq<u32>, t: Seq<u32>)
    ensures
        key_less(part_key(a) + s, part_key(b) + t) == if part_less(a, b) {
            true
        } else if part_less(b, a) {
            false
        } else {
            key_less(s, t)
        },
        !part_less(a, b) && !part_less(b, a) ==> part_key(a) == part_key(b),
{
    let ka = part_key(a) + s;
    let kb = part_key(b) + t;
    assert(ka[0] == part_rank(a));
    assert(kb[0] == part_rank(b));
    match (a, b) {
        (PathPart::Normal(x), PathPart::Normal(y)) => {
            let f = |c: u8| byte_code(c);
            assert(ka.drop_first() =~= x@.map_values(f) + seq![0u32] + s);
            assert(kb.drop_first() =~= y@.map_values(f) + seq![0u32] + t);
            lemma_name_keys(x@, y@, s, t);
        },
        _ => {
            if part_rank(a) == part_rank(b) {
                assert(part_key(a) == part_key(b));
                assert(ka.drop_first()[0] == 0u32);
                assert(kb.drop_first()[0] == 0u32);
                assert(ka.drop_first().drop_first() =~= s);
                assert(kb.drop_first().drop_first() =~= t);
                assert(key_less(ka, kb) == key_less(ka.drop_first(), kb.drop_first()));
                assert(key_less(ka.drop_first(), kb.drop_first()) == key_less(s, t));
            }
        },
    }
}

proof fn lemma_path_keys(p: Seq<PathPart>, q: Seq<PathPart>)
    ensures
        key_less(path_key(p), path_key(q)) == parts_less(p, q),
    decreases p.len(),
{
    if p.len() > 0 {
        assert(path_key(p)[0] == part_key(p[0])[0]);
    }
    if q.len() > 0 {
        assert(path_key(q)[0] == part_key(q[0])[0]);
    }
    if p.len() > 0 && q.len() > 0 {
        lemma_path_keys(p.drop_first(), q.drop_first());
        lemma_part_keys(p[0], q[0], path_key(p.drop_first()), path_key(q.drop_first()));
    }
}

/// Whether two paths are equal as `Path` compares them: neither comes before
/// the other.
pub open spec fn same_path(p: Seq<PathPart>, q: Seq<PathPart>) -> bool {
    !parts_less(p, q) && !parts_less(q, p)
}

/// Keys order paths as `Path` does, and two paths have the same key exactly
/// when neither comes before the other.
pub proof fn path_keys_order_as_paths(p: Seq<PathPart>, q: Seq<PathPart>)
    ensures
        key_less(path_key(p), path_key(q)) == parts_less(p, q),
        path_key(p) == path_key(q) <==> !parts_less(p, q) && !parts_less(q, p),
{
    lemma_path_keys(p, q);
    lemma_path_keys(q, p);
    lemma_key_order(path_key(p), path_key(q), path_key(q));
    lemma_key_order(path_key(q), path_key(p), path_key(p));
}

proof fn lemma_fortune_buffer(lines: Seq<Seq<char>>, source: Seq<char>, buf: Seq<char>)
    requires
        buf.len() > 0,
        forall|i: int| 0 <= i < lines.len() ==> lines[i] != seq!['%'],
    ensures
        parse_lines(lines + seq![seq!['%']], source, buf) == (
            seq![(source, buf + lines.map_values(|l: Seq<char>| seq!['\n'] + l).flatten())],
            Seq::<char>::empty(),
        ),
    decreases lines.len(),
{
    let f = |l: Seq<char>| seq!['\n'] + l;
    let all = lines + seq![seq!['%']];
    if lines.len() == 0 {
        assert(all =~= seq![seq!['%']]);
        assert(is_separator(all[0]));
        assert(all.drop_first() =~= Seq::<Seq<char>>::empty());
        assert(lines.map_values(f) =~= Seq::<Seq<char>>::empty());
        assert(lines.map_values(f).flatten() =~= Seq::<char>::empty());
        assert(buf + lines.map_values(f).flatten() =~= buf);
        assert(parse_lines(all.drop_first(), source, seq![]) == (
            Seq::<(Seq<char>, Seq<char>)>::empty(),
            Seq::<char>::empty(),
        ));
        assert(parse_lines(all, source, buf) == (
            seq![(source, buf)] + Seq::<(Seq<char>, Seq<char>)>::empty(),
            Seq::<char>::empty(),
        ));
        assert(seq![(source, buf)] + Seq::<(Seq<char>, Seq<char>)>::empty() =~= seq![(source, buf)]);
    } else {
        let tail = lines.drop_first();
        assert(all[0] == lines[0]);
        assert(lines[0] != seq!['%']);
        assert(!is_separator(all[0]));
        assert(all.drop_first() =~= tail + seq![seq!['%']]);
        assert forall|i: int| 0 <= i < tail.len() implies tail[i] != seq!['%'] by {
            assert(tail[i] == lines[i + 1]);
        }
        let b = buf + seq!['\n'] + lines[0];
        lemma_fortune_buffer(tail, source, b);
        let m = lines.map_values(f);
        assert(m.drop_first() =~= tail.map_values(f));
        assert(m.len() > 0);
        assert(m.first() == seq!['\n'] + lines[0]);
        assert(m.flatten() == m.first() + m.drop_first().flatten());
        assert(b + tail.map_values(f).flatten() =~= buf + m.flatten());
        assert(parse_lines(all, source, buf) == parse_lines(all.drop_first(), source, b));
    }
}

/// Once a fortune has begun, every line up to the next `%` line belongs to
/// it, empty lines included: a non-empty first line, any further lines none
/// of which is `%`, then a `%` line, make exactly one fortune from the file,
/// its text the lines joined by newlines, and leave nothing pending.
pub proof fn fortune_keeps_every_line(lines: Seq<Seq<char>>, source: Seq<char>)
    requires
        lines.len() > 0,
        lines[0].len() > 0,
        forall|i: int| 0 <= i < lines.len() ==> lines[i] != seq!['%'],
    ensures
        parse_lines(lines + seq![seq!['%']], source, Seq::<char>::empty()) == (
            seq![(source, lines[0] + lines.drop_first().map_values(|l: Seq<char>| seq!['\n'] + l).flatten())],
            Seq::<char>::empty(),
        ),
{
    let all = lines + seq![seq!['%']];
    let tail = lines.drop_first();
    assert(all[0] == lines[0]);
    assert(lines[0] != seq!['%']);
    assert(!is_separator(all[0]));
    assert(all.drop_first() =~= tail + seq![seq!['%']]);
    assert forall|i: int| 0 <= i < tail.len() implies tail[i] != seq!['%'] by {
        assert(tail[i] == lines[i + 1]);
    }
    assert(Seq::<char>::empty() + lines[0] =~= lines[0]);
    lemma_fortune_buffer(tail, source, lines[0]);
}

} // verus!
