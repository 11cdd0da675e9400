//! `cat`: prints files, optionally numbering their lines.
use vstd::prelude::*;
use vstd::utf8::valid_utf8;
use crate::input::{opt_view, push_unavailable, unavailable_line, Report, Source};
use crate::text::{
    decimal, first_line, lemma_readable_empty, lemma_readable_step, lemma_readable_stop,
    pad_left, push_right_aligned, read_fails, trimmed_lines, LineReader, ReadError,
};

verus! {

/// The settings of one run.
pub struct Options {
    pub files: Vec<String>,
    pub number_lines: bool,
    pub number_nonblank_lines: bool,
}

/// A line number as `cat` prints it: right-aligned in six columns, then a tab.
pub open spec fn number_prefix(n: nat) -> Seq<char> {
    pad_left(decimal(n), 6) + seq!['\t']
}

/// The number that `cat` puts in front of `line`, where `done` lines of the
/// file came before and `numbered` of those got a number under `-b`:
/// every line's under `-n`, a non-empty line's under `-b`, none otherwise.
pub open spec fn line_number(
    line: Seq<char>,
    number_lines: bool,
    number_nonblank: bool,
    done: nat,
    numbered: nat,
) -> Option<nat> {
    if number_lines {
        Some(done + 1)
    } else if number_nonblank && line.len() > 0 {
        Some(numbered + 1)
    } else {
        None
    }
}

/// What `cat` prints for one line.
pub open spec fn cat_line(
    line: Seq<char>,
    number_lines: bool,
    number_nonblank: bool,
    done: nat,
    numbered: nat,
) -> Seq<char> {
    match line_number(line, number_lines, number_nonblank, done, numbered) {
        Some(n) => number_prefix(n) + line + seq!['\n'],
        None => line + seq!['\n'],
    }
}

/// How many lines got a number under `-b` once `line` is printed.
pub open spec fn numbered_after(
    line: Seq<char>,
    number_lines: bool,
    number_nonblank: bool,
    numbered: nat,
) -> nat {
    if !number_lines && number_nonblank && line.len() > 0 {
        numbered + 1
    } else {
        numbered
    }
}

/// What `cat` prints for `lines` of one file, where `done` lines came before
/// and `numbered` of those got a number under `-b`.
pub open spec fn cat_lines(
    lines: Seq<Seq<char>>,
    number_lines: bool,
    number_nonblank: bool,
    done: nat,
    numbered: nat,
) -> Seq<char>
    decreases lines.len(),
{
    if lines.len() == 0 {
        seq![]
    } else {
        cat_line(lines[0], number_lines, number_nonblank, done, numbered) + cat_lines(
            lines.drop_first(),
            number_lines,
            number_nonblank,
            done + 1,
            numbered_after(lines[0], number_lines, number_nonblank, numbered),
        )
    }
}

/// What `cat` prints for one file holding `b`: its lines up to the first one
/// that is not UTF-8, each without its trailing white space.
pub open spec fn cat_file(b: Seq<u8>, o: Options) -> Seq<char> {
    cat_lines(trimmed_lines(b), o.number_lines, o.number_nonblank_lines, 0, 0)
}

/// Standard output, standard error and the error that ends the run, if any,
/// for the files `names` with contents `srcs`: an unavailable file is
/// reported and skipped, and the first file that cannot be read, or has a
/// line that is not UTF-8, ends the run.
pub open spec fn cat_run(names: Seq<String>, srcs: Seq<Source>, o: Options) -> (
    Seq<char>,
    Seq<char>,
    Option<Seq<char>>,
)
    decreases srcs.len(),
{
    if srcs.len() == 0 || names.len() == 0 {
        (seq![], seq![], None)
    } else {
        let rest = cat_run(names.drop_first(), srcs.drop_first(), o);
        match srcs[0] {
            Source::Unavailable(e) => (rest.0, unavailable_line(names[0]@, e@) + rest.1, rest.2),
            Source::Unreadable(e) => (seq![], seq![], Some(e@)),
            Source::Contents(b) => if read_fails(b@) {
                (cat_file(b@, o), seq![], Some("stream did not contain valid UTF-8"@))
            } else {
                (cat_file(b@, o) + rest.0, rest.1, rest.2)
            },
        }
    }
}

/// Prints one line; returns how many lines got a number under `-b`.
fn cat_one_line(
    out: &mut String,
    line: &str,
    number_lines: bool,
    number_nonblank: bool,
    done: usize,
    numbered: usize,
) -> (r: usize)
    requires
        done < usize::MAX,
        numbered <= done,
    ensures
        final(out)@ == old(out)@ + cat_line(line@, number_lines, number_nonblank, done as nat, numbered as nat),
        r == numbered_after(line@, number_lines, number_nonblank, numbered as nat),
{
    let mut r = numbered;
    if number_lines {
        push_right_aligned(out, (done + 1) as u64, 6);
        out.push('\t');
    } else if number_nonblank && line.unicode_len() > 0 {
        push_right_aligned(out, (numbered + 1) as u64, 6);
        out.push('\t');
        r = numbered + 1;
    }
    out.append(line);
    out.push('\n');
    assert(final(out)@ =~= old(out)@ + cat_line(line@, number_lines, number_nonblank, done as nat, numbered as nat));
    r
}

/// Prints one file.
fn cat_one(out: &mut String, data: &Vec<u8>, options: &Options) -> (ok: bool)
    ensures
        final(out)@ == old(out)@ + cat_file(data@, *options),
        ok == !read_fails(data@),
{
    let mut reader = LineReader::new(data.clone());
    let mut done: usize = 0;
    let mut numbered: usize = 0;
    let ghost whole = cat_file(data@, *options);
    let total = data.len();
    loop
        invariant
            whole == cat_file(data@, *options),
            total == data@.len(),
            numbered <= done,
            done + reader@.len() <= data@.len(),
            old(out)@ + whole == out@ + cat_lines(
                trimmed_lines(reader@),
                options.number_lines,
                options.number_nonblank_lines,
                done as nat,
                numbered as nat,
            ),
            read_fails(data@) == read_fails(reader@),
        decreases reader@.len(),
    {
        let ghost before = reader@;
        proof {
            if before.len() == 0 {
                lemma_readable_empty(before);
            } else if valid_utf8(first_line(before)) {
                lemma_readable_step(before);
            } else {
                lemma_readable_stop(before);
            }
        }
        match reader.read_line() {
            Ok(Some(line)) => {
                let ghost lines = trimmed_lines(before);
                assert(lines[0] == line@);
                assert(lines.drop_first() =~= trimmed_lines(reader@));
                numbered = cat_one_line(
                    out,
                    line.as_str(),
                    options.number_lines,
                    options.number_nonblank_lines,
                    done,
                    numbered,
                );
                done += 1;
            },
            Ok(None) => {
                assert(old(out)@ + whole =~= out@);
                return true;
            },
            Err(_) => {
                assert(old(out)@ + whole =~= out@);
                return false;
            },
        }
    }
}

/// Runs `cat` over `sources`, the contents of `options.files` in order.
pub fn run(options: &Options, sources: &Vec<Source>) -> (r: Report)
    requires
        sources.len() == options.files.len(),
    ensures
        r.out@ == cat_run(options.files@, sources@, *options).0,
        r.err@ == cat_run(options.files@, sources@, *options).1,
        opt_view(r.failure) == cat_run(options.files@, sources@, *options).2,
{
    let mut out = String::new();
    let mut err = String::new();
    let n = sources.len();
    let ghost whole = cat_run(options.files@, sources@, *options);
    assert(options.files@.skip(0) =~= options.files@);
    assert(sources@.skip(0) =~= sources@);
    for i in 0..n
        invariant
            n == sources.len(),
            n == options.files.len(),
            whole == cat_run(options.files@, sources@, *options),
            whole.0 == out@ + cat_run(options.files@.skip(i as int), sources@.skip(i as int), *options).0,
            whole.1 == err@ + cat_run(options.files@.skip(i as int), sources@.skip(i as int), *options).1,
            whole.2 == cat_run(options.files@.skip(i as int), sources@.skip(i as int), *options).2,
    {
        let ghost names = options.files@.skip(i as int);
        let ghost srcs = sources@.skip(i as int);
        assert(names.drop_first() =~= options.files@.skip(i + 1));
        assert(srcs.drop_first() =~= sources@.skip(i + 1));
        assert(srcs[0] == sources@[i as int]);
        assert(names[0] == options.files@[i as int]);
        match &sources[i] {
            Source::Unavailable(e) => {
                push_unavailable(&mut err, options.files[i].as_str(), e.as_str());
            },
            Source::Unreadable(e) => {
                return Report { out, err, failure: Some(e.clone()) };
            },
            Source::Contents(data) => {
                let ok = cat_one(&mut out, data, options);
                if !ok {
                    let failure = ReadError::InvalidUtf8.message();
                    return Report { out, err, failure: Some(failure) };
                }
            },
        }
    }
    assert(sources@.skip(n as int).len() == 0);
    Report { out, err, failure: None }
}

/// Each of `lines` after its number under `-n`, counting on from `done`.
pub open spec fn numbered_text(lines: Seq<Seq<char>>, done: nat) -> Seq<char> {
    lines.map(|i: int, l: Seq<char>| number_prefix((done + i + 1) as nat) + l + seq!['\n']).flatten()
}

/// Each of `lines` on a line of its own.
pub open spec fn plain_text(lines: Seq<Seq<char>>) -> Seq<char> {
    lines.map_values(|l: Seq<char>| l + seq!['\n']).flatten()
}

proof fn lemma_numbered(lines: Seq<Seq<char>>, nonblank: bool, done: nat, numbered: nat)
    ensures
        cat_lines(lines, true, nonblank, done, numbered) == numbered_text(lines, done),
        cat_lines(lines, false, false, done, numbered) == plain_text(lines),
    decreases lines.len(),
{
    if lines.len() > 0 {
        let tail = lines.drop_first();
        lemma_numbered(tail, nonblank, done + 1, numbered);
        lemma_numbered(tail, nonblank, done + 1, numbered_after(lines[0], false, false, numbered));
        let f = |i: int, l: Seq<char>| number_prefix((done + i + 1) as nat) + l + seq!['\n'];
        let g = |i: int, l: Seq<char>| number_prefix((done + 1 + i + 1) as nat) + l + seq!['\n'];
        assert(lines.map(f).drop_first() =~= tail.map(g));
        let h = |l: Seq<char>| l + seq!['\n'];
        assert(lines.map_values(h).drop_first() =~= tail.map_values(h));
    }
}

/// Under `-n` the lines of each file are numbered 1, 2, 3 and on, each
/// number right-aligned in six columns and followed by a tab; without `-n`
/// or `-b` each line is printed as it is read.
pub proof fn numbering_counts_every_line(b: Seq<u8>, o: Options)
    ensures
        o.number_lines ==> cat_file(b, o) == numbered_text(trimmed_lines(b), 0),
        !o.number_lines && !o.number_nonblank_lines ==> cat_file(b, o) == plain_text(trimmed_lines(b)),
{
    lemma_numbered(trimmed_lines(b), o.number_nonblank_lines, 0, 0);
}

} // verus!
